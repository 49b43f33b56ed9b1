use vstd::prelude::*;

use crate::dfa::{first_match, first_nullable_from, DFA};
use crate::regex::{
    and_of, collect, dedup, deriv_seq, fold_classes, merge, merged_sets, not_of, nullable, or_of,
    others, star_of, term_cmp, then_of, Term,
};
use crate::scan::table_run;
use crate::table::{flattened, lemma_table_class, LexTable, NaiveLexTable, START_STATE};

verus! {

/// `term_cmp` is reflexive.
pub proof fn lemma_cmp_refl(a: Term)
    ensures
        term_cmp(a, a) == std::cmp::Ordering::Equal,
{
    crate::regex::lemma_cmp_equal(a, a);
}

/// The class of all bytes, repeated.
pub open spec fn universe_star() -> Term {
    Term::Star(Box::new(Term::Class(Set::<u8>::full())))
}

/// Union with the empty language gives the term back.
pub proof fn lemma_or_none(r: Term)
    ensures
        or_of(r, Term::Void) == r,
        or_of(Term::Void, r) == r,
{
}

/// Concatenation with the empty string gives the term back.
pub proof fn lemma_then_empty(r: Term)
    ensures
        then_of(r, Term::Epsilon) == r,
        then_of(Term::Epsilon, r) == r,
{
}

/// Repetition is idempotent.
pub proof fn lemma_star_star(r: Term)
    ensures
        star_of(star_of(r)) == star_of(r),
{
}

/// Negating twice gives a canonical term back: a class is not empty, and the child
/// of a negation is neither `Void`, a class, nor a negation.
pub proof fn lemma_not_not(r: Term)
    requires
        r matches Term::Class(s) ==> s != Set::<u8>::empty(),
        r matches Term::Not(x) ==> !(*x is Void || *x is Class || *x is Not),
    ensures
        not_of(not_of(r)) == r,
{
    match r {
        Term::Void => {
            assert(Set::<u8>::full().complement() =~= Set::<u8>::empty());
        },
        Term::Class(s) => {
            assert(s.complement().complement() =~= s);
            if s.complement() == Set::<u8>::empty() {
                assert(s =~= Set::<u8>::full());
            }
        },
        _ => {},
    }
}

/// Intersection with the repetition of all bytes gives back `Void`, `Epsilon`, and
/// that repetition itself.
pub proof fn lemma_and_universe_star(r: Term)
    requires
        r is Void || r is Epsilon || r == universe_star(),
    ensures
        and_of(r, universe_star()) == r,
{
    if r == universe_star() {
        lemma_cmp_refl(r);
        let cs = merge(seq![r], seq![r]);
        assert(merge(seq![r].drop_first(), seq![r]) == seq![r]);
        assert(cs =~= seq![r, r]);
        assert(seq![r, r].drop_last() =~= seq![r]);
        assert(seq![r].drop_last() =~= Seq::<Term>::empty());
        assert(fold_classes(seq![r].drop_last(), false) is None);
        assert(seq![r].last() == r);
        assert(fold_classes(seq![r], false) is None);
        assert(fold_classes(cs, false) is None);
        assert(others(seq![r]) =~= seq![r]) by {
            assert(others(seq![r].drop_last()) =~= Seq::<Term>::empty());
        }
        assert(others(cs) =~= seq![r, r]);
        assert(merged_sets(cs, false) == seq![r, r]);
        assert(dedup(seq![r]) =~= seq![r]) by {
            assert(dedup(seq![r].drop_last()) =~= Seq::<Term>::empty());
        }
        assert(dedup(seq![r, r]) =~= seq![r]);
        assert(collect(seq![r], false) == r);
    }
}


proof fn lemma_first_nullable_from(q: Seq<Term>, k: int)
    requires
        0 <= k <= q.len(),
        q.len() <= usize::MAX,
    ensures
        first_nullable_from(q, k) matches Some(i) ==> k <= i < q.len() && nullable(q[i as int])
            && forall|j: int| k <= j < i ==> !nullable(#[trigger] q[j]),
        first_nullable_from(q, k) is None ==> forall|j: int| k <= j < q.len() ==> !nullable(#[trigger] q[j]),
    decreases q.len() - k,
{
    if k < q.len() && !nullable(q[k]) {
        lemma_first_nullable_from(q, k + 1);
        assert(first_nullable_from(q, k) == first_nullable_from(q, k + 1));
        if first_nullable_from(q, k + 1) is Some {
            let i = first_nullable_from(q, k + 1)->Some_0;
            assert forall|j: int| k <= j < i implies !nullable(#[trigger] q[j]) by {
                if j > k {
                    assert(k + 1 <= j);
                }
            }
        }
    }
}

/// The first match is the smallest index of a pattern that matches all of `w`.
pub proof fn lemma_first_match(patterns: Seq<Term>, w: Seq<u8>)
    requires
        patterns.len() <= usize::MAX,
    ensures
        first_match(patterns, w) matches Some(k) ==> k < patterns.len() && nullable(deriv_seq(patterns[k as int], w))
            && forall|j: int| 0 <= j < k ==> !nullable(#[trigger] deriv_seq(patterns[j], w)),
        first_match(patterns, w) is None ==> forall|j: int| 0 <= j < patterns.len() ==> !nullable(#[trigger] deriv_seq(patterns[j], w)),
{
    let q = Seq::new(patterns.len(), |k: int| deriv_seq(patterns[k], w));
    lemma_first_nullable_from(q, 0);
    if first_match(patterns, w) is Some {
        let k = first_match(patterns, w)->Some_0;
        assert forall|j: int| 0 <= j < k implies !nullable(#[trigger] deriv_seq(patterns[j], w)) by {
            assert(q[j] == deriv_seq(patterns[j], w));
        }
    } else {
        assert forall|j: int| 0 <= j < patterns.len() implies !nullable(#[trigger] deriv_seq(patterns[j], w)) by {
            assert(q[j] == deriv_seq(patterns[j], w));
        }
    }
}

/// Priority of a scanner over patterns: where a table is flattened from an
/// automaton that gives each input the first pattern that matches all of it (as
/// `DFA::from` and `DFA::minimize` do), the class that a scan reaches by `w` is the
/// smallest index of a pattern that matches all of `w`.
pub proof fn lemma_scan_priority(patterns: Seq<Term>, dfa: DFA, table: NaiveLexTable, w: Seq<u8>)
    requires
        patterns.len() <= usize::MAX,
        flattened(table, dfa),
        forall|v: Seq<u8>| #[trigger] dfa.accepts(v) == first_match(patterns, v),
    ensures
        table.spec_class(table_run(table, START_STATE, w)) == first_match(patterns, w),
        first_match(patterns, w) matches Some(k) ==> k < patterns.len() && nullable(deriv_seq(patterns[k as int], w))
            && forall|j: int| 0 <= j < k ==> !nullable(#[trigger] deriv_seq(patterns[j], w)),
{
    lemma_table_class(table, dfa, w);
    assert(dfa.accepts(w) == first_match(patterns, w));
    lemma_first_match(patterns, w);
}

} // verus!
