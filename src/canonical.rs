use vstd::prelude::*;

use crate::byte_set::{set_words, words_cmp};
use crate::language::{
    lemma_dedup_members, lemma_fold_classes, lemma_merge_members, lemma_others_members,
};
use crate::regex::{
    and_children, and_of, cat_children, cat_of, class_of, collect, dedup, deriv, deriv_and,
    deriv_cat, deriv_or, fold_classes, lemma_cmp_equal, merge, merged_sets, not_of, nullable,
    or_children, or_of, others, star_of, tag, term_cmp, term_le, terms_cmp, then_of, Term,
};

verus! {

/// The opposite outcome of a comparison.
pub open spec fn flip(o: std::cmp::Ordering) -> std::cmp::Ordering {
    match o {
        std::cmp::Ordering::Less => std::cmp::Ordering::Greater,
        std::cmp::Ordering::Greater => std::cmp::Ordering::Less,
        std::cmp::Ordering::Equal => std::cmp::Ordering::Equal,
    }
}

proof fn lemma_words_flip(a: Seq<u8>, b: Seq<u8>)
    ensures
        words_cmp(b, a) == flip(words_cmp(a, b)),
    decreases a.len(),
{
    if a.len() > 0 && b.len() > 0 {
        lemma_words_flip(a.drop_first(), b.drop_first());
    }
}

proof fn lemma_words_trans(a: Seq<u8>, b: Seq<u8>, c: Seq<u8>)
    requires
        words_cmp(a, b) != std::cmp::Ordering::Greater,
        words_cmp(b, c) != std::cmp::Ordering::Greater,
    ensures
        words_cmp(a, c) != std::cmp::Ordering::Greater,
    decreases a.len(),
{
    if a.len() > 0 && b.len() > 0 && c.len() > 0 {
        if a[0] == b[0] && b[0] == c[0] {
            lemma_words_trans(a.drop_first(), b.drop_first(), c.drop_first());
        }
    }
}

/// Comparing the other way round flips the outcome.
pub proof fn lemma_cmp_flip(a: Term, b: Term)
    ensures
        term_cmp(b, a) == flip(term_cmp(a, b)),
    decreases a,
{
    if tag(a) == tag(b) {
        match (a, b) {
            (Term::Class(x), Term::Class(y)) => lemma_words_flip(set_words(x), set_words(y)),
            (Term::Cat(xs), Term::Cat(ys)) => lemma_terms_flip(xs, ys),
            (Term::Or(xs), Term::Or(ys)) => lemma_terms_flip(xs, ys),
            (Term::And(xs), Term::And(ys)) => lemma_terms_flip(xs, ys),
            (Term::Star(x), Term::Star(y)) => lemma_cmp_flip(*x, *y),
            (Term::Not(x), Term::Not(y)) => lemma_cmp_flip(*x, *y),
            _ => {},
        }
    }
}

proof fn lemma_terms_flip(xs: Seq<Term>, ys: Seq<Term>)
    ensures
        terms_cmp(ys, xs) == flip(terms_cmp(xs, ys)),
    decreases xs,
{
    if xs.len() > 0 && ys.len() > 0 {
        lemma_cmp_flip(xs[0], ys[0]);
        lemma_terms_flip(xs.drop_first(), ys.drop_first());
    }
}

/// The order on terms is transitive.
pub proof fn lemma_cmp_trans(a: Term, b: Term, c: Term)
    requires
        term_le(a, b),
        term_le(b, c),
    ensures
        term_le(a, c),
    decreases a,
{
    if tag(a) == tag(b) && tag(b) == tag(c) {
        match (a, b, c) {
            (Term::Class(x), Term::Class(y), Term::Class(z)) => lemma_words_trans(set_words(x), set_words(y), set_words(z)),
            (Term::Cat(xs), Term::Cat(ys), Term::Cat(zs)) => lemma_terms_trans(xs, ys, zs),
            (Term::Or(xs), Term::Or(ys), Term::Or(zs)) => lemma_terms_trans(xs, ys, zs),
            (Term::And(xs), Term::And(ys), Term::And(zs)) => lemma_terms_trans(xs, ys, zs),
            (Term::Star(x), Term::Star(y), Term::Star(z)) => lemma_cmp_trans(*x, *y, *z),
            (Term::Not(x), Term::Not(y), Term::Not(z)) => lemma_cmp_trans(*x, *y, *z),
            _ => {},
        }
    }
}

proof fn lemma_terms_trans(xs: Seq<Term>, ys: Seq<Term>, zs: Seq<Term>)
    requires
        terms_cmp(xs, ys) != std::cmp::Ordering::Greater,
        terms_cmp(ys, zs) != std::cmp::Ordering::Greater,
    ensures
        terms_cmp(xs, zs) != std::cmp::Ordering::Greater,
    decreases xs,
{
    if xs.len() > 0 && ys.len() > 0 && zs.len() > 0 {
        let c1 = term_cmp(xs[0], ys[0]);
        let c2 = term_cmp(ys[0], zs[0]);
        lemma_cmp_equal(xs[0], ys[0]);
        lemma_cmp_equal(ys[0], zs[0]);
        lemma_cmp_equal(xs[0], zs[0]);
        if c1 == std::cmp::Ordering::Equal && c2 == std::cmp::Ordering::Equal {
            lemma_terms_trans(xs.drop_first(), ys.drop_first(), zs.drop_first());
        } else {
            lemma_cmp_trans(xs[0], ys[0], zs[0]);
            lemma_cmp_flip(xs[0], ys[0]);
            lemma_cmp_flip(ys[0], zs[0]);
        }
    }
}

/// A total order: one of the two comes no later than the other.
pub proof fn lemma_cmp_total(a: Term, b: Term)
    ensures
        term_le(a, b) || term_le(b, a),
        term_le(a, b) && term_le(b, a) ==> a == b,
{
    lemma_cmp_flip(a, b);
    lemma_cmp_equal(a, b);
}


/// Any two members in non-decreasing order.
pub open spec fn sorted(s: Seq<Term>) -> bool {
    forall|i: int, j: int| 0 <= i < j < s.len() ==> term_le(#[trigger] s[i], #[trigger] s[j])
}

/// Each member strictly before the next.
pub open spec fn strictly_sorted(s: Seq<Term>) -> bool {
    forall|i: int| 0 <= i < s.len() - 1 ==> #[trigger] term_cmp(s[i], s[i + 1]) == std::cmp::Ordering::Less
}

proof fn lemma_chain(s: Seq<Term>, i: int, j: int)
    requires
        strictly_sorted(s),
        0 <= i < j < s.len(),
    ensures
        term_le(s[i], s[j]),
    decreases j - i,
{
    let k = j - 1;
    assert(term_cmp(s[k], s[k + 1]) == std::cmp::Ordering::Less);
    assert(k + 1 == j);
    if i < j - 1 {
        lemma_chain(s, i, j - 1);
        lemma_cmp_trans(s[i], s[j - 1], s[j]);
    }
}

pub proof fn lemma_strict_sorted(s: Seq<Term>)
    requires
        strictly_sorted(s),
    ensures
        sorted(s),
{
    assert forall|i: int, j: int| 0 <= i < j < s.len() implies term_le(#[trigger] s[i], #[trigger] s[j]) by {
        lemma_chain(s, i, j);
    }
}

proof fn lemma_cons_sorted(h: Term, t: Seq<Term>)
    requires
        sorted(t),
        forall|x: Term| #[trigger] t.contains(x) ==> term_le(h, x),
    ensures
        sorted(seq![h] + t),
{
    let c = seq![h] + t;
    assert forall|i: int, j: int| 0 <= i < j < c.len() implies term_le(#[trigger] c[i], #[trigger] c[j]) by {
        assert(c[j] == t[j - 1]);
        if i == 0 {
            assert(t.contains(t[j - 1]));
        } else {
            assert(c[i] == t[i - 1]);
        }
    }
}

proof fn lemma_push_sorted(s: Seq<Term>, y: Term)
    requires
        sorted(s),
        forall|x: Term| #[trigger] s.contains(x) ==> term_le(x, y),
    ensures
        sorted(s.push(y)),
{
    let c = s.push(y);
    assert forall|i: int, j: int| 0 <= i < j < c.len() implies term_le(#[trigger] c[i], #[trigger] c[j]) by {
        assert(c[i] == s[i]);
        if j == s.len() {
            assert(s.contains(s[i]));
        } else {
            assert(c[j] == s[j]);
        }
    }
}

/// Merging two sorted sequences gives a sorted one.
pub proof fn lemma_merge_sorted(a: Seq<Term>, b: Seq<Term>)
    requires
        sorted(a),
        sorted(b),
    ensures
        sorted(merge(a, b)),
    decreases a.len() + b.len(),
{
    if a.len() > 0 && b.len() > 0 {
        if term_le(a[0], b[0]) {
            let a1 = a.drop_first();
            assert(sorted(a1)) by {
                assert forall|i: int, j: int| 0 <= i < j < a1.len() implies term_le(#[trigger] a1[i], #[trigger] a1[j]) by {
                    assert(a1[i] == a[i + 1] && a1[j] == a[j + 1]);
                }
            }
            lemma_merge_sorted(a1, b);
            lemma_merge_members(a1, b);
            assert forall|x: Term| #[trigger] merge(a1, b).contains(x) implies term_le(a[0], x) by {
                if a1.contains(x) {
                    let k = choose|k: int| 0 <= k < a1.len() && a1[k] == x;
                    assert(a[k + 1] == x);
                } else {
                    let k = choose|k: int| 0 <= k < b.len() && b[k] == x;
                    if k > 0 {
                        lemma_cmp_trans(a[0], b[0], b[k]);
                    }
                }
            }
            lemma_cons_sorted(a[0], merge(a1, b));
        } else {
            lemma_cmp_total(a[0], b[0]);
            let b1 = b.drop_first();
            assert(sorted(b1)) by {
                assert forall|i: int, j: int| 0 <= i < j < b1.len() implies term_le(#[trigger] b1[i], #[trigger] b1[j]) by {
                    assert(b1[i] == b[i + 1] && b1[j] == b[j + 1]);
                }
            }
            lemma_merge_sorted(a, b1);
            lemma_merge_members(a, b1);
            assert forall|x: Term| #[trigger] merge(a, b1).contains(x) implies term_le(b[0], x) by {
                if b1.contains(x) {
                    let k = choose|k: int| 0 <= k < b1.len() && b1[k] == x;
                    assert(b[k + 1] == x);
                } else {
                    let k = choose|k: int| 0 <= k < a.len() && a[k] == x;
                    if k > 0 {
                        lemma_cmp_trans(b[0], a[0], a[k]);
                    }
                }
            }
            lemma_cons_sorted(b[0], merge(a, b1));
        }
    }
}

/// Dropping the classes keeps a sequence sorted.
pub proof fn lemma_others_sorted(cs: Seq<Term>)
    requires
        sorted(cs),
    ensures
        sorted(others(cs)),
    decreases cs.len(),
{
    if cs.len() > 0 {
        let p = cs.drop_last();
        assert(sorted(p)) by {
            assert forall|i: int, j: int| 0 <= i < j < p.len() implies term_le(#[trigger] p[i], #[trigger] p[j]) by {
                assert(p[i] == cs[i] && p[j] == cs[j]);
            }
        }
        lemma_others_sorted(p);
        assert(others(cs) == if cs.last() is Class {
            others(p)
        } else {
            others(p).push(cs.last())
        });
        if !(cs.last() is Class) {
            lemma_others_members(p);
            assert forall|x: Term| #[trigger] others(p).contains(x) implies term_le(x, cs.last()) by {
                let k = choose|k: int| 0 <= k < p.len() && p[k] == x;
                assert(cs[k] == x);
            }
            lemma_push_sorted(others(p), cs.last());
        }
    }
}

/// Deduplicating a sorted sequence makes it strictly sorted.
pub proof fn lemma_dedup_sorted(cs: Seq<Term>)
    requires
        sorted(cs),
    ensures
        sorted(dedup(cs)),
        strictly_sorted(dedup(cs)),
    decreases cs.len(),
{
    if cs.len() > 0 {
        let p = cs.drop_last();
        let y = cs.last();
        assert(sorted(p)) by {
            assert forall|i: int, j: int| 0 <= i < j < p.len() implies term_le(#[trigger] p[i], #[trigger] p[j]) by {
                assert(p[i] == cs[i] && p[j] == cs[j]);
            }
        }
        lemma_dedup_sorted(p);
        lemma_dedup_members(p);
        let d = dedup(p);
        assert(dedup(cs) == if d.len() > 0 && d.last() == y {
            d
        } else {
            d.push(y)
        });
        if !(d.len() > 0 && d.last() == y) {
            assert forall|x: Term| #[trigger] d.contains(x) implies term_le(x, y) by {
                let k = choose|k: int| 0 <= k < p.len() && p[k] == x;
                assert(cs[k] == x);
            }
            lemma_push_sorted(d, y);
            let e = d.push(y);
            assert forall|i: int| 0 <= i < e.len() - 1 implies #[trigger] term_cmp(e[i], e[i + 1]) == std::cmp::Ordering::Less by {
                if i < d.len() - 1 {
                    assert(e[i] == d[i] && e[i + 1] == d[i + 1]);
                    assert(term_cmp(d[i], d[i + 1]) == std::cmp::Ordering::Less);
                } else {
                    assert(e[i] == d.last());
                    assert(d.contains(d.last()));
                    lemma_cmp_equal(d.last(), y);
                }
            }
        }
    }
}


/// The invariants of the canonical form: a class is not empty; a concatenation has
/// two or more children, none `Void`, `Epsilon` or a concatenation; a repetition's
/// child is not `Void`, `Epsilon` or a repetition; a union has two or more children,
/// strictly sorted, none `Void` or a union, and at most one class; an intersection
/// likewise, with no `Epsilon` child either; a negation's child is not `Void`, a
/// class or a negation.
pub open spec fn canonical(t: Term) -> bool
    decreases t,
{
    match t {
        Term::Void => true,
        Term::Epsilon => true,
        Term::Class(s) => s != Set::<u8>::empty(),
        Term::Cat(cs) => cs.len() >= 2 && all_canonical(cs) && cat_members(cs),
        Term::Star(c) => canonical(*c) && !(*c is Void || *c is Epsilon || *c is Star),
        Term::Or(cs) => cs.len() >= 2 && all_canonical(cs) && strictly_sorted(cs) && or_members(cs),
        Term::And(cs) => cs.len() >= 2 && all_canonical(cs) && strictly_sorted(cs) && and_members(cs),
        Term::Not(c) => canonical(*c) && !(*c is Void || *c is Class || *c is Not),
    }
}

/// Every member of `cs` is canonical.
pub open spec fn all_canonical(cs: Seq<Term>) -> bool
    decreases cs,
{
    forall|i: int| 0 <= i < cs.len() ==> canonical(#[trigger] cs[i])
}

/// No member of a concatenation is `Void`, `Epsilon` or a concatenation.
pub open spec fn cat_members(cs: Seq<Term>) -> bool {
    forall|x: Term| #[trigger] cs.contains(x) ==> !(x is Void || x is Epsilon || x is Cat)
}

/// At most one class among the members.
pub open spec fn one_class(cs: Seq<Term>) -> bool {
    forall|x: Term, y: Term| #[trigger] cs.contains(x) && #[trigger] cs.contains(y) && x is Class && y is Class ==> x == y
}

/// No member of a union is `Void` or a union, and at most one is a class.
pub open spec fn or_members(cs: Seq<Term>) -> bool {
    &&& forall|x: Term| #[trigger] cs.contains(x) ==> !(x is Void || x is Or)
    &&& one_class(cs)
}

/// No member of an intersection is `Void`, `Epsilon` or an intersection, and at most
/// one is a class.
pub open spec fn and_members(cs: Seq<Term>) -> bool {
    &&& forall|x: Term| #[trigger] cs.contains(x) ==> !(x is Void || x is Epsilon || x is And)
    &&& one_class(cs)
}

proof fn lemma_all_canonical(cs: Seq<Term>)
    ensures
        all_canonical(cs) == forall|x: Term| #[trigger] cs.contains(x) ==> canonical(x),
{
    if all_canonical(cs) {
        assert forall|x: Term| #[trigger] cs.contains(x) implies canonical(x) by {
            let i = choose|i: int| 0 <= i < cs.len() && cs[i] == x;
        }
    }
    if forall|x: Term| #[trigger] cs.contains(x) ==> canonical(x) {
        assert forall|i: int| 0 <= i < cs.len() implies canonical(#[trigger] cs[i]) by {
            assert(cs.contains(cs[i]));
        }
    }
}

proof fn lemma_single(t: Term)
    ensures
        forall|x: Term| #[trigger] seq![t].contains(x) <==> x == t,
        sorted(seq![t]),
{
    assert(seq![t][0] == t);
    assert forall|x: Term| #[trigger] seq![t].contains(x) <==> x == t by {
        if seq![t].contains(x) {
            let i = choose|i: int| 0 <= i < 1 && seq![t][i] == x;
        }
    }
}

/// What the children that a canonical term gives a union, an intersection or a
/// concatenation satisfy.
proof fn lemma_children_canonical(t: Term)
    requires
        canonical(t),
    ensures
        !(t is Void) ==> sorted(or_children(t)) && forall|x: Term| #[trigger] or_children(t).contains(x)
            ==> canonical(x) && !(x is Void || x is Or),
        !(t is Void || t is Epsilon) ==> sorted(and_children(t)) && forall|x: Term| #[trigger] and_children(t).contains(x)
            ==> canonical(x) && !(x is Void || x is Epsilon || x is And),
        !(t is Void || t is Epsilon) ==> cat_children(t).len() >= 1 && forall|x: Term| #[trigger] cat_children(t).contains(x)
            ==> canonical(x) && !(x is Void || x is Epsilon || x is Cat),
{
    lemma_single(t);
    match t {
        Term::Or(cs) => {
            lemma_all_canonical(cs);
            lemma_strict_sorted(cs);
        },
        Term::And(cs) => {
            lemma_all_canonical(cs);
            lemma_strict_sorted(cs);
        },
        Term::Cat(cs) => {
            lemma_all_canonical(cs);
        },
        _ => {},
    }
}

proof fn lemma_collect_canonical(d: Seq<Term>, is_or: bool)
    requires
        forall|x: Term| #[trigger] d.contains(x) ==> canonical(x),
        strictly_sorted(d),
        is_or ==> or_members(d),
        !is_or ==> and_members(d),
    ensures
        canonical(collect(d, is_or)),
{
    lemma_all_canonical(d);
    if d.len() == 1 {
        assert(d.contains(d[0]));
    }
}

/// The union or intersection over `a` and `b` after merging, folding the classes and
/// removing duplicates.
proof fn lemma_merged_canonical(a: Seq<Term>, b: Seq<Term>, union: bool)
    requires
        sorted(a),
        sorted(b),
        forall|x: Term| #[trigger] a.contains(x) ==> canonical(x) && !(x is Void) && (if union { !(x is Or) } else { !(x is Epsilon || x is And) }),
        forall|x: Term| #[trigger] b.contains(x) ==> canonical(x) && !(x is Void) && (if union { !(x is Or) } else { !(x is Epsilon || x is And) }),
        !union ==> fold_classes(merge(a, b), union) != Some(Set::<u8>::empty()),
    ensures
        canonical(collect(dedup(merged_sets(merge(a, b), union)), union)),
{
    let m = merge(a, b);
    let o = others(m);
    let ms = merged_sets(m, union);
    let d = dedup(ms);
    lemma_merge_sorted(a, b);
    lemma_merge_members(a, b);
    lemma_others_sorted(m);
    lemma_others_members(m);
    lemma_fold_classes(m, union);
    lemma_dedup_members(ms);
    let ok = |x: Term| canonical(x) && !(x is Void) && (if union { !(x is Or) } else { !(x is Epsilon || x is And) });
    assert forall|x: Term| #[trigger] o.contains(x) implies ok(x) && !(x is Class) by {
        assert(m.contains(x));
    }
    match fold_classes(m, union) {
        None => {
            assert(ms == o);
            assert forall|x: Term| #[trigger] ms.contains(x) implies ok(x) && !(x is Class) by {}
        },
        Some(u) => {
            let cu = Term::Class(u);
            assert(ms == merge(o, seq![cu]));
            lemma_single(cu);
            lemma_merge_sorted(o, seq![cu]);
            lemma_merge_members(o, seq![cu]);
            assert forall|x: Term| #[trigger] ms.contains(x) implies (ok(x) && !(x is Class)) || x == cu by {}
            assert(u != Set::<u8>::empty()) by {
                if union {
                    let y = choose|y: Term| #[trigger] m.contains(y) && y is Class;
                    assert(ok(y));
                    let s = y->Class_0;
                    assert(s != Set::<u8>::empty());
                    assert(exists|v: u8| s.contains(v)) by {
                        if forall|v: u8| !s.contains(v) {
                            assert(s =~= Set::<u8>::empty());
                        }
                    }
                    let v = choose|v: u8| s.contains(v);
                    assert(u.contains(v));
                }
            }
        },
    }
    lemma_dedup_sorted(ms);
    assert forall|x: Term| #[trigger] d.contains(x) implies canonical(x) && !(x is Void) && (if union { !(x is Or) } else { !(x is Epsilon || x is And) }) by {
        assert(ms.contains(x));
    }
    assert forall|x: Term, y: Term| #[trigger] d.contains(x) && #[trigger] d.contains(y) && x is Class && y is Class implies x == y by {
        assert(ms.contains(x));
        assert(ms.contains(y));
    }
    lemma_collect_canonical(d, union);
}

/// Each smart constructor, applied to canonical terms, gives a canonical term; so
/// does the derivative.
pub proof fn lemma_constructors_canonical(r: Term, s: Term, x: Set<u8>, a: u8)
    requires
        canonical(r),
        canonical(s),
    ensures
        canonical(class_of(x)),
        canonical(then_of(r, s)),
        canonical(star_of(r)),
        canonical(not_of(r)),
        canonical(or_of(r, s)),
        canonical(and_of(r, s)),
        canonical(deriv(r, a)),
{
    lemma_then_canonical(r, s);
    lemma_not_canonical(r);
    lemma_or_canonical(r, s);
    lemma_and_canonical(r, s);
    lemma_deriv_canonical(r, a);
}

proof fn lemma_not_canonical(r: Term)
    requires
        canonical(r),
    ensures
        canonical(not_of(r)),
{
    assert(Set::<u8>::full().contains(0u8));
}

proof fn lemma_then_canonical(r: Term, s: Term)
    requires
        canonical(r),
        canonical(s),
    ensures
        canonical(then_of(r, s)),
{
    if !(s is Epsilon || r is Epsilon || s is Void || r is Void) {
        lemma_children_canonical(r);
        lemma_children_canonical(s);
        let a = cat_children(r);
        let b = cat_children(s);
        let c = a + b;
        assert forall|x: Term| #[trigger] c.contains(x) implies canonical(x) && !(x is Void || x is Epsilon || x is Cat) by {
            let i = choose|i: int| 0 <= i < c.len() && c[i] == x;
            if i < a.len() {
                assert(a[i] == x);
                assert(a.contains(x));
            } else {
                assert(b[i - a.len()] == x);
                assert(b.contains(x));
            }
        }
        lemma_all_canonical(c);
        assert(then_of(r, s) == Term::Cat(c));
    }
}

proof fn lemma_or_canonical(r: Term, s: Term)
    requires
        canonical(r),
        canonical(s),
    ensures
        canonical(or_of(r, s)),
{
    if !(s is Void || r is Void) && !(r is Class && s is Class) {
        lemma_children_canonical(r);
        lemma_children_canonical(s);
        lemma_merged_canonical(or_children(r), or_children(s), true);
    }
}

proof fn lemma_and_canonical(r: Term, s: Term)
    requires
        canonical(r),
        canonical(s),
    ensures
        canonical(and_of(r, s)),
{
    if !(s is Void || r is Void || s is Epsilon || r is Epsilon) && !(r is Class && s is Class) {
        lemma_children_canonical(r);
        lemma_children_canonical(s);
        if fold_classes(merge(and_children(r), and_children(s)), false) != Some(Set::<u8>::empty()) {
            lemma_merged_canonical(and_children(r), and_children(s), false);
        }
    }
}

/// The derivative of a canonical term is canonical.
pub proof fn lemma_deriv_canonical(t: Term, a: u8)
    requires
        canonical(t),
    ensures
        canonical(deriv(t, a)),
    decreases t, 0nat,
{
    match t {
        Term::Cat(cs) => {
            lemma_all_canonical(cs);
            lemma_deriv_cat_canonical(cs, a);
        },
        Term::Star(c) => {
            lemma_deriv_canonical(*c, a);
            lemma_then_canonical(deriv(*c, a), t);
        },
        Term::Or(cs) => {
            lemma_all_canonical(cs);
            lemma_deriv_or_canonical(cs, a);
        },
        Term::And(cs) => {
            lemma_all_canonical(cs);
            lemma_deriv_and_canonical(cs, a);
        },
        Term::Not(c) => {
            lemma_deriv_canonical(*c, a);
            lemma_not_canonical(deriv(*c, a));
        },
        _ => {},
    }
}

proof fn lemma_deriv_cat_canonical(cs: Seq<Term>, a: u8)
    requires
        cs.len() >= 1,
        all_canonical(cs),
        cat_members(cs),
    ensures
        canonical(deriv_cat(cs, a)),
    decreases cs, 1nat,
{
    assert(canonical(cs[0]));
    lemma_deriv_canonical(cs[0], a);
    if cs.len() > 1 {
        let rest = cs.drop_first();
        assert forall|i: int| 0 <= i < rest.len() implies canonical(#[trigger] rest[i]) by {
            assert(rest[i] == cs[i + 1]);
        }
        assert forall|x: Term| #[trigger] rest.contains(x) implies !(x is Void || x is Epsilon || x is Cat) by {
            let i = choose|i: int| 0 <= i < rest.len() && rest[i] == x;
            assert(cs[i + 1] == x);
            assert(cs.contains(x));
        }
        lemma_deriv_cat_canonical(rest, a);
        if rest.len() == 1 {
            assert(canonical(rest[0]));
        } else {
            assert(all_canonical(rest));
            assert(cat_members(rest));
            assert(canonical(Term::Cat(rest)) == (rest.len() >= 2 && all_canonical(rest) && cat_members(rest)));
        }
        assert(canonical(cat_of(rest)));
        lemma_then_canonical(deriv(cs[0], a), cat_of(rest));
        let n = if nullable(cs[0]) { deriv_cat(rest, a) } else { Term::Void };
        lemma_or_canonical(then_of(deriv(cs[0], a), cat_of(rest)), n);
    }
}

proof fn lemma_deriv_or_canonical(cs: Seq<Term>, a: u8)
    requires
        cs.len() >= 1,
        all_canonical(cs),
    ensures
        canonical(deriv_or(cs, a)),
        canonical(deriv_and(cs, a)),
    decreases cs, 1nat,
{
    assert(canonical(cs[0]));
    lemma_deriv_canonical(cs[0], a);
    if cs.len() > 1 {
        let rest = cs.drop_first();
        assert forall|i: int| 0 <= i < rest.len() implies canonical(#[trigger] rest[i]) by {
            assert(rest[i] == cs[i + 1]);
        }
        lemma_deriv_or_canonical(rest, a);
        lemma_or_canonical(deriv(cs[0], a), deriv_or(rest, a));
        lemma_and_canonical(deriv(cs[0], a), deriv_and(rest, a));
    }
}

proof fn lemma_deriv_and_canonical(cs: Seq<Term>, a: u8)
    requires
        cs.len() >= 1,
        all_canonical(cs),
    ensures
        canonical(deriv_and(cs, a)),
    decreases cs, 2nat,
{
    lemma_deriv_or_canonical(cs, a);
}

} // verus!
