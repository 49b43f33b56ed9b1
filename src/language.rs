use vstd::prelude::*;

use crate::regex::{
    all_nullable_terms, and_children, and_of, any_nullable_terms, cat_children, cat_of, collect,
    dedup, deriv, deriv_and, deriv_cat, deriv_or, deriv_seq, fold_classes, merge, merged_sets,
    nullable, or_children, or_of, others, term_le, then_of, Term,
};

verus! {

/// Whether `w` is in the language of `t`: a class holds one-byte strings, `Cat` is
/// concatenation, `Star` repetition, `Or` union, `And` intersection and `Not`
/// complement.
pub open spec fn in_lang(t: Term, w: Seq<u8>) -> bool
    decreases t, w.len(), w.len() + 2,
{
    match t {
        Term::Void => false,
        Term::Epsilon => w.len() == 0,
        Term::Class(s) => w.len() == 1 && s.contains(w[0]),
        Term::Cat(cs) => in_cat(cs, w),
        Term::Star(_) => w.len() == 0 || star_split(t, w, w.len() as int),
        Term::Or(cs) => in_any(cs, w),
        Term::And(cs) => in_all(cs, w),
        Term::Not(c) => !in_lang(*c, w),
    }
}

/// `w` splits into words of the terms of `cs`, in order.
pub open spec fn in_cat(cs: Seq<Term>, w: Seq<u8>) -> bool
    decreases cs, w.len(), w.len() + 2,
{
    if cs.len() == 0 {
        w.len() == 0
    } else {
        cat_split(cs, w, w.len() as int)
    }
}

/// For some `j <= k`, `w[..j]` is a word of `cs[0]` and `w[j..]` one of the rest.
pub open spec fn cat_split(cs: Seq<Term>, w: Seq<u8>, k: int) -> bool
    decreases cs, w.len(), k + 1,
{
    if k < 0 || k > w.len() || cs.len() == 0 {
        false
    } else {
        (in_lang(cs[0], w.subrange(0, k)) && in_cat(cs.drop_first(), w.subrange(k, w.len() as int)))
            || cat_split(cs, w, k - 1)
    }
}

/// For some `1 <= j <= k`, `w[..j]` is a word of the child of the repetition `t`,
/// and `w[j..]` a word of `t`.
pub open spec fn star_split(t: Term, w: Seq<u8>, k: int) -> bool
    decreases t, w.len(), k + 1,
{
    if k < 1 || k > w.len() || !(t is Star) {
        false
    } else {
        (in_lang(*t->Star_0, w.subrange(0, k)) && in_lang(t, w.subrange(k, w.len() as int)))
            || star_split(t, w, k - 1)
    }
}

/// `w` is in the language of some term of `cs`.
pub open spec fn in_any(cs: Seq<Term>, w: Seq<u8>) -> bool
    decreases cs, w.len(), w.len() + 2,
{
    cs.len() > 0 && (in_lang(cs[0], w) || in_any(cs.drop_first(), w))
}

/// `w` is in the language of every term of `cs`.
pub open spec fn in_all(cs: Seq<Term>, w: Seq<u8>) -> bool
    decreases cs, w.len(), w.len() + 2,
{
    cs.len() == 0 || (in_lang(cs[0], w) && in_all(cs.drop_first(), w))
}

/// Some split of `w` gives a word of `cs[0]` and a word of the rest.
pub open spec fn cat_exists(cs: Seq<Term>, w: Seq<u8>) -> bool {
    exists|j: int|
        0 <= j <= w.len() && #[trigger] in_lang(cs[0], w.subrange(0, j)) && in_cat(
            cs.drop_first(),
            w.subrange(j, w.len() as int),
        )
}

/// Some non-empty prefix of `w` is a word of `c`, and the rest a word of `t`.
pub open spec fn star_exists(c: Term, t: Term, w: Seq<u8>) -> bool {
    exists|j: int|
        1 <= j <= w.len() && #[trigger] in_lang(c, w.subrange(0, j)) && in_lang(t, w.subrange(j, w.len() as int))
}

proof fn lemma_cat_split(cs: Seq<Term>, w: Seq<u8>, k: int)
    requires
        cs.len() > 0,
        -1 <= k <= w.len(),
    ensures
        cat_split(cs, w, k) == exists|j: int|
            0 <= j <= k && #[trigger] in_lang(cs[0], w.subrange(0, j)) && in_cat(
                cs.drop_first(),
                w.subrange(j, w.len() as int),
            ),
    decreases k + 1,
{
    if k >= 0 {
        lemma_cat_split(cs, w, k - 1);
        let here = in_lang(cs[0], w.subrange(0, k)) && in_cat(cs.drop_first(), w.subrange(k, w.len() as int));
        assert(cat_split(cs, w, k) == (here || cat_split(cs, w, k - 1)));
        if exists|j: int|
            0 <= j <= k && #[trigger] in_lang(cs[0], w.subrange(0, j)) && in_cat(
                cs.drop_first(),
                w.subrange(j, w.len() as int),
            ) {
            let j = choose|j: int|
                0 <= j <= k && #[trigger] in_lang(cs[0], w.subrange(0, j)) && in_cat(
                    cs.drop_first(),
                    w.subrange(j, w.len() as int),
                );
            if j < k {
                assert(cat_split(cs, w, k - 1));
            }
        }
    } else {
        assert(!cat_split(cs, w, k));
    }
}

/// A concatenation of terms holds `w` when some split does.
pub proof fn lemma_in_cat(cs: Seq<Term>, w: Seq<u8>)
    requires
        cs.len() > 0,
    ensures
        in_cat(cs, w) == cat_exists(cs, w),
{
    lemma_cat_split(cs, w, w.len() as int);
    assert(in_cat(cs, w) == cat_split(cs, w, w.len() as int));
}

proof fn lemma_star_split(t: Term, w: Seq<u8>, k: int)
    requires
        t is Star,
        0 <= k <= w.len(),
    ensures
        star_split(t, w, k) == exists|j: int|
            1 <= j <= k && #[trigger] in_lang(*t->Star_0, w.subrange(0, j)) && in_lang(
                t,
                w.subrange(j, w.len() as int),
            ),
    decreases k,
{
    if k >= 1 {
        lemma_star_split(t, w, k - 1);
        let here = in_lang(*t->Star_0, w.subrange(0, k)) && in_lang(t, w.subrange(k, w.len() as int));
        assert(star_split(t, w, k) == (here || star_split(t, w, k - 1)));
        if exists|j: int|
            1 <= j <= k && #[trigger] in_lang(*t->Star_0, w.subrange(0, j)) && in_lang(
                t,
                w.subrange(j, w.len() as int),
            ) {
            let j = choose|j: int|
                1 <= j <= k && #[trigger] in_lang(*t->Star_0, w.subrange(0, j)) && in_lang(
                    t,
                    w.subrange(j, w.len() as int),
                );
            if j < k {
                assert(star_split(t, w, k - 1));
            }
        }
    } else {
        assert(!star_split(t, w, k));
    }
}

/// A repetition holds `w` when `w` is empty, or a non-empty prefix is a word of the
/// child and the rest a word of the repetition.
pub proof fn lemma_in_star(c: Term, w: Seq<u8>)
    ensures
        in_lang(Term::Star(Box::new(c)), w) == (w.len() == 0 || star_exists(
            c,
            Term::Star(Box::new(c)),
            w,
        )),
{
    let t = Term::Star(Box::new(c));
    lemma_star_split(t, w, w.len() as int);
    assert(in_lang(t, w) == (w.len() == 0 || star_split(t, w, w.len() as int)));
}

/// A union of terms holds `w` when one of them does.
pub proof fn lemma_in_any(cs: Seq<Term>, w: Seq<u8>)
    ensures
        in_any(cs, w) == exists|i: int| 0 <= i < cs.len() && #[trigger] in_lang(cs[i], w),
    decreases cs.len(),
{
    if cs.len() > 0 {
        let rest = cs.drop_first();
        lemma_in_any(rest, w);
        assert(in_any(cs, w) == (in_lang(cs[0], w) || in_any(rest, w)));
        if exists|i: int| 0 <= i < cs.len() && #[trigger] in_lang(cs[i], w) {
            let i = choose|i: int| 0 <= i < cs.len() && #[trigger] in_lang(cs[i], w);
            if i > 0 {
                assert(rest[i - 1] == cs[i]);
                assert(in_lang(rest[i - 1], w));
            }
            assert(in_any(cs, w));
        }
        if in_any(cs, w) {
            if !in_lang(cs[0], w) {
                let i = choose|i: int| 0 <= i < rest.len() && #[trigger] in_lang(rest[i], w);
                assert(rest[i] == cs[i + 1]);
                assert(in_lang(cs[i + 1], w));
            }
            assert(exists|i: int| 0 <= i < cs.len() && #[trigger] in_lang(cs[i], w));
        }
    }
}

/// An intersection of terms holds `w` when all of them do.
pub proof fn lemma_in_all(cs: Seq<Term>, w: Seq<u8>)
    ensures
        in_all(cs, w) == forall|i: int| 0 <= i < cs.len() ==> #[trigger] in_lang(cs[i], w),
    decreases cs.len(),
{
    if cs.len() > 0 {
        lemma_in_all(cs.drop_first(), w);
        assert(in_all(cs, w) == (in_lang(cs[0], w) && in_all(cs.drop_first(), w)));
        if forall|i: int| 0 <= i < cs.len() ==> #[trigger] in_lang(cs[i], w) {
            assert forall|i: int| 0 <= i < cs.drop_first().len() implies #[trigger] in_lang(cs.drop_first()[i], w) by {
                assert(cs.drop_first()[i] == cs[i + 1]);
            }
        }
        if in_all(cs, w) {
            assert forall|i: int| 0 <= i < cs.len() implies #[trigger] in_lang(cs[i], w) by {
                if i > 0 {
                    assert(cs.drop_first()[i - 1] == cs[i]);
                }
            }
        }
    }
}

/// No negation occurs in `t`, and every concatenation, union and intersection in
/// it has a child.
pub open spec fn plain(t: Term) -> bool
    decreases t,
{
    match t {
        Term::Cat(cs) => cs.len() > 0 && all_plain(cs),
        Term::Or(cs) => cs.len() > 0 && all_plain(cs),
        Term::And(cs) => cs.len() > 0 && all_plain(cs),
        Term::Star(c) => plain(*c),
        Term::Not(_) => false,
        _ => true,
    }
}

/// Every term of `cs` is `plain`.
pub open spec fn all_plain(cs: Seq<Term>) -> bool
    decreases cs,
{
    forall|i: int| 0 <= i < cs.len() ==> plain(#[trigger] cs[i])
}

/// The empty string is in the language exactly when the term is nullable.
pub proof fn lemma_nullable(t: Term)
    ensures
        nullable(t) == in_lang(t, Seq::empty()),
    decreases t,
{
    let e = Seq::<u8>::empty();
    match t {
        Term::Cat(cs) => {
            lemma_nullable_cat(cs);
            assert(in_lang(t, e) == in_cat(cs, e));
            assert(nullable(t) == all_nullable_terms(cs));
        },
        Term::Or(cs) => {
            assert forall|i: int| 0 <= i < cs.len() implies nullable(#[trigger] cs[i]) == in_lang(cs[i], e) by {
                lemma_nullable(cs[i]);
            }
            lemma_in_any(cs, e);
            assert(in_lang(t, e) == in_any(cs, e));
            assert(nullable(t) == any_nullable_terms(cs));
        },
        Term::And(cs) => {
            assert forall|i: int| 0 <= i < cs.len() implies nullable(#[trigger] cs[i]) == in_lang(cs[i], e) by {
                lemma_nullable(cs[i]);
            }
            lemma_in_all(cs, e);
            assert(in_lang(t, e) == in_all(cs, e));
            assert(nullable(t) == all_nullable_terms(cs));
        },
        Term::Not(c) => {
            lemma_nullable(*c);
            assert(in_lang(t, e) == !in_lang(*c, e));
        },
        Term::Star(_) => {
            assert(in_lang(t, e));
        },
        _ => {},
    }
}

proof fn lemma_nullable_cat(cs: Seq<Term>)
    ensures
        all_nullable_terms(cs) == in_cat(cs, Seq::empty()),
    decreases cs,
{
    let e = Seq::<u8>::empty();
    if cs.len() > 0 {
        lemma_nullable(cs[0]);
        lemma_nullable_cat(cs.drop_first());
        lemma_in_cat(cs, e);
        assert(e.subrange(0, 0) =~= e);
        if all_nullable_terms(cs) {
            assert forall|i: int| 0 <= i < cs.drop_first().len() implies nullable(#[trigger] cs.drop_first()[i]) by {
                assert(cs.drop_first()[i] == cs[i + 1]);
            }
            assert(in_lang(cs[0], e.subrange(0, 0)));
            assert(in_cat(cs.drop_first(), e.subrange(0, e.len() as int)));
        }
        if in_cat(cs, e) {
            let k = choose|k: int|
                0 <= k <= e.len() && #[trigger] in_lang(cs[0], e.subrange(0, k)) && in_cat(
                    cs.drop_first(),
                    e.subrange(k, e.len() as int),
                );
            assert(k == 0);
            assert forall|i: int| 0 <= i < cs.len() implies nullable(#[trigger] cs[i]) by {
                if i > 0 {
                    assert(cs[i] == cs.drop_first()[i - 1]);
                }
            }
        }
    }
}

/// A one-term concatenation denotes its term.
proof fn lemma_in_cat_one(t: Term, w: Seq<u8>)
    ensures
        in_cat(seq![t], w) == in_lang(t, w),
{
    let cs = seq![t];
    assert(cs.len() == 1);
    assert(cs[0] == t);
    assert(cs.drop_first() =~= Seq::<Term>::empty());
    lemma_in_cat(cs, w);
    assert(w.subrange(0, w.len() as int) =~= w);
    if in_cat(cs, w) {
        let k = choose|k: int|
            0 <= k <= w.len() && #[trigger] in_lang(cs[0], w.subrange(0, k)) && in_cat(
                cs.drop_first(),
                w.subrange(k, w.len() as int),
            );
        assert(k == w.len());
    }
    if in_lang(t, w) {
        assert(w.subrange(w.len() as int, w.len() as int).len() == 0);
        assert(in_lang(cs[0], w.subrange(0, w.len() as int)));
    }
}

/// `w` is a word of `r` followed by a word of `s`.
pub open spec fn in_concat(r: Term, s: Term, w: Seq<u8>) -> bool {
    exists|k: int|
        0 <= k <= w.len() && #[trigger] in_lang(r, w.subrange(0, k)) && in_lang(s, w.subrange(k, w.len() as int))
}

/// `w` is a word of the concatenation of `a` followed by one of `b`.
pub open spec fn in_cat_pair(a: Seq<Term>, b: Seq<Term>, w: Seq<u8>) -> bool {
    exists|k: int|
        0 <= k <= w.len() && #[trigger] in_cat(a, w.subrange(0, k)) && in_cat(b, w.subrange(k, w.len() as int))
}

proof fn lemma_in_cat_append(a: Seq<Term>, b: Seq<Term>, w: Seq<u8>)
    ensures
        in_cat(a + b, w) == in_cat_pair(a, b, w),
    decreases a.len(),
{
    if a.len() > 0 {
        lemma_in_cat(a, w.subrange(0, 0));
        lemma_in_cat(a + b, w);
        assert forall|k: int| 0 <= k <= w.len() implies #[trigger] in_cat(a, w.subrange(0, k)) == cat_exists(a, w.subrange(0, k)) by {
            lemma_in_cat(a, w.subrange(0, k));
        }
    }
    if a.len() == 0 {
        assert(a + b =~= b);
        assert(w.subrange(0, 0).len() == 0);
        assert(w.subrange(0, w.len() as int) =~= w);
        if in_cat(b, w) {
            assert(in_cat(a, w.subrange(0, 0)));
            assert(in_cat(b, w.subrange(0, w.len() as int)));
        }
        if in_cat_pair(a, b, w) {
            let k = choose|k: int|
                0 <= k <= w.len() && #[trigger] in_cat(a, w.subrange(0, k)) && in_cat(b, w.subrange(k, w.len() as int));
            assert(k == 0);
        }
    } else {
        let ab = a + b;
        assert(ab[0] == a[0]);
        assert(ab.drop_first() =~= a.drop_first() + b);
        if in_cat(ab, w) {
            let j = choose|j: int|
                0 <= j <= w.len() && #[trigger] in_lang(ab[0], w.subrange(0, j)) && in_cat(
                    ab.drop_first(),
                    w.subrange(j, w.len() as int),
                );
            let v = w.subrange(j, w.len() as int);
            lemma_in_cat_append(a.drop_first(), b, v);
            let m = choose|m: int|
                0 <= m <= v.len() && #[trigger] in_cat(a.drop_first(), v.subrange(0, m)) && in_cat(b, v.subrange(m, v.len() as int));
            let k = j + m;
            let u = w.subrange(0, k);
            assert(u.subrange(0, j) =~= w.subrange(0, j));
            assert(u.subrange(j, u.len() as int) =~= v.subrange(0, m));
            assert(in_cat(a, u));
            assert(v.subrange(m, v.len() as int) =~= w.subrange(k, w.len() as int));
            assert(in_cat_pair(a, b, w));
        }
        if in_cat_pair(a, b, w) {
            let k = choose|k: int|
                0 <= k <= w.len() && #[trigger] in_cat(a, w.subrange(0, k)) && in_cat(b, w.subrange(k, w.len() as int));
            let u = w.subrange(0, k);
            let j = choose|j: int|
                0 <= j <= u.len() && #[trigger] in_lang(a[0], u.subrange(0, j)) && in_cat(
                    a.drop_first(),
                    u.subrange(j, u.len() as int),
                );
            let v = w.subrange(j, w.len() as int);
            assert(u.subrange(0, j) =~= w.subrange(0, j));
            assert(v.subrange(0, k - j) =~= u.subrange(j, u.len() as int));
            assert(v.subrange(k - j, v.len() as int) =~= w.subrange(k, w.len() as int));
            assert(in_cat_pair(a.drop_first(), b, v));
            lemma_in_cat_append(a.drop_first(), b, v);
            assert(in_cat(ab, w));
        }
    }
}

/// The children that a term gives a concatenation denote the term.
proof fn lemma_cat_children(t: Term, w: Seq<u8>)
    ensures
        in_cat(cat_children(t), w) == in_lang(t, w),
{
    match t {
        Term::Cat(cs) => {},
        _ => lemma_in_cat_one(t, w),
    }
}

/// The canonical concatenation denotes the concatenation of the languages.
pub proof fn lemma_then(r: Term, s: Term, w: Seq<u8>)
    ensures
        in_lang(then_of(r, s), w) == in_concat(r, s, w),
{
    if s is Epsilon {
        assert(w.subrange(0, w.len() as int) =~= w);
        if in_lang(r, w) {
            assert(in_lang(s, w.subrange(w.len() as int, w.len() as int)));
        }
        if in_concat(r, s, w) {
            let k = choose|k: int| 0 <= k <= w.len() && #[trigger] in_lang(r, w.subrange(0, k)) && in_lang(s, w.subrange(k, w.len() as int));
            assert(k == w.len());
        }
    } else if r is Epsilon {
        assert(w.subrange(0, w.len() as int) =~= w);
        if in_lang(s, w) {
            assert(in_lang(r, w.subrange(0, 0)));
        }
        if in_concat(r, s, w) {
            let k = choose|k: int| 0 <= k <= w.len() && #[trigger] in_lang(r, w.subrange(0, k)) && in_lang(s, w.subrange(k, w.len() as int));
            assert(k == 0);
        }
    } else if s is Void || r is Void {
    } else {
        lemma_in_cat_append(cat_children(r), cat_children(s), w);
        if in_concat(r, s, w) {
            let k = choose|k: int| 0 <= k <= w.len() && #[trigger] in_lang(r, w.subrange(0, k)) && in_lang(s, w.subrange(k, w.len() as int));
            lemma_cat_children(r, w.subrange(0, k));
            lemma_cat_children(s, w.subrange(k, w.len() as int));
            assert(in_cat_pair(cat_children(r), cat_children(s), w));
        }
        if in_cat_pair(cat_children(r), cat_children(s), w) {
            let k = choose|k: int|
                0 <= k <= w.len() && #[trigger] in_cat(cat_children(r), w.subrange(0, k)) && in_cat(cat_children(s), w.subrange(k, w.len() as int));
            lemma_cat_children(r, w.subrange(0, k));
            lemma_cat_children(s, w.subrange(k, w.len() as int));
        }
    }
}


proof fn lemma_push_contains(s: Seq<Term>, y: Term)
    ensures
        forall|x: Term| #[trigger] s.push(y).contains(x) <==> (s.contains(x) || x == y),
{
    assert forall|x: Term| #[trigger] s.push(y).contains(x) <==> (s.contains(x) || x == y) by {
        if s.contains(x) {
            let i = choose|i: int| 0 <= i < s.len() && s[i] == x;
            assert(s.push(y)[i] == x);
        }
        if x == y {
            assert(s.push(y)[s.len() as int] == x);
        }
        if s.push(y).contains(x) {
            let i = choose|i: int| 0 <= i < s.push(y).len() && s.push(y)[i] == x;
            if i < s.len() {
                assert(s[i] == x);
            }
        }
    }
}

proof fn lemma_last_contains(s: Seq<Term>)
    requires
        s.len() > 0,
    ensures
        forall|x: Term| #[trigger] s.contains(x) <==> (s.drop_last().contains(x) || x == s.last()),
{
    lemma_push_contains(s.drop_last(), s.last());
    assert(s.drop_last().push(s.last()) =~= s);
}

proof fn lemma_cons_contains(h: Term, s: Seq<Term>)
    ensures
        forall|x: Term| #[trigger] (seq![h] + s).contains(x) <==> (x == h || s.contains(x)),
{
    let c = seq![h] + s;
    assert forall|x: Term| #[trigger] c.contains(x) <==> (x == h || s.contains(x)) by {
        if x == h {
            assert(c[0] == x);
        }
        if s.contains(x) {
            let i = choose|i: int| 0 <= i < s.len() && s[i] == x;
            assert(c[i + 1] == x);
        }
        if c.contains(x) {
            let i = choose|i: int| 0 <= i < c.len() && c[i] == x;
            if i > 0 {
                assert(s[i - 1] == x);
            }
        }
    }
}

proof fn lemma_first_contains(s: Seq<Term>)
    requires
        s.len() > 0,
    ensures
        forall|x: Term| #[trigger] s.contains(x) <==> (x == s[0] || s.drop_first().contains(x)),
{
    lemma_cons_contains(s[0], s.drop_first());
    assert(seq![s[0]] + s.drop_first() =~= s);
}

/// A merge holds the members of both inputs.
pub proof fn lemma_merge_members(a: Seq<Term>, b: Seq<Term>)
    ensures
        merge(a, b).len() == a.len() + b.len(),
        forall|x: Term| #[trigger] merge(a, b).contains(x) <==> (a.contains(x) || b.contains(x)),
    decreases a.len() + b.len(),
{
    if a.len() == 0 || b.len() == 0 {
    } else if term_le(a[0], b[0]) {
        lemma_merge_members(a.drop_first(), b);
        lemma_cons_contains(a[0], merge(a.drop_first(), b));
        lemma_first_contains(a);
    } else {
        lemma_merge_members(a, b.drop_first());
        lemma_cons_contains(b[0], merge(a, b.drop_first()));
        lemma_first_contains(b);
    }
}

/// `others` keeps the members that are not classes.
pub proof fn lemma_others_members(cs: Seq<Term>)
    ensures
        forall|x: Term| #[trigger] others(cs).contains(x) <==> (cs.contains(x) && !(x is Class)),
    decreases cs.len(),
{
    if cs.len() > 0 {
        lemma_others_members(cs.drop_last());
        lemma_last_contains(cs);
        assert(others(cs) == if cs.last() is Class {
            others(cs.drop_last())
        } else {
            others(cs.drop_last()).push(cs.last())
        });
        if !(cs.last() is Class) {
            lemma_push_contains(others(cs.drop_last()), cs.last());
        }
    }
}

/// `dedup` keeps the members, and is empty only where its input is.
pub proof fn lemma_dedup_members(cs: Seq<Term>)
    ensures
        forall|x: Term| #[trigger] dedup(cs).contains(x) <==> cs.contains(x),
        (dedup(cs).len() == 0) == (cs.len() == 0),
    decreases cs.len(),
{
    if cs.len() > 0 {
        let d = dedup(cs.drop_last());
        lemma_dedup_members(cs.drop_last());
        lemma_last_contains(cs);
        if d.len() > 0 && d.last() == cs.last() {
            lemma_last_contains(d);
        } else {
            lemma_push_contains(d, cs.last());
        }
    }
}

/// What the folded class of `cs` holds: by union, the bytes of some class member; by
/// intersection, the bytes of every class member. It is `None` exactly when `cs`
/// has no class.
pub proof fn lemma_fold_classes(cs: Seq<Term>, union: bool)
    ensures
        fold_classes(cs, union) is None <==> forall|x: Term| #[trigger] cs.contains(x) ==> !(x is Class),
        fold_classes(cs, union) matches Some(u) ==> forall|b: u8| #[trigger] u.contains(b) <==> if union {
            exists|x: Term| #[trigger] cs.contains(x) && x is Class && x->Class_0.contains(b)
        } else {
            forall|x: Term| #[trigger] cs.contains(x) && x is Class ==> x->Class_0.contains(b)
        },
    decreases cs.len(),
{
    if cs.len() > 0 {
        lemma_fold_classes(cs.drop_last(), union);
        lemma_last_contains(cs);
        let f = fold_classes(cs.drop_last(), union);
        if let Term::Class(s) = cs.last() {
            let u = fold_classes(cs, union)->Some_0;
            assert forall|b: u8| #[trigger] u.contains(b) <==> if union {
                exists|x: Term| #[trigger] cs.contains(x) && x is Class && x->Class_0.contains(b)
            } else {
                forall|x: Term| #[trigger] cs.contains(x) && x is Class ==> x->Class_0.contains(b)
            } by {
                if union {
                    if u.contains(b) {
                        if s.contains(b) {
                            assert(cs.contains(cs.last()));
                        } else {
                            let v = f->Some_0;
                            let x = choose|x: Term| #[trigger] cs.drop_last().contains(x) && x is Class && x->Class_0.contains(b);
                            assert(cs.contains(x));
                        }
                    }
                    if exists|x: Term| #[trigger] cs.contains(x) && x is Class && x->Class_0.contains(b) {
                        let x = choose|x: Term| #[trigger] cs.contains(x) && x is Class && x->Class_0.contains(b);
                        if x != cs.last() {
                            assert(cs.drop_last().contains(x));
                        }
                    }
                } else {
                    if u.contains(b) {
                        assert forall|x: Term| #[trigger] cs.contains(x) && x is Class implies x->Class_0.contains(b) by {
                            if x != cs.last() {
                                assert(cs.drop_last().contains(x));
                            }
                        }
                    }
                    if forall|x: Term| #[trigger] cs.contains(x) && x is Class ==> x->Class_0.contains(b) {
                        assert(cs.contains(cs.last()));
                        if f is Some {
                            assert forall|x: Term| #[trigger] cs.drop_last().contains(x) && x is Class implies x->Class_0.contains(b) by {
                                assert(cs.contains(x));
                            }
                        }
                    }
                }
            }
            assert(cs.contains(cs.last()));
        } else {
            assert(fold_classes(cs, union) == f);
            if fold_classes(cs, union) is None {
                assert forall|x: Term| #[trigger] cs.contains(x) implies !(x is Class) by {
                    if x != cs.last() {
                        assert(cs.drop_last().contains(x));
                    }
                }
            } else {
                let x = choose|x: Term| #[trigger] cs.drop_last().contains(x) && x is Class;
                assert(cs.contains(x));
            }
            if fold_classes(cs, union) is Some {
                let u = fold_classes(cs, union)->Some_0;
                assert forall|b: u8| #[trigger] u.contains(b) <==> if union {
                    exists|x: Term| #[trigger] cs.contains(x) && x is Class && x->Class_0.contains(b)
                } else {
                    forall|x: Term| #[trigger] cs.contains(x) && x is Class ==> x->Class_0.contains(b)
                } by {
                    if union {
                        if exists|x: Term| #[trigger] cs.contains(x) && x is Class && x->Class_0.contains(b) {
                            let x = choose|x: Term| #[trigger] cs.contains(x) && x is Class && x->Class_0.contains(b);
                            assert(cs.drop_last().contains(x));
                        }
                        if u.contains(b) {
                            let x = choose|x: Term| #[trigger] cs.drop_last().contains(x) && x is Class && x->Class_0.contains(b);
                            assert(cs.contains(x));
                        }
                    } else {
                        if u.contains(b) {
                            assert forall|x: Term| #[trigger] cs.contains(x) && x is Class implies x->Class_0.contains(b) by {
                                assert(cs.drop_last().contains(x));
                            }
                        }
                        if forall|x: Term| #[trigger] cs.contains(x) && x is Class ==> x->Class_0.contains(b) {
                            assert forall|x: Term| #[trigger] cs.drop_last().contains(x) && x is Class implies x->Class_0.contains(b) by {
                                assert(cs.contains(x));
                            }
                        }
                    }
                }
            }
        }
    }
}


proof fn lemma_any_members(cs: Seq<Term>, w: Seq<u8>)
    ensures
        in_any(cs, w) == exists|x: Term| #[trigger] cs.contains(x) && in_lang(x, w),
{
    lemma_in_any(cs, w);
    if in_any(cs, w) {
        let i = choose|i: int| 0 <= i < cs.len() && #[trigger] in_lang(cs[i], w);
        assert(cs.contains(cs[i]));
    }
    if exists|x: Term| #[trigger] cs.contains(x) && in_lang(x, w) {
        let x = choose|x: Term| #[trigger] cs.contains(x) && in_lang(x, w);
        let i = choose|i: int| 0 <= i < cs.len() && cs[i] == x;
        assert(in_lang(cs[i], w));
    }
}

proof fn lemma_all_members(cs: Seq<Term>, w: Seq<u8>)
    ensures
        in_all(cs, w) == forall|x: Term| #[trigger] cs.contains(x) ==> in_lang(x, w),
{
    lemma_in_all(cs, w);
    if in_all(cs, w) {
        assert forall|x: Term| #[trigger] cs.contains(x) implies in_lang(x, w) by {
            let i = choose|i: int| 0 <= i < cs.len() && cs[i] == x;
            assert(in_lang(cs[i], w));
        }
    }
    if forall|x: Term| #[trigger] cs.contains(x) ==> in_lang(x, w) {
        assert forall|i: int| 0 <= i < cs.len() implies #[trigger] in_lang(cs[i], w) by {
            assert(cs.contains(cs[i]));
        }
    }
}

proof fn lemma_collect(cs: Seq<Term>, w: Seq<u8>)
    ensures
        in_lang(collect(cs, true), w) == in_any(cs, w),
        cs.len() > 0 ==> in_lang(collect(cs, false), w) == in_all(cs, w),
{
    lemma_any_members(cs, w);
    lemma_all_members(cs, w);
    if cs.len() == 1 {
        assert(cs.contains(cs[0]));
        assert forall|x: Term| #[trigger] cs.contains(x) implies x == cs[0] by {}
    } else if cs.len() > 1 {
        assert(in_lang(Term::Or(cs), w) == in_any(cs, w));
        assert(in_lang(Term::And(cs), w) == in_all(cs, w));
    }
}

proof fn lemma_children(t: Term, w: Seq<u8>)
    ensures
        in_any(or_children(t), w) == in_lang(t, w),
        in_all(and_children(t), w) == in_lang(t, w),
{
    lemma_collect(seq![t], w);
    match t {
        Term::Or(cs) => {
            assert(in_lang(t, w) == in_any(cs, w));
            lemma_collect(seq![t], w);
            assert(in_all(seq![t], w) == (in_lang(t, w) && in_all(seq![t].drop_first(), w)));
            assert(seq![t].drop_first() =~= Seq::<Term>::empty());
        },
        Term::And(cs) => {
            assert(in_lang(t, w) == in_all(cs, w));
            assert(in_any(seq![t], w) == (in_lang(t, w) || in_any(seq![t].drop_first(), w)));
            assert(seq![t].drop_first() =~= Seq::<Term>::empty());
        },
        _ => {
            assert(in_any(seq![t], w) == (in_lang(t, w) || in_any(seq![t].drop_first(), w)));
            assert(in_all(seq![t], w) == (in_lang(t, w) && in_all(seq![t].drop_first(), w)));
            assert(seq![t].drop_first() =~= Seq::<Term>::empty());
        },
    }
}

/// Folding the classes of a union or an intersection keeps its language.
proof fn lemma_merged_sets(cs: Seq<Term>, w: Seq<u8>)
    ensures
        in_any(merged_sets(cs, true), w) == in_any(cs, w),
        in_all(merged_sets(cs, false), w) == in_all(cs, w),
        cs.len() > 0 ==> merged_sets(cs, true).len() > 0 && merged_sets(cs, false).len() > 0,
        fold_classes(cs, false) == Some(Set::<u8>::empty()) ==> !in_all(cs, w),
{
    lemma_others_members(cs);
    lemma_fold_classes(cs, true);
    lemma_fold_classes(cs, false);
    lemma_any_members(cs, w);
    lemma_all_members(cs, w);
    let o = others(cs);
    if cs.len() > 0 {
        assert(cs.contains(cs[0]));
    }
    let mu = merged_sets(cs, true);
    let mi = merged_sets(cs, false);
    lemma_any_members(mu, w);
    lemma_all_members(mi, w);
    match fold_classes(cs, true) {
        None => {
            assert(mu == o);
            assert(fold_classes(cs, false) is None);
            assert(mi == o);
            assert forall|x: Term| #[trigger] o.contains(x) <==> cs.contains(x) by {}
            if in_any(cs, w) {
                let x = choose|x: Term| #[trigger] cs.contains(x) && in_lang(x, w);
                assert(o.contains(x));
            }
            if in_any(mu, w) {
                let x = choose|x: Term| #[trigger] mu.contains(x) && in_lang(x, w);
                assert(cs.contains(x));
            }
            if in_all(cs, w) {
                assert forall|x: Term| #[trigger] mi.contains(x) implies in_lang(x, w) by {
                    assert(cs.contains(x));
                }
            }
            if in_all(mi, w) {
                assert forall|x: Term| #[trigger] cs.contains(x) implies in_lang(x, w) by {
                    assert(mi.contains(x));
                }
            }
        },
        Some(u) => {
            let cu = Term::Class(u);
            assert(mu == merge(o, seq![cu]));
            lemma_merge_members(o, seq![cu]);
            assert(seq![cu].contains(cu));
            assert forall|x: Term| #[trigger] mu.contains(x) <==> (o.contains(x) || x == cu) by {
                if seq![cu].contains(x) {
                    let i = choose|i: int| 0 <= i < 1 && seq![cu][i] == x;
                }
            }
            if in_any(cs, w) {
                let x = choose|x: Term| #[trigger] cs.contains(x) && in_lang(x, w);
                if x is Class {
                    assert(u.contains(w[0]));
                    assert(in_lang(cu, w));
                    assert(mu.contains(cu));
                } else {
                    assert(mu.contains(x));
                }
            }
            if in_any(mu, w) {
                let x = choose|x: Term| #[trigger] mu.contains(x) && in_lang(x, w);
                if x == cu {
                    let y = choose|y: Term| #[trigger] cs.contains(y) && y is Class && y->Class_0.contains(w[0]);
                    assert(in_lang(y, w));
                } else {
                    assert(cs.contains(x));
                }
            }
            let ui = fold_classes(cs, false)->Some_0;
            let ci = Term::Class(ui);
            assert(mi == merge(o, seq![ci]));
            lemma_merge_members(o, seq![ci]);
            assert(seq![ci].contains(ci));
            assert forall|x: Term| #[trigger] mi.contains(x) <==> (o.contains(x) || x == ci) by {
                if seq![ci].contains(x) {
                    let i = choose|i: int| 0 <= i < 1 && seq![ci][i] == x;
                }
            }
            let y0 = choose|y: Term| #[trigger] cs.contains(y) && y is Class;
            if in_all(cs, w) {
                assert(in_lang(y0, w));
                assert forall|x: Term| #[trigger] mi.contains(x) implies in_lang(x, w) by {
                    if x == ci {
                        assert forall|y: Term| #[trigger] cs.contains(y) && y is Class implies y->Class_0.contains(w[0]) by {
                            assert(in_lang(y, w));
                        }
                        assert(ui.contains(w[0]));
                    } else {
                        assert(cs.contains(x));
                    }
                }
            }
            if in_all(mi, w) {
                assert(mi.contains(ci));
                assert(in_lang(ci, w));
                assert forall|x: Term| #[trigger] cs.contains(x) implies in_lang(x, w) by {
                    if !(x is Class) {
                        assert(mi.contains(x));
                    }
                }
            }
            if ui == Set::<u8>::empty() {
                if in_all(cs, w) {
                    assert(in_lang(y0, w));
                    assert forall|y: Term| #[trigger] cs.contains(y) && y is Class implies y->Class_0.contains(w[0]) by {
                        assert(in_lang(y, w));
                    }
                    assert(ui.contains(w[0]));
                }
            }
        },
    }
}

/// The canonical union denotes the union of the languages.
pub proof fn lemma_or(r: Term, s: Term, w: Seq<u8>)
    ensures
        in_lang(or_of(r, s), w) == (in_lang(r, w) || in_lang(s, w)),
{
    if s is Void || r is Void {
    } else if r is Class && s is Class {
        let u = r->Class_0.union(s->Class_0);
        if w.len() == 1 {
            assert(u.contains(w[0]) == (r->Class_0.contains(w[0]) || s->Class_0.contains(w[0])));
            if u == Set::<u8>::empty() {
                assert(!u.contains(w[0]));
            }
        }
    } else {
        let a = or_children(r);
        let b = or_children(s);
        let m = merge(a, b);
        let ms = merged_sets(m, true);
        let d = dedup(ms);
        assert(or_of(r, s) == collect(d, true));
        lemma_collect(d, w);
        lemma_dedup_members(ms);
        lemma_any_members(d, w);
        lemma_any_members(ms, w);
        lemma_merged_sets(m, w);
        lemma_merge_members(a, b);
        lemma_any_members(m, w);
        lemma_any_members(a, w);
        lemma_any_members(b, w);
        lemma_children(r, w);
        lemma_children(s, w);
        if in_any(m, w) {
            let x = choose|x: Term| #[trigger] m.contains(x) && in_lang(x, w);
            if a.contains(x) {
                assert(in_any(a, w));
            } else {
                assert(in_any(b, w));
            }
        }
        if in_any(a, w) {
            let x = choose|x: Term| #[trigger] a.contains(x) && in_lang(x, w);
            assert(m.contains(x));
        }
        if in_any(b, w) {
            let x = choose|x: Term| #[trigger] b.contains(x) && in_lang(x, w);
            assert(m.contains(x));
        }
        if in_any(ms, w) {
            let x = choose|x: Term| #[trigger] ms.contains(x) && in_lang(x, w);
            assert(d.contains(x));
        }
    }
}

/// The canonical intersection denotes the intersection of the languages, where one
/// of the two is not an intersection without children.
pub proof fn lemma_and(r: Term, s: Term, w: Seq<u8>)
    requires
        and_children(r).len() + and_children(s).len() > 0,
    ensures
        in_lang(and_of(r, s), w) == (in_lang(r, w) && in_lang(s, w)),
{
    if s is Void || r is Void {
    } else if s is Epsilon {
        lemma_nullable(r);
        if w.len() == 0 {
            assert(w =~= Seq::<u8>::empty());
        }
    } else if r is Epsilon {
        lemma_nullable(s);
        if w.len() == 0 {
            assert(w =~= Seq::<u8>::empty());
        }
    } else if r is Class && s is Class {
        let u = r->Class_0.intersect(s->Class_0);
        if w.len() == 1 {
            assert(u.contains(w[0]) == (r->Class_0.contains(w[0]) && s->Class_0.contains(w[0])));
            if u == Set::<u8>::empty() {
                assert(!u.contains(w[0]));
            }
        }
    } else {
        let a = and_children(r);
        let b = and_children(s);
        let m = merge(a, b);
        let ms = merged_sets(m, false);
        let d = dedup(ms);
        if fold_classes(m, false) == Some(Set::<u8>::empty()) {
            assert(and_of(r, s) == Term::Void);
        } else {
            assert(and_of(r, s) == collect(d, false));
        }
        lemma_merge_members(a, b);
        lemma_merged_sets(m, w);
        lemma_dedup_members(ms);
        lemma_collect(d, w);
        lemma_all_members(d, w);
        lemma_all_members(ms, w);
        lemma_all_members(m, w);
        lemma_all_members(a, w);
        lemma_all_members(b, w);
        lemma_children(r, w);
        lemma_children(s, w);
        if in_all(m, w) {
            assert forall|x: Term| #[trigger] a.contains(x) implies in_lang(x, w) by {
                assert(m.contains(x));
            }
            assert forall|x: Term| #[trigger] b.contains(x) implies in_lang(x, w) by {
                assert(m.contains(x));
            }
        }
        if in_all(a, w) && in_all(b, w) {
            assert forall|x: Term| #[trigger] m.contains(x) implies in_lang(x, w) by {
                if a.contains(x) {
                } else {
                }
            }
        }
        if in_all(d, w) {
            assert forall|x: Term| #[trigger] ms.contains(x) implies in_lang(x, w) by {
                assert(d.contains(x));
            }
        }
        if in_all(ms, w) {
            assert forall|x: Term| #[trigger] d.contains(x) implies in_lang(x, w) by {
                assert(ms.contains(x));
            }
        }
    }
}


proof fn lemma_all_plain(cs: Seq<Term>)
    ensures
        all_plain(cs) == forall|x: Term| #[trigger] cs.contains(x) ==> plain(x),
{
    if all_plain(cs) {
        assert forall|x: Term| #[trigger] cs.contains(x) implies plain(x) by {
            let i = choose|i: int| 0 <= i < cs.len() && cs[i] == x;
        }
    }
    if forall|x: Term| #[trigger] cs.contains(x) ==> plain(x) {
        assert forall|i: int| 0 <= i < cs.len() implies plain(#[trigger] cs[i]) by {
            assert(cs.contains(cs[i]));
        }
    }
}

proof fn lemma_plain_children(t: Term)
    requires
        plain(t),
    ensures
        all_plain(cat_children(t)) && cat_children(t).len() > 0,
        all_plain(or_children(t)) && or_children(t).len() > 0,
        all_plain(and_children(t)) && and_children(t).len() > 0,
{
    assert(seq![t][0] == t);
    assert(all_plain(seq![t]));
}

proof fn lemma_plain_collect(d: Seq<Term>, is_or: bool)
    requires
        all_plain(d),
    ensures
        plain(collect(d, is_or)),
{
    if d.len() == 1 {
        assert(plain(d[0]));
    }
}

/// The canonical concatenation of plain terms is plain.
proof fn lemma_plain_then(r: Term, s: Term)
    requires
        plain(r),
        plain(s),
    ensures
        plain(then_of(r, s)),
{
    if !(s is Epsilon || r is Epsilon || s is Void || r is Void) {
        lemma_plain_children(r);
        lemma_plain_children(s);
        let c = cat_children(r) + cat_children(s);
        assert forall|i: int| 0 <= i < c.len() implies plain(#[trigger] c[i]) by {
            if i < cat_children(r).len() {
                assert(c[i] == cat_children(r)[i]);
            } else {
                assert(c[i] == cat_children(s)[i - cat_children(r).len()]);
            }
        }
        assert(all_plain(c));
        assert(then_of(r, s) == Term::Cat(c));
        assert(plain(Term::Cat(c)) == (c.len() > 0 && all_plain(c)));
    }
}

proof fn lemma_plain_merged(a: Seq<Term>, b: Seq<Term>, union: bool)
    requires
        all_plain(a),
        all_plain(b),
    ensures
        all_plain(dedup(merged_sets(merge(a, b), union))),
{
    let m = merge(a, b);
    let ms = merged_sets(m, union);
    let d = dedup(ms);
    lemma_merge_members(a, b);
    lemma_all_plain(a);
    lemma_all_plain(b);
    lemma_all_plain(m);
    lemma_others_members(m);
    lemma_dedup_members(ms);
    lemma_all_plain(d);
    let o = others(m);
    assert forall|x: Term| #[trigger] o.contains(x) implies plain(x) by {
        assert(m.contains(x));
    }
    match fold_classes(m, union) {
        None => {
            assert(ms == o);
        },
        Some(u) => {
            let cu = Term::Class(u);
            assert(ms == merge(o, seq![cu]));
            lemma_merge_members(o, seq![cu]);
            assert forall|x: Term| #[trigger] ms.contains(x) implies plain(x) by {
                if !o.contains(x) {
                    let i = choose|i: int| 0 <= i < 1 && seq![cu][i] == x;
                }
            }
        },
    }
    assert forall|x: Term| #[trigger] d.contains(x) implies plain(x) by {
        assert(ms.contains(x));
    }
}

/// The canonical union and intersection of plain terms are plain.
proof fn lemma_plain_or_and(r: Term, s: Term)
    requires
        plain(r),
        plain(s),
    ensures
        plain(or_of(r, s)),
        plain(and_of(r, s)),
{
    lemma_plain_children(r);
    lemma_plain_children(s);
    lemma_plain_merged(or_children(r), or_children(s), true);
    lemma_plain_merged(and_children(r), and_children(s), false);
    lemma_plain_collect(dedup(merged_sets(merge(or_children(r), or_children(s)), true)), true);
    lemma_plain_collect(dedup(merged_sets(merge(and_children(r), and_children(s)), false)), false);
}

proof fn lemma_cat_of(cs: Seq<Term>, w: Seq<u8>)
    requires
        cs.len() > 0,
        all_plain(cs),
    ensures
        in_lang(cat_of(cs), w) == in_cat(cs, w),
        plain(cat_of(cs)),
{
    if cs.len() == 1 {
        assert(cs =~= seq![cs[0]]);
        lemma_in_cat_one(cs[0], w);
    }
}

/// The derivative by `a` holds exactly the words that `a` followed by them makes a
/// word of `t`, and is plain again.
pub proof fn lemma_deriv(t: Term, a: u8, w: Seq<u8>)
    requires
        plain(t),
    ensures
        in_lang(deriv(t, a), w) == in_lang(t, seq![a] + w),
        plain(deriv(t, a)),
    decreases t, 0nat,
{
    let aw = seq![a] + w;
    assert(aw[0] == a);
    match t {
        Term::Class(s) => {},
        Term::Cat(cs) => {
            lemma_deriv_cat(cs, a, w);
            assert(in_lang(t, aw) == in_cat(cs, aw));
        },
        Term::Star(c) => {
            let dc = deriv(*c, a);
            lemma_then(dc, t, w);
            lemma_in_star(*c, aw);
            assert(t == Term::Star(Box::new(*c)));
            lemma_deriv(*c, a, Seq::empty());
            lemma_plain_then(dc, t);
            if in_concat(dc, t, w) {
                let k = choose|k: int| 0 <= k <= w.len() && #[trigger] in_lang(dc, w.subrange(0, k)) && in_lang(t, w.subrange(k, w.len() as int));
                lemma_deriv(*c, a, w.subrange(0, k));
                assert(seq![a] + w.subrange(0, k) =~= aw.subrange(0, k + 1));
                assert(aw.subrange(k + 1, aw.len() as int) =~= w.subrange(k, w.len() as int));
                assert(in_lang(*c, aw.subrange(0, k + 1)));
                assert(star_exists(*c, t, aw));
            }
            if star_exists(*c, t, aw) {
                let j = choose|j: int| 1 <= j <= aw.len() && #[trigger] in_lang(*c, aw.subrange(0, j)) && in_lang(t, aw.subrange(j, aw.len() as int));
                let k = j - 1;
                lemma_deriv(*c, a, w.subrange(0, k));
                assert(seq![a] + w.subrange(0, k) =~= aw.subrange(0, j));
                assert(aw.subrange(j, aw.len() as int) =~= w.subrange(k, w.len() as int));
                assert(in_lang(dc, w.subrange(0, k)));
                assert(in_concat(dc, t, w));
            }
        },
        Term::Or(cs) => {
            lemma_deriv_or(cs, a, w);
            assert(in_lang(t, aw) == in_any(cs, aw));
        },
        Term::And(cs) => {
            lemma_deriv_and(cs, a, w);
            assert(in_lang(t, aw) == in_all(cs, aw));
        },
        _ => {},
    }
}

proof fn lemma_deriv_cat(cs: Seq<Term>, a: u8, w: Seq<u8>)
    requires
        cs.len() > 0,
        all_plain(cs),
    ensures
        in_lang(deriv_cat(cs, a), w) == in_cat(cs, seq![a] + w),
        plain(deriv_cat(cs, a)),
    decreases cs, 1nat,
{
    let aw = seq![a] + w;
    let c0 = cs[0];
    assert(plain(c0));
    lemma_deriv(c0, a, w);
    lemma_in_cat(cs, aw);
    if cs.len() == 1 {
        assert(cs =~= seq![c0]);
        lemma_in_cat_one(c0, aw);
    } else {
        let rest = cs.drop_first();
        assert forall|i: int| 0 <= i < rest.len() implies plain(#[trigger] rest[i]) by {
            assert(rest[i] == cs[i + 1]);
        }
        let d0 = deriv(c0, a);
        let x = then_of(d0, cat_of(rest));
        let n = if nullable(c0) { deriv_cat(rest, a) } else { Term::Void };
        lemma_deriv_cat(rest, a, w);
        lemma_cat_of(rest, w);
        lemma_plain_then(d0, cat_of(rest));
        lemma_plain_or_and(x, n);
        lemma_or(x, n, w);
        lemma_then(d0, cat_of(rest), w);
        lemma_nullable(c0);
        assert(aw.subrange(0, 0) =~= Seq::<u8>::empty());
        assert(aw.subrange(0, aw.len() as int) =~= aw);
        if in_lang(deriv_cat(cs, a), w) {
            if in_lang(x, w) {
                let k = choose|k: int| 0 <= k <= w.len() && #[trigger] in_lang(d0, w.subrange(0, k)) && in_lang(cat_of(rest), w.subrange(k, w.len() as int));
                lemma_deriv(c0, a, w.subrange(0, k));
                lemma_cat_of(rest, w.subrange(k, w.len() as int));
                assert(seq![a] + w.subrange(0, k) =~= aw.subrange(0, k + 1));
                assert(aw.subrange(k + 1, aw.len() as int) =~= w.subrange(k, w.len() as int));
                assert(in_lang(cs[0], aw.subrange(0, k + 1)));
            } else {
                assert(in_lang(cs[0], aw.subrange(0, 0)));
                assert(in_cat(rest, aw.subrange(0, aw.len() as int)));
            }
            assert(cat_exists(cs, aw));
        }
        if cat_exists(cs, aw) {
            let j = choose|j: int| 0 <= j <= aw.len() && #[trigger] in_lang(cs[0], aw.subrange(0, j)) && in_cat(cs.drop_first(), aw.subrange(j, aw.len() as int));
            if j == 0 {
                assert(in_lang(n, w));
            } else {
                let k = j - 1;
                lemma_deriv(c0, a, w.subrange(0, k));
                lemma_cat_of(rest, w.subrange(k, w.len() as int));
                assert(seq![a] + w.subrange(0, k) =~= aw.subrange(0, j));
                assert(aw.subrange(j, aw.len() as int) =~= w.subrange(k, w.len() as int));
                assert(in_concat(d0, cat_of(rest), w));
            }
        }
    }
}

proof fn lemma_deriv_or(cs: Seq<Term>, a: u8, w: Seq<u8>)
    requires
        cs.len() > 0,
        all_plain(cs),
    ensures
        in_lang(deriv_or(cs, a), w) == in_any(cs, seq![a] + w),
        plain(deriv_or(cs, a)),
    decreases cs, 1nat,
{
    let aw = seq![a] + w;
    assert(plain(cs[0]));
    lemma_deriv(cs[0], a, w);
    assert(in_any(cs, aw) == (in_lang(cs[0], aw) || in_any(cs.drop_first(), aw)));
    if cs.len() == 1 {
        assert(!in_any(cs.drop_first(), aw));
    } else {
        let rest = cs.drop_first();
        assert forall|i: int| 0 <= i < rest.len() implies plain(#[trigger] rest[i]) by {
            assert(rest[i] == cs[i + 1]);
        }
        lemma_deriv_or(rest, a, w);
        lemma_or(deriv(cs[0], a), deriv_or(rest, a), w);
        lemma_plain_or_and(deriv(cs[0], a), deriv_or(rest, a));
    }
}

proof fn lemma_deriv_and(cs: Seq<Term>, a: u8, w: Seq<u8>)
    requires
        cs.len() > 0,
        all_plain(cs),
    ensures
        in_lang(deriv_and(cs, a), w) == in_all(cs, seq![a] + w),
        plain(deriv_and(cs, a)),
    decreases cs, 1nat,
{
    let aw = seq![a] + w;
    assert(plain(cs[0]));
    lemma_deriv(cs[0], a, w);
    assert(in_all(cs, aw) == (in_lang(cs[0], aw) && in_all(cs.drop_first(), aw)));
    if cs.len() == 1 {
        assert(in_all(cs.drop_first(), aw));
    } else {
        let rest = cs.drop_first();
        assert forall|i: int| 0 <= i < rest.len() implies plain(#[trigger] rest[i]) by {
            assert(rest[i] == cs[i + 1]);
        }
        lemma_deriv_and(rest, a, w);
        lemma_plain_children(deriv(cs[0], a));
        lemma_and(deriv(cs[0], a), deriv_and(rest, a), w);
        lemma_plain_or_and(deriv(cs[0], a), deriv_and(rest, a));
    }
}

/// Derivatives decide membership: for a term without negation whose n-ary nodes all
/// have children, `w` is in its language exactly when the derivative by the bytes of
/// `w` is nullable.
pub proof fn lemma_derivatives_sound(t: Term, w: Seq<u8>)
    requires
        plain(t),
    ensures
        in_lang(t, w) == nullable(deriv_seq(t, w)),
    decreases w.len(),
{
    if w.len() == 0 {
        lemma_nullable(t);
        assert(w =~= Seq::<u8>::empty());
    } else {
        lemma_deriv(t, w[0], w.drop_first());
        assert(seq![w[0]] + w.drop_first() =~= w);
        lemma_derivatives_sound(deriv(t, w[0]), w.drop_first());
    }
}

} // verus!
