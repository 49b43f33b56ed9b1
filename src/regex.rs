use itertools::Itertools;
use std::rc::Rc;
use vstd::prelude::*;
use vstd::string::StringSliceAdditionalSpecFns;

use crate::byte_set::{lemma_set_words_injective, lemma_words_cmp_equal, set_words, words_cmp, ByteSet};

verus! {

/// The mathematical value of an expression: the tree that a `RegEx` denotes,
/// with sets of bytes in place of bitmaps.
pub enum Term {
    Void,
    Epsilon,
    Class(Set<u8>),
    Cat(Seq<Term>),
    Star(Box<Term>),
    Or(Seq<Term>),
    And(Seq<Term>),
    Not(Box<Term>),
}

/// The rank of a variant in the total order.
pub open spec fn tag(t: Term) -> int {
    match t {
        Term::Void => 0,
        Term::Epsilon => 1,
        Term::Class(_) => 2,
        Term::Cat(_) => 3,
        Term::Star(_) => 4,
        Term::Or(_) => 5,
        Term::And(_) => 6,
        Term::Not(_) => 7,
    }
}

/// The total order on terms: by variant first, then by the bitmap of a set, the
/// child of a unary node, or the children of an n-ary node, lexicographically.
pub open spec fn term_cmp(a: Term, b: Term) -> std::cmp::Ordering
    decreases a,
{
    if tag(a) < tag(b) {
        std::cmp::Ordering::Less
    } else if tag(a) > tag(b) {
        std::cmp::Ordering::Greater
    } else {
        match (a, b) {
            (Term::Class(x), Term::Class(y)) => words_cmp(set_words(x), set_words(y)),
            (Term::Cat(xs), Term::Cat(ys)) => terms_cmp(xs, ys),
            (Term::Or(xs), Term::Or(ys)) => terms_cmp(xs, ys),
            (Term::And(xs), Term::And(ys)) => terms_cmp(xs, ys),
            (Term::Star(x), Term::Star(y)) => term_cmp(*x, *y),
            (Term::Not(x), Term::Not(y)) => term_cmp(*x, *y),
            _ => std::cmp::Ordering::Equal,
        }
    }
}

/// Lexicographic extension of `term_cmp` to sequences; a proper prefix comes first.
pub open spec fn terms_cmp(xs: Seq<Term>, ys: Seq<Term>) -> std::cmp::Ordering
    decreases xs,
{
    if xs.len() == 0 {
        if ys.len() == 0 {
            std::cmp::Ordering::Equal
        } else {
            std::cmp::Ordering::Less
        }
    } else if ys.len() == 0 {
        std::cmp::Ordering::Greater
    } else {
        let c = term_cmp(xs[0], ys[0]);
        if c != std::cmp::Ordering::Equal {
            c
        } else {
            terms_cmp(xs.drop_first(), ys.drop_first())
        }
    }
}

/// `a` comes no later than `b`.
pub open spec fn term_le(a: Term, b: Term) -> bool {
    term_cmp(a, b) != std::cmp::Ordering::Greater
}

/// An expression: a shared, immutable handle to the root of its tree.
#[derive(Debug)]
pub struct RegEx {
    root: Rc<Operator>,
}

/// The outermost operator of an expression.
#[derive(Debug)]
pub enum Operator {
    Void,
    Epsilon,
    Class(ByteSet),
    Cat(Vec<RegEx>),
    Star(RegEx),
    Or(Vec<RegEx>),
    And(Vec<RegEx>),
    Not(RegEx),
}

impl RegEx {
    /// The term that the expression denotes.
    pub closed spec fn view(&self) -> Term
        decreases self,
    {
        match *self.root {
            Operator::Void => Term::Void,
            Operator::Epsilon => Term::Epsilon,
            Operator::Class(s) => Term::Class(s@),
            Operator::Cat(v) => Term::Cat(views(v@)),
            Operator::Star(c) => Term::Star(Box::new(c.view())),
            Operator::Or(v) => Term::Or(views(v@)),
            Operator::And(v) => Term::And(views(v@)),
            Operator::Not(c) => Term::Not(Box::new(c.view())),
        }
    }
}

/// The terms of a sequence of expressions.
pub open spec fn views(s: Seq<RegEx>) -> Seq<Term>
    decreases s,
{
    if s.len() == 0 {
        Seq::empty()
    } else {
        views(s.drop_last()).push(s.last().view())
    }
}

pub proof fn lemma_views(s: Seq<RegEx>)
    ensures
        views(s).len() == s.len(),
        forall|i: int| 0 <= i < s.len() ==> #[trigger] views(s)[i] == s[i].view(),
    decreases s.len(),
{
    if s.len() > 0 {
        lemma_views(s.drop_last());
    }
}

impl Clone for RegEx {
    fn clone(&self) -> (r: Self)
        ensures
            r == *self,
    {
        RegEx { root: Rc::clone(&self.root) }
    }
}


/// `term_cmp` is `Equal` exactly on equal terms.
pub proof fn lemma_cmp_equal(a: Term, b: Term)
    ensures
        (term_cmp(a, b) == std::cmp::Ordering::Equal) == (a == b),
    decreases a,
{
    if tag(a) == tag(b) {
        match (a, b) {
            (Term::Class(x), Term::Class(y)) => {
                lemma_words_cmp_equal(set_words(x), set_words(y));
                if set_words(x) == set_words(y) {
                    lemma_set_words_injective(x, y);
                }
            },
            (Term::Cat(xs), Term::Cat(ys)) => lemma_terms_cmp_equal(xs, ys),
            (Term::Or(xs), Term::Or(ys)) => lemma_terms_cmp_equal(xs, ys),
            (Term::And(xs), Term::And(ys)) => lemma_terms_cmp_equal(xs, ys),
            (Term::Star(x), Term::Star(y)) => lemma_cmp_equal(*x, *y),
            (Term::Not(x), Term::Not(y)) => lemma_cmp_equal(*x, *y),
            _ => {},
        }
    }
}

/// `terms_cmp` is `Equal` exactly on equal sequences.
pub proof fn lemma_terms_cmp_equal(xs: Seq<Term>, ys: Seq<Term>)
    ensures
        (terms_cmp(xs, ys) == std::cmp::Ordering::Equal) == (xs == ys),
    decreases xs,
{
    if xs.len() == 0 && ys.len() == 0 {
        assert(xs =~= ys);
    }
    if xs.len() > 0 && ys.len() > 0 {
        lemma_cmp_equal(xs[0], ys[0]);
        lemma_terms_cmp_equal(xs.drop_first(), ys.drop_first());
        if xs[0] == ys[0] && xs.drop_first() == ys.drop_first() {
            assert(xs =~= seq![xs[0]] + xs.drop_first());
            assert(ys =~= seq![ys[0]] + ys.drop_first());
        }
    }
}

pub proof fn lemma_views_add(s: Seq<RegEx>, t: Seq<RegEx>)
    ensures
        views(s + t) == views(s) + views(t),
{
    lemma_views(s);
    lemma_views(t);
    lemma_views(s + t);
    assert(views(s + t) =~= views(s) + views(t));
}

/// The class of a set: `Void` for the empty set.
pub open spec fn class_of(s: Set<u8>) -> Term {
    if s == Set::<u8>::empty() {
        Term::Void
    } else {
        Term::Class(s)
    }
}

/// The children that a term contributes to a concatenation.
pub open spec fn cat_children(t: Term) -> Seq<Term> {
    match t {
        Term::Cat(cs) => cs,
        _ => seq![t],
    }
}

/// The canonical concatenation of two terms.
pub open spec fn then_of(r: Term, s: Term) -> Term {
    if s is Epsilon {
        r
    } else if r is Epsilon {
        s
    } else if s is Void || r is Void {
        Term::Void
    } else {
        Term::Cat(cat_children(r) + cat_children(s))
    }
}

/// The canonical repetition of a term.
pub open spec fn star_of(r: Term) -> Term {
    match r {
        Term::Void => Term::Epsilon,
        Term::Epsilon => Term::Epsilon,
        Term::Star(_) => r,
        _ => Term::Star(Box::new(r)),
    }
}

/// The canonical negation of a term. On a class it takes the complement within
/// the single bytes, and on `Void` it gives the class of all bytes.
pub open spec fn not_of(r: Term) -> Term {
    match r {
        Term::Void => Term::Class(Set::<u8>::full()),
        Term::Class(s) => class_of(s.complement()),
        Term::Not(x) => *x,
        _ => Term::Not(Box::new(r)),
    }
}

impl RegEx {
    /// The root node.
    pub closed spec fn node(&self) -> Operator {
        *self.root
    }

    fn new(node: Operator) -> (r: RegEx)
        ensures
            r.node() == node,
    {
        RegEx { root: Rc::new(node) }
    }

    /// The outermost operator, for pattern matching.
    pub fn operator(&self) -> (r: &Operator)
        ensures
            *r == self.node(),
    {
        &*self.root
    }

    fn rank(&self) -> (r: u8)
        ensures
            r == tag(self@),
    {
        match self.operator() {
            Operator::Void => 0,
            Operator::Epsilon => 1,
            Operator::Class(_) => 2,
            Operator::Cat(_) => 3,
            Operator::Star(_) => 4,
            Operator::Or(_) => 5,
            Operator::And(_) => 6,
            Operator::Not(_) => 7,
        }
    }

    /// Compares two expressions in the total order on their terms.
    pub fn compare(&self, other: &Self) -> (r: std::cmp::Ordering)
        ensures
            r == term_cmp(self@, other@),
        decreases self,
    {
        let ta = self.rank();
        let tb = other.rank();
        if ta < tb {
            return std::cmp::Ordering::Less;
        }
        if ta > tb {
            return std::cmp::Ordering::Greater;
        }
        match self.operator() {
            Operator::Class(x) => match other.operator() {
                Operator::Class(y) => x.compare(y),
                _ => std::cmp::Ordering::Equal,
            },
            Operator::Cat(xs) => match other.operator() {
                Operator::Cat(ys) => compare_all(xs, ys),
                _ => std::cmp::Ordering::Equal,
            },
            Operator::Or(xs) => match other.operator() {
                Operator::Or(ys) => compare_all(xs, ys),
                _ => std::cmp::Ordering::Equal,
            },
            Operator::And(xs) => match other.operator() {
                Operator::And(ys) => compare_all(xs, ys),
                _ => std::cmp::Ordering::Equal,
            },
            Operator::Star(x) => match other.operator() {
                Operator::Star(y) => x.compare(y),
                _ => std::cmp::Ordering::Equal,
            },
            Operator::Not(x) => match other.operator() {
                Operator::Not(y) => x.compare(y),
                _ => std::cmp::Ordering::Equal,
            },
            _ => std::cmp::Ordering::Equal,
        }
    }

    /// Whether `self` comes no later than `other` in the total order.
    pub fn precedes(&self, other: &Self) -> (r: bool)
        ensures
            r == term_le(self@, other@),
    {
        match self.compare(other) {
            std::cmp::Ordering::Greater => false,
            _ => true,
        }
    }

    /// The expression that recognizes nothing.
    pub fn none() -> (r: Self)
        ensures
            r@ == Term::Void,
    {
        RegEx::new(Operator::Void)
    }

    /// The expression that recognizes the empty string alone.
    pub fn empty() -> (r: Self)
        ensures
            r@ == Term::Epsilon,
    {
        RegEx::new(Operator::Epsilon)
    }

    /// The expression that recognizes each one-byte string of `a`.
    pub fn set(a: ByteSet) -> (r: Self)
        ensures
            r@ == class_of(a@),
    {
        if a.is_empty() {
            RegEx::new(Operator::Void)
        } else {
            RegEx::new(Operator::Class(a))
        }
    }

    /// The repetition, zero or more times.
    pub fn star(&self) -> (r: Self)
        ensures
            r@ == star_of(self@),
    {
        match self.operator() {
            Operator::Void => RegEx::new(Operator::Epsilon),
            Operator::Epsilon => RegEx::new(Operator::Epsilon),
            Operator::Star(_) => self.clone(),
            _ => RegEx::new(Operator::Star(self.clone())),
        }
    }

    /// The negation.
    pub fn not(&self) -> (r: Self)
        ensures
            r@ == not_of(self@),
    {
        match self.operator() {
            Operator::Void => {
                assert(Set::<u8>::full().contains(0u8));
                RegEx::set(ByteSet::universe())
            },
            Operator::Class(s) => RegEx::set(s.complement()),
            Operator::Not(a) => a.clone(),
            _ => RegEx::new(Operator::Not(self.clone())),
        }
    }

    /// The children that `self` contributes to a concatenation.
    fn cat_children(&self) -> (r: Vec<RegEx>)
        ensures
            views(r@) == cat_children(self@),
    {
        match self.operator() {
            Operator::Cat(v) => {
                let r = v.clone();
                assert(r@ =~= v@);
                r
            },
            _ => {
                let r = vec![self.clone()];
                proof {
                    lemma_views(r@);
                    assert(views(r@) =~= seq![self@]);
                }
                r
            },
        }
    }

    /// The concatenation: `self`, then `other`.
    pub fn concat(&self, other: &Self) -> (r: Self)
        ensures
            r@ == then_of(self@, other@),
    {
        match other.operator() {
            Operator::Epsilon => return self.clone(),
            _ => {},
        }
        match self.operator() {
            Operator::Epsilon => return other.clone(),
            Operator::Void => return RegEx::new(Operator::Void),
            _ => {},
        }
        match other.operator() {
            Operator::Void => return RegEx::new(Operator::Void),
            _ => {},
        }
        let mut a = self.cat_children();
        let mut b = other.cat_children();
        let ghost a0 = a@;
        let ghost b0 = b@;
        a.append(&mut b);
        proof {
            lemma_views_add(a0, b0);
        }
        RegEx::new(Operator::Cat(a))
    }
}

fn compare_all(xs: &Vec<RegEx>, ys: &Vec<RegEx>) -> (r: std::cmp::Ordering)
    ensures
        r == terms_cmp(views(xs@), views(ys@)),
    decreases xs,
{
    proof {
        lemma_views(xs@);
        lemma_views(ys@);
        assert(views(xs@).subrange(0, xs.len() as int) =~= views(xs@));
        assert(views(ys@).subrange(0, ys.len() as int) =~= views(ys@));
    }
    let mut i: usize = 0;
    while i < xs.len() && i < ys.len()
        invariant
            i <= xs.len() && i <= ys.len(),
            views(xs@).len() == xs.len() && views(ys@).len() == ys.len(),
            forall|j: int| 0 <= j < xs.len() ==> #[trigger] views(xs@)[j] == xs@[j]@,
            forall|j: int| 0 <= j < ys.len() ==> #[trigger] views(ys@)[j] == ys@[j]@,
            terms_cmp(views(xs@), views(ys@)) == terms_cmp(
                views(xs@).subrange(i as int, xs.len() as int),
                views(ys@).subrange(i as int, ys.len() as int),
            ),
        decreases xs.len() - i,
    {
        let c = xs[i].compare(&ys[i]);
        proof {
            let sx = views(xs@).subrange(i as int, xs.len() as int);
            let sy = views(ys@).subrange(i as int, ys.len() as int);
            assert(sx.drop_first() =~= views(xs@).subrange(i + 1, xs.len() as int));
            assert(sy.drop_first() =~= views(ys@).subrange(i + 1, ys.len() as int));
            assert(sx[0] == xs@[i as int]@);
            assert(sy[0] == ys@[i as int]@);
        }
        match c {
            std::cmp::Ordering::Equal => {},
            _ => return c,
        }
        i = i + 1;
    }
    if xs.len() == ys.len() {
        std::cmp::Ordering::Equal
    } else if i == xs.len() {
        std::cmp::Ordering::Less
    } else {
        std::cmp::Ordering::Greater
    }
}

impl PartialEq for RegEx {
    fn eq(&self, other: &Self) -> (r: bool) {
        proof {
            lemma_cmp_equal(self@, other@);
        }
        match self.compare(other) {
            std::cmp::Ordering::Equal => true,
            _ => false,
        }
    }
}

impl vstd::std_specs::cmp::PartialEqSpecImpl for RegEx {
    open spec fn obeys_eq_spec() -> bool {
        true
    }

    open spec fn eq_spec(&self, other: &RegEx) -> bool {
        self@ == other@
    }
}


/// Whether the empty string is in the language of `t`.
pub open spec fn nullable(t: Term) -> bool
    decreases t,
{
    match t {
        Term::Void => false,
        Term::Epsilon => true,
        Term::Class(_) => false,
        Term::Cat(cs) => all_nullable_terms(cs),
        Term::Star(_) => true,
        Term::Or(cs) => any_nullable_terms(cs),
        Term::And(cs) => all_nullable_terms(cs),
        Term::Not(c) => !nullable(*c),
    }
}

/// Every term of `cs` is nullable.
pub open spec fn all_nullable_terms(cs: Seq<Term>) -> bool
    decreases cs,
{
    forall|i: int| 0 <= i < cs.len() ==> nullable(#[trigger] cs[i])
}

/// Some term of `cs` is nullable.
pub open spec fn any_nullable_terms(cs: Seq<Term>) -> bool
    decreases cs,
{
    exists|i: int| 0 <= i < cs.len() && nullable(#[trigger] cs[i])
}

/// The stable merge of two sequences: the head of `a` goes first unless the head
/// of `b` comes strictly before it.
pub open spec fn merge(a: Seq<Term>, b: Seq<Term>) -> Seq<Term>
    decreases a.len() + b.len(),
{
    if a.len() == 0 {
        b
    } else if b.len() == 0 {
        a
    } else if term_le(a[0], b[0]) {
        seq![a[0]] + merge(a.drop_first(), b)
    } else {
        seq![b[0]] + merge(a, b.drop_first())
    }
}

/// The terms of `cs` that are not classes, in order.
pub open spec fn others(cs: Seq<Term>) -> Seq<Term>
    decreases cs.len(),
{
    if cs.len() == 0 {
        Seq::empty()
    } else if cs.last() is Class {
        others(cs.drop_last())
    } else {
        others(cs.drop_last()).push(cs.last())
    }
}

/// The union (or intersection) of the classes among `cs`; `None` when there is none.
pub open spec fn fold_classes(cs: Seq<Term>, union: bool) -> Option<Set<u8>>
    decreases cs.len(),
{
    if cs.len() == 0 {
        None
    } else {
        let f = fold_classes(cs.drop_last(), union);
        match cs.last() {
            Term::Class(s) => Some(
                match f {
                    None => s,
                    Some(u) => if union {
                        u.union(s)
                    } else {
                        u.intersect(s)
                    },
                },
            ),
            _ => f,
        }
    }
}

/// The children with all classes folded into one, merged back into place.
pub open spec fn merged_sets(cs: Seq<Term>, union: bool) -> Seq<Term> {
    match fold_classes(cs, union) {
        None => others(cs),
        Some(u) => merge(others(cs), seq![Term::Class(u)]),
    }
}

/// `cs` with each run of equal neighbours kept once.
pub open spec fn dedup(cs: Seq<Term>) -> Seq<Term>
    decreases cs.len(),
{
    if cs.len() == 0 {
        Seq::empty()
    } else {
        let d = dedup(cs.drop_last());
        if d.len() > 0 && d.last() == cs.last() {
            d
        } else {
            d.push(cs.last())
        }
    }
}

/// The n-ary node over `cs`, or its only child, or `Void` when there is none.
pub open spec fn collect(cs: Seq<Term>, is_or: bool) -> Term {
    if cs.len() == 0 {
        Term::Void
    } else if cs.len() == 1 {
        cs[0]
    } else if is_or {
        Term::Or(cs)
    } else {
        Term::And(cs)
    }
}

/// The children that a term contributes to a union.
pub open spec fn or_children(t: Term) -> Seq<Term> {
    match t {
        Term::Or(cs) => cs,
        _ => seq![t],
    }
}

/// The children that a term contributes to an intersection.
pub open spec fn and_children(t: Term) -> Seq<Term> {
    match t {
        Term::And(cs) => cs,
        _ => seq![t],
    }
}

/// The canonical union of two terms.
pub open spec fn or_of(r: Term, s: Term) -> Term {
    if s is Void {
        r
    } else if r is Void {
        s
    } else if r is Class && s is Class {
        class_of(r->Class_0.union(s->Class_0))
    } else {
        collect(dedup(merged_sets(merge(or_children(r), or_children(s)), true)), true)
    }
}

/// The canonical intersection of two terms.
pub open spec fn and_of(r: Term, s: Term) -> Term {
    if s is Void || r is Void {
        Term::Void
    } else if s is Epsilon {
        if nullable(r) {
            Term::Epsilon
        } else {
            Term::Void
        }
    } else if r is Epsilon {
        if nullable(s) {
            Term::Epsilon
        } else {
            Term::Void
        }
    } else if r is Class && s is Class {
        class_of(r->Class_0.intersect(s->Class_0))
    } else {
        let cs = merge(and_children(r), and_children(s));
        if fold_classes(cs, false) == Some(Set::<u8>::empty()) {
            Term::Void
        } else {
            collect(dedup(merged_sets(cs, false)), false)
        }
    }
}

/// Relies on itertools' `merge_by`: it yields the head of the left input when the
/// predicate holds of the two heads, the head of the right input otherwise, and the
/// rest of one input once the other is spent.
#[verifier::external_body]
fn merge_children(a: Vec<RegEx>, b: Vec<RegEx>) -> (r: Vec<RegEx>)
    ensures
        views(r@) == merge(views(a@), views(b@)),
{
    a.into_iter().merge_by(b, |x, y| x.precedes(y)).collect()
}

/// Folds the classes among `children` into one (by union, or by intersection), and
/// merges it back among the others. The flag is `false` when that class is empty.
fn merged_sets_of(children: &Vec<RegEx>, union: bool) -> (r: (Vec<RegEx>, bool))
    ensures
        views(r.0@) == merged_sets(views(children@), union),
        r.1 == (fold_classes(views(children@), union) != Some(Set::<u8>::empty())),
{
    let ghost cs = views(children@);
    proof {
        lemma_views(children@);
    }
    let mut reduced: Option<ByteSet> = None;
    let mut new_res: Vec<RegEx> = Vec::new();
    let mut i: usize = 0;
    while i < children.len()
        invariant
            i <= children.len(),
            cs == views(children@),
            cs.len() == children.len(),
            forall|j: int| 0 <= j < children.len() ==> #[trigger] cs[j] == children@[j]@,
            views(new_res@) == others(cs.subrange(0, i as int)),
            match reduced {
                None => fold_classes(cs.subrange(0, i as int), union) is None,
                Some(b) => fold_classes(cs.subrange(0, i as int), union) == Some(b@),
            },
        decreases children.len() - i,
    {
        let ghost pre = cs.subrange(0, i as int);
        let ghost post = cs.subrange(0, i + 1);
        assert(post.drop_last() =~= pre);
        assert(post.last() == children@[i as int]@);
        match children[i].operator() {
            Operator::Class(a) => {
                match reduced {
                    Some(set) => {
                        let mut set = set;
                        if union {
                            set.union_assign(a);
                        } else {
                            set.intersection_assign(a);
                        }
                        reduced = Some(set);
                    },
                    None => {
                        reduced = Some(*a);
                    },
                }
            },
            _ => {
                let ghost old_res = new_res@;
                new_res.push(children[i].clone());
                proof {
                    lemma_views(old_res);
                    lemma_views(new_res@);
                    assert(views(new_res@) =~= views(old_res).push(children@[i as int]@));
                }
            },
        }
        i = i + 1;
    }
    assert(cs.subrange(0, children.len() as int) =~= cs);
    match reduced {
        Some(set) => {
            let nonempty = !set.is_empty();
            let single = vec![RegEx::new(Operator::Class(set))];
            proof {
                lemma_views(single@);
                assert(views(single@) =~= seq![Term::Class(set@)]);
            }
            (merge_children(new_res, single), nonempty)
        },
        None => (new_res, true),
    }
}

/// Keeps the first of each run of equal neighbours.
fn dedup_of(v: Vec<RegEx>) -> (r: Vec<RegEx>)
    ensures
        views(r@) == dedup(views(v@)),
{
    let ghost cs = views(v@);
    proof {
        lemma_views(v@);
    }
    let mut r: Vec<RegEx> = Vec::new();
    let mut i: usize = 0;
    while i < v.len()
        invariant
            i <= v.len(),
            cs == views(v@),
            cs.len() == v.len(),
            forall|j: int| 0 <= j < v.len() ==> #[trigger] cs[j] == v@[j]@,
            views(r@) == dedup(cs.subrange(0, i as int)),
        decreases v.len() - i,
    {
        let ghost pre = cs.subrange(0, i as int);
        let ghost post = cs.subrange(0, i + 1);
        assert(post.drop_last() =~= pre);
        assert(post.last() == v@[i as int]@);
        proof {
            lemma_views(r@);
        }
        let keep = r.len() == 0 || !(r[r.len() - 1] == v[i]);
        if keep {
            let ghost old_r = r@;
            r.push(v[i].clone());
            proof {
                lemma_views(r@);
                assert(views(r@) =~= views(old_r).push(v@[i as int]@));
            }
        }
        i = i + 1;
    }
    assert(cs.subrange(0, v.len() as int) =~= cs);
    r
}

/// The n-ary node over `v`, or its only child, or the empty language.
fn collect_of(v: Vec<RegEx>, is_or: bool) -> (r: RegEx)
    ensures
        r@ == collect(views(v@), is_or),
{
    proof {
        lemma_views(v@);
    }
    if v.len() == 0 {
        RegEx::new(Operator::Void)
    } else if v.len() == 1 {
        v[0].clone()
    } else if is_or {
        RegEx::new(Operator::Or(v))
    } else {
        RegEx::new(Operator::And(v))
    }
}

impl RegEx {
    fn or_children(&self) -> (r: Vec<RegEx>)
        ensures
            views(r@) == or_children(self@),
    {
        match self.operator() {
            Operator::Or(v) => {
                let r = v.clone();
                assert(r@ =~= v@);
                r
            },
            _ => {
                let r = vec![self.clone()];
                proof {
                    lemma_views(r@);
                    assert(views(r@) =~= seq![self@]);
                }
                r
            },
        }
    }

    fn and_children(&self) -> (r: Vec<RegEx>)
        ensures
            views(r@) == and_children(self@),
    {
        match self.operator() {
            Operator::And(v) => {
                let r = v.clone();
                assert(r@ =~= v@);
                r
            },
            _ => {
                let r = vec![self.clone()];
                proof {
                    lemma_views(r@);
                    assert(views(r@) =~= seq![self@]);
                }
                r
            },
        }
    }

    /// Returns `true` iff the empty string is in the language.
    pub fn is_nullable(&self) -> (r: bool)
        ensures
            r == nullable(self@),
        decreases self,
    {
        match self.operator() {
            Operator::Void => false,
            Operator::Epsilon => true,
            Operator::Class(_) => false,
            Operator::Cat(v) => {
                assert(self@ == Term::Cat(views(v@)));
                all_nullable(v)
            },
            Operator::Star(_) => true,
            Operator::Or(v) => {
                assert(self@ == Term::Or(views(v@)));
                any_nullable(v)
            },
            Operator::And(v) => {
                assert(self@ == Term::And(views(v@)));
                all_nullable(v)
            },
            Operator::Not(c) => {
                assert(self@ == Term::Not(Box::new(c@)));
                !c.is_nullable()
            },
        }
    }

    /// The union.
    pub fn or(&self, other: &Self) -> (r: Self)
        ensures
            r@ == or_of(self@, other@),
    {
        match other.operator() {
            Operator::Void => return self.clone(),
            _ => {},
        }
        match self.operator() {
            Operator::Void => return other.clone(),
            Operator::Class(x) => match other.operator() {
                Operator::Class(y) => return RegEx::set(x.union(y)),
                _ => {},
            },
            _ => {},
        }
        let merged = merge_children(self.or_children(), other.or_children());
        let (sets, _) = merged_sets_of(&merged, true);
        collect_of(dedup_of(sets), true)
    }

    /// The intersection.
    pub fn and(&self, other: &Self) -> (r: Self)
        ensures
            r@ == and_of(self@, other@),
    {
        match other.operator() {
            Operator::Void => return RegEx::new(Operator::Void),
            _ => {},
        }
        match self.operator() {
            Operator::Void => return RegEx::new(Operator::Void),
            _ => {},
        }
        match other.operator() {
            Operator::Epsilon => return if self.is_nullable() {
                RegEx::new(Operator::Epsilon)
            } else {
                RegEx::new(Operator::Void)
            },
            _ => {},
        }
        match self.operator() {
            Operator::Epsilon => return if other.is_nullable() {
                RegEx::new(Operator::Epsilon)
            } else {
                RegEx::new(Operator::Void)
            },
            Operator::Class(x) => match other.operator() {
                Operator::Class(y) => return RegEx::set(x.intersection(y)),
                _ => {},
            },
            _ => {},
        }
        let merged = merge_children(self.and_children(), other.and_children());
        let (sets, nonempty) = merged_sets_of(&merged, false);
        if !nonempty {
            return RegEx::new(Operator::Void);
        }
        collect_of(dedup_of(sets), false)
    }
}

fn all_nullable(v: &Vec<RegEx>) -> (r: bool)
    ensures
        r == all_nullable_terms(views(v@)),
    decreases v,
{
    proof {
        lemma_views(v@);
    }
    let mut i: usize = 0;
    while i < v.len()
        invariant
            i <= v.len(),
            views(v@).len() == v.len(),
            forall|j: int| 0 <= j < v.len() ==> #[trigger] views(v@)[j] == v@[j]@,
            forall|j: int| 0 <= j < i ==> nullable(#[trigger] views(v@)[j]),
        decreases v.len() - i,
    {
        if !v[i].is_nullable() {
            assert(!nullable(views(v@)[i as int]));
            return false;
        }
        i = i + 1;
    }
    true
}

fn any_nullable(v: &Vec<RegEx>) -> (r: bool)
    ensures
        r == any_nullable_terms(views(v@)),
    decreases v,
{
    proof {
        lemma_views(v@);
    }
    let mut i: usize = 0;
    while i < v.len()
        invariant
            i <= v.len(),
            views(v@).len() == v.len(),
            forall|j: int| 0 <= j < v.len() ==> #[trigger] views(v@)[j] == v@[j]@,
            forall|j: int| 0 <= j < i ==> !nullable(#[trigger] views(v@)[j]),
        decreases v.len() - i,
    {
        if v[i].is_nullable() {
            assert(nullable(views(v@)[i as int]));
            return true;
        }
        i = i + 1;
    }
    false
}


/// A sequence of terms as one term: the term itself when there is one, else a
/// concatenation.
pub open spec fn cat_of(cs: Seq<Term>) -> Term {
    if cs.len() == 1 {
        cs[0]
    } else {
        Term::Cat(cs)
    }
}

/// The Brzozowski derivative of `t` by the byte `a`, built with the canonical
/// constructors.
pub open spec fn deriv(t: Term, a: u8) -> Term
    decreases t,
{
    match t {
        Term::Void => Term::Void,
        Term::Epsilon => Term::Void,
        Term::Class(s) => if s.contains(a) {
            Term::Epsilon
        } else {
            Term::Void
        },
        Term::Cat(cs) => deriv_cat(cs, a),
        Term::Star(c) => then_of(deriv(*c, a), t),
        Term::Or(cs) => deriv_or(cs, a),
        Term::And(cs) => deriv_and(cs, a),
        Term::Not(c) => not_of(deriv(*c, a)),
    }
}

/// The derivative of the concatenation of `cs`.
pub open spec fn deriv_cat(cs: Seq<Term>, a: u8) -> Term
    decreases cs,
{
    if cs.len() == 0 {
        Term::Void
    } else if cs.len() == 1 {
        deriv(cs[0], a)
    } else {
        or_of(
            then_of(deriv(cs[0], a), cat_of(cs.drop_first())),
            if nullable(cs[0]) {
                deriv_cat(cs.drop_first(), a)
            } else {
                Term::Void
            },
        )
    }
}

/// The derivative of the union of `cs`.
pub open spec fn deriv_or(cs: Seq<Term>, a: u8) -> Term
    decreases cs,
{
    if cs.len() == 0 {
        Term::Void
    } else if cs.len() == 1 {
        deriv(cs[0], a)
    } else {
        or_of(deriv(cs[0], a), deriv_or(cs.drop_first(), a))
    }
}

/// The derivative of the intersection of `cs`.
pub open spec fn deriv_and(cs: Seq<Term>, a: u8) -> Term
    decreases cs,
{
    if cs.len() == 0 {
        Term::Void
    } else if cs.len() == 1 {
        deriv(cs[0], a)
    } else {
        and_of(deriv(cs[0], a), deriv_and(cs.drop_first(), a))
    }
}

/// The derivative by each byte of `w` in turn.
pub open spec fn deriv_seq(t: Term, w: Seq<u8>) -> Term
    decreases w.len(),
{
    if w.len() == 0 {
        t
    } else {
        deriv_seq(deriv(t, w[0]), w.drop_first())
    }
}

/// Whether `w` is in the language of `t`, decided by derivatives.
pub open spec fn fullmatch(t: Term, w: Seq<u8>) -> bool {
    nullable(deriv_seq(t, w))
}

/// The expression that recognizes the bytes of `w`, in order.
pub open spec fn literal_of(w: Seq<u8>) -> Term
    decreases w.len(),
{
    if w.len() == 0 {
        Term::Epsilon
    } else {
        then_of(literal_of(w.drop_last()), Term::Class(set![w.last()]))
    }
}

proof fn lemma_deriv_seq_void(w: Seq<u8>)
    ensures
        deriv_seq(Term::Void, w) == Term::Void,
    decreases w.len(),
{
    if w.len() > 0 {
        lemma_deriv_seq_void(w.drop_first());
    }
}

fn suffix(v: &Vec<RegEx>, k: usize) -> (r: Vec<RegEx>)
    requires
        k <= v.len(),
    ensures
        views(r@) == views(v@).subrange(k as int, v.len() as int),
{
    let mut r: Vec<RegEx> = Vec::new();
    let mut i = k;
    while i < v.len()
        invariant
            k <= i <= v.len(),
            r@ == v@.subrange(k as int, i as int),
        decreases v.len() - i,
    {
        r.push(v[i].clone());
        assert(r@ =~= v@.subrange(k as int, i + 1));
        i = i + 1;
    }
    proof {
        lemma_views(r@);
        lemma_views(v@);
        assert(views(r@) =~= views(v@).subrange(k as int, v.len() as int));
    }
    r
}

fn deriv_cat_from(v: &Vec<RegEx>, start: usize, a: u8) -> (r: RegEx)
    requires
        start < v.len(),
    ensures
        r@ == deriv_cat(views(v@).subrange(start as int, v.len() as int), a),
    decreases v, v.len() - start,
{
    let ghost cs = views(v@).subrange(start as int, v.len() as int);
    proof {
        lemma_views(v@);
        assert(cs[0] == v@[start as int]@);
    }
    if start + 1 == v.len() {
        return v[start].deriv(a);
    }
    let head = &v[start];
    let tail = if start + 2 == v.len() {
        v[start + 1].clone()
    } else {
        RegEx::new(Operator::Cat(suffix(v, start + 1)))
    };
    proof {
        assert(cs.drop_first() =~= views(v@).subrange(start + 1, v.len() as int));
    }
    let nu = if head.is_nullable() {
        deriv_cat_from(v, start + 1, a)
    } else {
        RegEx::new(Operator::Void)
    };
    RegEx::concat(&head.deriv(a), &tail).or(&nu)
}

fn deriv_or_from(v: &Vec<RegEx>, start: usize, a: u8) -> (r: RegEx)
    requires
        start < v.len(),
    ensures
        r@ == deriv_or(views(v@).subrange(start as int, v.len() as int), a),
    decreases v, v.len() - start,
{
    let ghost cs = views(v@).subrange(start as int, v.len() as int);
    proof {
        lemma_views(v@);
        assert(cs[0] == v@[start as int]@);
        assert(cs.drop_first() =~= views(v@).subrange(start + 1, v.len() as int));
    }
    if start + 1 == v.len() {
        return v[start].deriv(a);
    }
    v[start].deriv(a).or(&deriv_or_from(v, start + 1, a))
}

fn deriv_and_from(v: &Vec<RegEx>, start: usize, a: u8) -> (r: RegEx)
    requires
        start < v.len(),
    ensures
        r@ == deriv_and(views(v@).subrange(start as int, v.len() as int), a),
    decreases v, v.len() - start,
{
    let ghost cs = views(v@).subrange(start as int, v.len() as int);
    proof {
        lemma_views(v@);
        assert(cs[0] == v@[start as int]@);
        assert(cs.drop_first() =~= views(v@).subrange(start + 1, v.len() as int));
    }
    if start + 1 == v.len() {
        return v[start].deriv(a);
    }
    v[start].deriv(a).and(&deriv_and_from(v, start + 1, a))
}

impl RegEx {
    /// The optional form: `self` or the empty string.
    pub fn opt(&self) -> (r: Self)
        ensures
            r@ == or_of(self@, Term::Epsilon),
    {
        self.or(&RegEx::empty())
    }

    /// One or more times.
    pub fn plus(&self) -> (r: Self)
        ensures
            r@ == then_of(self@, star_of(self@)),
    {
        RegEx::concat(self, &self.star())
    }

    /// The difference: `self` and not `other`.
    pub fn diff(&self, other: &Self) -> (r: Self)
        ensures
            r@ == and_of(self@, not_of(other@)),
    {
        self.and(&other.not())
    }

    /// The Brzozowski derivative by the byte `a`.
    pub fn deriv(&self, a: u8) -> (r: Self)
        ensures
            r@ == deriv(self@, a),
        decreases self, 0nat,
    {
        match self.operator() {
            Operator::Void => RegEx::new(Operator::Void),
            Operator::Epsilon => RegEx::new(Operator::Void),
            Operator::Class(s) => if s.contains(a) {
                RegEx::new(Operator::Epsilon)
            } else {
                RegEx::new(Operator::Void)
            },
            Operator::Cat(v) => {
                assert(self@ == Term::Cat(views(v@)));
                proof {
                    lemma_views(v@);
                    assert(views(v@).subrange(0, v.len() as int) =~= views(v@));
                    assert(deriv(self@, a) == deriv_cat(views(v@), a));
                }
                if v.len() == 0 {
                    return RegEx::new(Operator::Void);
                }
                deriv_cat_from(v, 0, a)
            },
            Operator::Star(c) => RegEx::concat(&c.deriv(a), self),
            Operator::Or(v) => {
                assert(self@ == Term::Or(views(v@)));
                proof {
                    lemma_views(v@);
                    assert(views(v@).subrange(0, v.len() as int) =~= views(v@));
                    assert(deriv(self@, a) == deriv_or(views(v@), a));
                }
                if v.len() == 0 {
                    return RegEx::new(Operator::Void);
                }
                deriv_or_from(v, 0, a)
            },
            Operator::And(v) => {
                assert(self@ == Term::And(views(v@)));
                proof {
                    lemma_views(v@);
                    assert(views(v@).subrange(0, v.len() as int) =~= views(v@));
                    assert(deriv(self@, a) == deriv_and(views(v@), a));
                }
                if v.len() == 0 {
                    return RegEx::new(Operator::Void);
                }
                deriv_and_from(v, 0, a)
            },
            Operator::Not(c) => c.deriv(a).not(),
        }
    }

    /// Returns `true` iff the bytes of `text` are in the language.
    pub fn is_fullmatch(&self, text: &str) -> (r: bool)
        ensures
            r == fullmatch(self@, text.spec_bytes()),
            crate::language::plain(self@) ==> r == crate::language::in_lang(self@, text.spec_bytes()),
    {
        proof {
            if crate::language::plain(self@) {
                crate::language::lemma_derivatives_sound(self@, text.spec_bytes());
            }
        }
        let bytes = text.as_bytes();
        let ghost w = bytes@;
        let mut regex = self.clone();
        let mut i: usize = 0;
        assert(w.subrange(0, w.len() as int) =~= w);
        while i < bytes.len()
            invariant
                i <= bytes.len(),
                w == bytes@,
                w == text.spec_bytes(),
                crate::language::plain(self@) ==> fullmatch(self@, w) == crate::language::in_lang(self@, w),
                deriv_seq(self@, w) == deriv_seq(regex@, w.subrange(i as int, w.len() as int)),
            decreases bytes.len() - i,
        {
            let ghost before = regex@;
            regex = regex.deriv(bytes[i]);
            proof {
                let rest = w.subrange(i as int, w.len() as int);
                assert(rest.drop_first() =~= w.subrange(i + 1, w.len() as int));
                assert(rest[0] == bytes[i as int]);
                assert(deriv_seq(before, rest) == deriv_seq(
                    regex@,
                    w.subrange(i + 1, w.len() as int),
                ));
            }
            match regex.operator() {
                Operator::Void => {
                    proof {
                        assert(regex@ == Term::Void);
                        lemma_deriv_seq_void(w.subrange(i + 1, w.len() as int));
                        assert(w == text.spec_bytes());
                    }
                    return false;
                },
                _ => {},
            }
            i = i + 1;
        }
        regex.is_nullable()
    }
}


impl RegEx {
    /// The children of a node are smaller than the node.
    pub proof fn lemma_children_decrease(&self)
        ensures
            self.node() is Cat ==> decreases_to!(*self => self.node()->Cat_0),
            self.node() is Or ==> decreases_to!(*self => self.node()->Or_0),
            self.node() is And ==> decreases_to!(*self => self.node()->And_0),
            self.node() is Star ==> decreases_to!(*self => self.node()->Star_0),
            self.node() is Not ==> decreases_to!(*self => self.node()->Not_0),
    {
    }

    pub proof fn lemma_view_void(&self)
        requires
            self.node() is Void,
        ensures
            self@ == Term::Void,
    {
    }

    pub proof fn lemma_view_epsilon(&self)
        requires
            self.node() is Epsilon,
        ensures
            self@ == Term::Epsilon,
    {
    }

    pub proof fn lemma_view_class(&self)
        requires
            self.node() is Class,
        ensures
            self@ == Term::Class(self.node()->Class_0@),
    {
    }

    pub proof fn lemma_view_cat(&self)
        requires
            self.node() is Cat,
        ensures
            self@ == Term::Cat(views(self.node()->Cat_0@)),
    {
    }

    pub proof fn lemma_view_or(&self)
        requires
            self.node() is Or,
        ensures
            self@ == Term::Or(views(self.node()->Or_0@)),
    {
    }

    pub proof fn lemma_view_and(&self)
        requires
            self.node() is And,
        ensures
            self@ == Term::And(views(self.node()->And_0@)),
    {
    }

    pub proof fn lemma_view_star(&self)
        requires
            self.node() is Star,
        ensures
            self@ == Term::Star(Box::new(self.node()->Star_0@)),
    {
    }

    pub proof fn lemma_view_not(&self)
        requires
            self.node() is Not,
        ensures
            self@ == Term::Not(Box::new(self.node()->Not_0@)),
    {
    }
}

} // verus!
