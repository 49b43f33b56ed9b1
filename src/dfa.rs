use vstd::prelude::*;
use vstd::string::StringSliceAdditionalSpecFns;

use crate::byte_set::ByteSet;
use crate::regex::{
    deriv, deriv_and, deriv_cat, deriv_or, deriv_seq, lemma_views, nullable, views, Operator, RegEx,
    Term,
};

pub mod hopcroft;

verus! {

/// The state that a transition table gives for `b`: the last entry for `b`, or the
/// sink (0) when there is none.
pub open spec fn lookup(next: Seq<(u8, usize)>, b: u8) -> usize
    decreases next.len(),
{
    if next.len() == 0 {
        0
    } else if next.last().0 == b {
        next.last().1
    } else {
        lookup(next.drop_last(), b)
    }
}

/// `lookup` gives the target of an entry for `b` whenever there is one.
pub proof fn lemma_lookup(next: Seq<(u8, usize)>, b: u8)
    ensures
        (exists|k: int| 0 <= k < next.len() && next[k].0 == b) ==> exists|k: int|
            0 <= k < next.len() && next[k].0 == b && next[k].1 == lookup(next, b),
        (forall|k: int| 0 <= k < next.len() ==> next[k].0 != b) ==> lookup(next, b) == 0,
    decreases next.len(),
{
    if next.len() > 0 {
        lemma_lookup(next.drop_last(), b);
        if next.last().0 != b {
            if exists|k: int| 0 <= k < next.len() && next[k].0 == b {
                let k = choose|k: int| 0 <= k < next.len() && next[k].0 == b;
                assert(next.drop_last()[k].0 == b);
                let k2 = choose|k2: int|
                    0 <= k2 < next.drop_last().len() && next.drop_last()[k2].0 == b
                        && next.drop_last()[k2].1 == lookup(next.drop_last(), b);
                assert(next[k2] == next.drop_last()[k2]);
            }
            if forall|k: int| 0 <= k < next.len() ==> next[k].0 != b {
                assert forall|k: int| 0 <= k < next.drop_last().len() implies next.drop_last()[k].0
                    != b by {
                    assert(next.drop_last()[k] == next[k]);
                }
            }
        } else {
            assert(next[next.len() - 1].0 == b);
        }
    }
}

/// A state: its accept class, if any, and its explicit transitions. A byte without
/// an entry leads to the sink.
pub struct State {
    pub class: Option<usize>,
    pub next: Vec<(u8, usize)>,
}

impl State {
    fn new(next: Vec<(u8, usize)>, class: Option<usize>) -> (r: Self)
        ensures
            r.next@ == next@,
            r.class == class,
    {
        State { class, next }
    }

    fn sink() -> (r: Self)
        ensures
            r.next@.len() == 0,
            r.class is None,
    {
        State::new(Vec::new(), None)
    }
}

/// A deterministic automaton over bytes. State 0 is the sink and state 1 the start.
pub struct DFA {
    states: Vec<State>,
}

impl DFA {
    /// The states, by index.
    pub closed spec fn view(&self) -> Seq<State> {
        self.states@
    }

    /// The transition function; the sink for a state out of range.
    pub open spec fn next_state(&self, s: int, b: u8) -> int {
        if 0 <= s < self@.len() {
            lookup(self@[s].next@, b) as int
        } else {
            0
        }
    }

    /// The state reached from `s` by the bytes of `w`.
    pub open spec fn run(&self, s: int, w: Seq<u8>) -> int
        decreases w.len(),
    {
        if w.len() == 0 {
            s
        } else {
            self.run(self.next_state(s, w[0]), w.drop_first())
        }
    }

    /// The accept class of a state.
    pub open spec fn class_at(&self, s: int) -> Option<usize> {
        self@[s].class
    }

    /// The accept class reached from the start by `w`.
    pub open spec fn accepts(&self, w: Seq<u8>) -> Option<usize> {
        self.class_at(self.run(1, w))
    }

    /// A sink without transitions or class at 0, a start at 1, every transition
    /// within range, and at most one entry for a byte in each row.
    pub open spec fn wf(&self) -> bool {
        &&& self@.len() >= 2
        &&& forall|i: int| 0 <= i < self@.len() ==> unique_keys(#[trigger] self@[i].next@)
        &&& self@[0].class is None
        &&& self@[0].next@.len() == 0
        &&& forall|i: int, k: int|
            0 <= i < self@.len() && 0 <= k < self@[i].next@.len() ==> (#[trigger] self@[i].next@[k]).1
                < self@.len()
    }

    /// The states, by index.
    pub fn states(&self) -> (r: &[State])
        ensures
            r@ == self@,
    {
        self.states.as_slice()
    }

    /// The state after `id` on `symbol`: the sink where no transition is given.
    pub fn step(&self, id: usize, symbol: u8) -> (r: usize)
        requires
            id < self@.len(),
        ensures
            r == self.next_state(id as int, symbol),
    {
        let next = &self.states[id].next;
        let mut k = next.len();
        assert(next@.subrange(0, k as int) =~= next@);
        while k > 0
            invariant
                id < self@.len(),
                k <= next@.len(),
                next@ == self@[id as int].next@,
                lookup(next@, symbol) == lookup(next@.subrange(0, k as int), symbol),
            decreases k,
        {
            let ghost pre = next@.subrange(0, k as int);
            assert(pre.drop_last() =~= next@.subrange(0, k - 1));
            assert(pre.last() == next@[k - 1]);
            if next[k - 1].0 == symbol {
                return next[k - 1].1;
            }
            k = k - 1;
        }
        0
    }

    /// The accept class of state `id`.
    pub fn class(&self, id: usize) -> (r: Option<usize>)
        requires
            id < self@.len(),
        ensures
            r == self.class_at(id as int),
    {
        self.states[id].class
    }

    /// Returns `true` iff the bytes of `text` lead from the start to an accepting
    /// state.
    pub fn matches(&self, text: &str) -> (r: bool)
        requires
            self.wf(),
        ensures
            r == self.accepts(text.spec_bytes()) is Some,
    {
        let bytes = text.as_bytes();
        let ghost w = bytes@;
        let mut id: usize = 1;
        let mut i: usize = 0;
        assert(w.subrange(0, w.len() as int) =~= w);
        while i < bytes.len()
            invariant
                self.wf(),
                i <= bytes.len(),
                w == bytes@,
                id < self@.len(),
                self.run(1, w) == self.run(id as int, w.subrange(i as int, w.len() as int)),
            decreases bytes.len() - i,
        {
            proof {
                let rest = w.subrange(i as int, w.len() as int);
                assert(rest.drop_first() =~= w.subrange(i + 1, w.len() as int));
                self.lemma_next_in_range(id as int, bytes[i as int]);
            }
            id = self.step(id, bytes[i]);
            i = i + 1;
        }
        self.class(id).is_some()
    }

    /// Some input leads `s` and `t` to different classes.
    pub open spec fn distinguishable(&self, s: int, t: int) -> bool {
        exists|w: Seq<u8>| #[trigger] self.class_at(self.run(s, w)) != self.class_at(self.run(t, w))
    }

    /// States whose successors on one byte are told apart are told apart.
    pub proof fn lemma_distinguishable_step(&self, s: int, t: int, a: u8)
        requires
            self.distinguishable(self.next_state(s, a), self.next_state(t, a)),
        ensures
            self.distinguishable(s, t),
    {
        let w = choose|w: Seq<u8>|
            #[trigger] self.class_at(self.run(self.next_state(s, a), w)) != self.class_at(
                self.run(self.next_state(t, a), w),
            );
        let aw = seq![a] + w;
        assert(aw.drop_first() =~= w);
        assert(self.class_at(self.run(s, aw)) != self.class_at(self.run(t, aw)));
    }

    /// An automaton over the given states.
    pub(crate) fn from_states(states: Vec<State>) -> (r: DFA)
        ensures
            r@ == states@,
    {
        DFA { states }
    }

    /// The transitions of a well-formed automaton stay in range.
    pub proof fn lemma_next_in_range(&self, s: int, b: u8)
        requires
            self.wf(),
            0 <= s < self@.len(),
        ensures
            0 <= self.next_state(s, b) < self@.len(),
    {
        let next = self@[s].next@;
        lemma_lookup(next, b);
        if exists|k: int| 0 <= k < next.len() && next[k].0 == b {
            let k = choose|k: int|
                0 <= k < next.len() && next[k].0 == b && next[k].1 == lookup(next, b);
            assert(self@[s].next@[k].1 < self@.len());
        }
    }

    /// Every run of a well-formed automaton stays in range.
    pub proof fn lemma_run_in_range(&self, s: int, w: Seq<u8>)
        requires
            self.wf(),
            0 <= s < self@.len(),
        ensures
            0 <= self.run(s, w) < self@.len(),
        decreases w.len(),
    {
        if w.len() > 0 {
            self.lemma_next_in_range(s, w[0]);
            self.lemma_run_in_range(self.next_state(s, w[0]), w.drop_first());
        }
    }
}


/// Every block is non-empty and every byte lies in some block.
pub open spec fn covers(blocks: Seq<ByteSet>) -> bool {
    &&& forall|k: int| 0 <= k < blocks.len() ==> (#[trigger] blocks[k])@ != Set::<u8>::empty()
    &&& forall|b: u8| #[trigger] in_some(blocks, b)
}

/// No byte lies in two blocks.
pub open spec fn disjoint_blocks(blocks: Seq<ByteSet>) -> bool {
    forall|i: int, j: int, v: u8|
        0 <= i < blocks.len() && 0 <= j < blocks.len() && i != j && #[trigger] blocks[i]@.contains(v)
            ==> !#[trigger] blocks[j]@.contains(v)
}

/// `a` comes before `b` in the order of (block of the second input, block of the
/// first input).
spec fn pair_before(a: (int, int), b: (int, int)) -> bool {
    a.0 < b.0 || (a.0 == b.0 && a.1 < b.1)
}

/// Some block holds `b`.
pub open spec fn in_some(blocks: Seq<ByteSet>, b: u8) -> bool {
    exists|k: int| 0 <= k < blocks.len() && (#[trigger] blocks[k])@.contains(b)
}

/// The bytes of one block all give the same derivative of `t`.
pub open spec fn separates(blocks: Seq<ByteSet>, t: Term) -> bool {
    forall|k: int, b1: u8, b2: u8|
        0 <= k < blocks.len() && (#[trigger] blocks[k])@.contains(b1) && blocks[k]@.contains(b2)
            ==> #[trigger] deriv(t, b1) == #[trigger] deriv(t, b2)
}

/// Each block of `r` lies within some block of `a`.
pub open spec fn refines(r: Seq<ByteSet>, a: Seq<ByteSet>) -> bool {
    forall|k: int|
        0 <= k < r.len() ==> exists|j: int| 0 <= j < a.len() && (#[trigger] r[k])@.subset_of(#[trigger] a[j]@)
}

proof fn lemma_refines_separates(r: Seq<ByteSet>, a: Seq<ByteSet>, t: Term)
    requires
        refines(r, a),
        separates(a, t),
    ensures
        separates(r, t),
{
    assert forall|k: int, b1: u8, b2: u8|
        0 <= k < r.len() && (#[trigger] r[k])@.contains(b1) && r[k]@.contains(b2) implies #[trigger] deriv(
        t,
        b1,
    ) == #[trigger] deriv(t, b2) by {
        let j = choose|j: int| 0 <= j < a.len() && r[k]@.subset_of(a[j]@);
        assert(a[j]@.contains(b1) && a[j]@.contains(b2));
    }
}

/// The non-empty intersections of a block of `set1` with a block of `set2`.
fn cross(set1: &Vec<ByteSet>, set2: &Vec<ByteSet>) -> (r: Vec<ByteSet>)
    ensures
        forall|k: int| 0 <= k < r@.len() ==> (#[trigger] r@[k])@ != Set::<u8>::empty(),
        refines(r@, set1@),
        refines(r@, set2@),
        covers(set1@) && covers(set2@) ==> covers(r@),
        disjoint_blocks(set1@) && disjoint_blocks(set2@) ==> disjoint_blocks(r@),
{
    let mut r: Vec<ByteSet> = Vec::new();
    let ghost mut origin: Seq<(int, int)> = Seq::empty();
    let mut i: usize = 0;
    while i < set2.len()
        invariant
            i <= set2.len(),
            origin.len() == r@.len(),
            forall|k: int| 0 <= k < r@.len() ==> 0 <= (#[trigger] origin[k]).0 < i && 0 <= origin[k].1 < set1@.len()
                && r@[k]@.subset_of(set2@[origin[k].0]@) && r@[k]@.subset_of(set1@[origin[k].1]@),
            forall|k: int, l: int| 0 <= k < l < r@.len() ==> pair_before(#[trigger] origin[k], #[trigger] origin[l]),
            forall|k: int| 0 <= k < r@.len() ==> (#[trigger] r@[k])@ != Set::<u8>::empty(),
            refines(r@, set1@),
            refines(r@, set2@),
            forall|b: u8, t: int, s: int|
                0 <= t < i && 0 <= s < set1@.len() && #[trigger] set2@[t]@.contains(b)
                    && #[trigger] set1@[s]@.contains(b) ==> in_some(r@, b),
        decreases set2.len() - i,
    {
        let t = &set2[i];
        let mut j: usize = 0;
        while j < set1.len()
            invariant
                i < set2.len(),
                j <= set1.len(),
                *t == set2@[i as int],
                origin.len() == r@.len(),
                forall|k: int| 0 <= k < r@.len() ==> 0 <= (#[trigger] origin[k]).0 < set2@.len() && 0 <= origin[k].1 < set1@.len()
                    && (origin[k].0 < i || (origin[k].0 == i && origin[k].1 < j))
                    && r@[k]@.subset_of(set2@[origin[k].0]@) && r@[k]@.subset_of(set1@[origin[k].1]@),
                forall|k: int, l: int| 0 <= k < l < r@.len() ==> pair_before(#[trigger] origin[k], #[trigger] origin[l]),
                forall|k: int| 0 <= k < r@.len() ==> (#[trigger] r@[k])@ != Set::<u8>::empty(),
                refines(r@, set1@),
                refines(r@, set2@),
                forall|b: u8, t2: int, s: int|
                    0 <= t2 < i && 0 <= s < set1@.len() && #[trigger] set2@[t2]@.contains(b)
                        && #[trigger] set1@[s]@.contains(b) ==> in_some(r@, b),
                forall|b: u8, s: int|
                    0 <= s < j && #[trigger] set2@[i as int]@.contains(b)
                        && #[trigger] set1@[s]@.contains(b) ==> in_some(r@, b),
            decreases set1.len() - j,
        {
            let u = t.intersection(&set1[j]);
            if !u.is_empty() {
                let ghost old_r = r@;
                let ghost old_origin = origin;
                r.push(u);
                proof {
                    origin = origin.push((i as int, j as int));
                    assert forall|k: int| 0 <= k < r@.len() implies 0 <= (#[trigger] origin[k]).0 < set2@.len() && 0 <= origin[k].1 < set1@.len()
                        && (origin[k].0 < i || (origin[k].0 == i && origin[k].1 < j + 1))
                        && r@[k]@.subset_of(set2@[origin[k].0]@) && r@[k]@.subset_of(set1@[origin[k].1]@) by {
                        if k < old_r.len() {
                            assert(origin[k] == old_origin[k]);
                            assert(r@[k] == old_r[k]);
                        }
                    }
                    assert forall|k: int, l: int| 0 <= k < l < r@.len() implies pair_before(#[trigger] origin[k], #[trigger] origin[l]) by {
                        assert(origin[k] == old_origin[k]);
                        if l < old_r.len() {
                            assert(origin[l] == old_origin[l]);
                        }
                    }
                }
                proof {
                    assert(r@[r@.len() - 1] == u);
                    assert forall|k: int| 0 <= k < r@.len() implies exists|x: int|
                        0 <= x < set1@.len() && (#[trigger] r@[k])@.subset_of(#[trigger] set1@[x]@) by {
                        if k < old_r.len() {
                            assert(r@[k] == old_r[k]);
                        } else {
                            assert(u@.subset_of(set1@[j as int]@));
                        }
                    }
                    assert forall|k: int| 0 <= k < r@.len() implies exists|x: int|
                        0 <= x < set2@.len() && (#[trigger] r@[k])@.subset_of(#[trigger] set2@[x]@) by {
                        if k < old_r.len() {
                            assert(r@[k] == old_r[k]);
                        } else {
                            assert(u@.subset_of(set2@[i as int]@));
                        }
                    }
                    assert forall|b: u8, t2: int, s: int|
                        0 <= t2 < i && 0 <= s < set1@.len() && #[trigger] set2@[t2]@.contains(b)
                            && #[trigger] set1@[s]@.contains(b) implies in_some(r@, b) by {
                        assert(in_some(old_r, b));
                        let k = choose|k: int| 0 <= k < old_r.len() && old_r[k]@.contains(b);
                        assert(r@[k] == old_r[k]);
                    }
                    assert forall|b: u8, s: int|
                        0 <= s < j + 1 && #[trigger] set2@[i as int]@.contains(b)
                            && #[trigger] set1@[s]@.contains(b) implies in_some(r@, b) by {
                        if s < j {
                            assert(in_some(old_r, b));
                            let k = choose|k: int| 0 <= k < old_r.len() && old_r[k]@.contains(b);
                            assert(r@[k] == old_r[k]);
                        } else {
                            assert(r@[r@.len() - 1]@.contains(b));
                            assert(in_some(r@, b));
                        }
                    }
                }
            } else {
                proof {
                    assert forall|b: u8, s: int|
                        0 <= s < j + 1 && #[trigger] set2@[i as int]@.contains(b)
                            && #[trigger] set1@[s]@.contains(b) implies in_some(r@, b) by {
                        if s == j {
                            assert(u@.contains(b));
                        }
                    }
                }
            }
            j = j + 1;
        }
        i = i + 1;
    }
    proof {
        if disjoint_blocks(set1@) && disjoint_blocks(set2@) {
            assert forall|k: int, l: int, v: u8|
                0 <= k < r@.len() && 0 <= l < r@.len() && k != l && #[trigger] r@[k]@.contains(v)
                    implies !#[trigger] r@[l]@.contains(v) by {
                if r@[l]@.contains(v) {
                    let a = origin[k];
                    let b = origin[l];
                    assert(set2@[a.0]@.contains(v) && set2@[b.0]@.contains(v));
                    assert(set1@[a.1]@.contains(v) && set1@[b.1]@.contains(v));
                    if k < l {
                        assert(pair_before(origin[k], origin[l]));
                    } else {
                        assert(pair_before(origin[l], origin[k]));
                    }
                }
            }
        }
        if covers(set1@) && covers(set2@) {
            assert forall|b: u8| #[trigger] in_some(r@, b) by {
                assert(in_some(set2@, b));
                assert(in_some(set1@, b));
                let t = choose|t: int| 0 <= t < set2@.len() && set2@[t]@.contains(b);
                let s = choose|s: int| 0 <= s < set1@.len() && set1@[s]@.contains(b);
            }
        }
    }
    r
}


fn universe_only() -> (r: Vec<ByteSet>)
    ensures
        covers(r@),
        disjoint_blocks(r@),
        forall|t: Term| deriv_constant(t) ==> separates(r@, t),
        r@.len() == 1,
        r@[0]@ == Set::<u8>::full(),
{
    let r = vec![ByteSet::universe()];
    proof {
        assert(Set::<u8>::full().contains(0u8));
        assert forall|b: u8| #[trigger] in_some(r@, b) by {
            assert(r@[0]@.contains(b));
        }
    }
    r
}

/// The derivative of `t` is the same for every byte.
pub open spec fn deriv_constant(t: Term) -> bool {
    forall|b1: u8, b2: u8| #[trigger] deriv(t, b1) == #[trigger] deriv(t, b2)
}

proof fn lemma_separates_or(blocks: Seq<ByteSet>, cs: Seq<Term>)
    requires
        forall|i: int| 0 <= i < cs.len() ==> separates(blocks, #[trigger] cs[i]),
    ensures
        forall|k: int, b1: u8, b2: u8|
            0 <= k < blocks.len() && (#[trigger] blocks[k])@.contains(b1) && blocks[k]@.contains(b2)
                ==> #[trigger] deriv_or(cs, b1) == #[trigger] deriv_or(cs, b2),
        forall|k: int, b1: u8, b2: u8|
            0 <= k < blocks.len() && (#[trigger] blocks[k])@.contains(b1) && blocks[k]@.contains(b2)
                ==> #[trigger] deriv_and(cs, b1) == #[trigger] deriv_and(cs, b2),
    decreases cs.len(),
{
    if cs.len() > 1 {
        assert forall|i: int| 0 <= i < cs.drop_first().len() implies separates(
            blocks,
            #[trigger] cs.drop_first()[i],
        ) by {
            assert(cs.drop_first()[i] == cs[i + 1]);
        }
        lemma_separates_or(blocks, cs.drop_first());
    }
    assert forall|k: int, b1: u8, b2: u8|
        0 <= k < blocks.len() && (#[trigger] blocks[k])@.contains(b1) && blocks[k]@.contains(b2)
            implies #[trigger] deriv_or(cs, b1) == #[trigger] deriv_or(cs, b2) by {
        if cs.len() > 0 {
            assert(separates(blocks, cs[0]));
            assert(deriv(cs[0], b1) == deriv(cs[0], b2));
        }
        if cs.len() > 1 {
            assert(deriv_or(cs.drop_first(), b1) == deriv_or(cs.drop_first(), b2));
        }
    }
    assert forall|k: int, b1: u8, b2: u8|
        0 <= k < blocks.len() && (#[trigger] blocks[k])@.contains(b1) && blocks[k]@.contains(b2)
            implies #[trigger] deriv_and(cs, b1) == #[trigger] deriv_and(cs, b2) by {
        if cs.len() > 0 {
            assert(separates(blocks, cs[0]));
            assert(deriv(cs[0], b1) == deriv(cs[0], b2));
        }
        if cs.len() > 1 {
            assert(deriv_and(cs.drop_first(), b1) == deriv_and(cs.drop_first(), b2));
        }
    }
}

/// Blocks of bytes that give equal derivatives of `r`: a partition of all bytes,
/// possibly finer than the true derivative classes.
fn approx_deriv_classes(r: &RegEx) -> (blocks: Vec<ByteSet>)
    ensures
        covers(blocks@),
        disjoint_blocks(blocks@),
        separates(blocks@, r@),
    decreases r, 0nat,
{
    match r.operator() {
        Operator::Void => {
            proof {
                r.lemma_view_void();
                assert forall|b1: u8, b2: u8| #[trigger] deriv(r@, b1) == #[trigger] deriv(r@, b2) by {}
            }
            universe_only()
        },
        Operator::Epsilon => {
            proof {
                r.lemma_view_epsilon();
                assert forall|b1: u8, b2: u8| #[trigger] deriv(r@, b1) == #[trigger] deriv(r@, b2) by {}
            }
            universe_only()
        },
        Operator::Class(set) => {
            proof { r.lemma_view_class(); }
            if set.is_empty() || set.is_universe() {
                proof {
                    assert forall|b1: u8, b2: u8| #[trigger] deriv(r@, b1) == #[trigger] deriv(r@, b2) by {
                        assert(set@.contains(b1) == set@.contains(b2));
                    }
                }
                universe_only()
            } else {
                let c = set.complement();
                let blocks = vec![*set, c];
                proof {
                    assert forall|b: u8| #[trigger] in_some(blocks@, b) by {
                        if set@.contains(b) {
                            assert(blocks@[0]@.contains(b));
                        } else {
                            assert(blocks@[1]@.contains(b));
                        }
                    }
                    assert(set@ != Set::<u8>::full());
                    assert(exists|b: u8| !set@.contains(b)) by {
                        if forall|b: u8| set@.contains(b) {
                            assert(set@ =~= Set::<u8>::full());
                        }
                    }
                    let nb = choose|b: u8| !set@.contains(b);
                    assert(c@.contains(nb));
                }
                blocks
            }
        },
        Operator::Cat(v) => {
            proof { r.lemma_view_cat(); lemma_views(v@); r.lemma_children_decrease(); }
            if v.len() == 0 {
                proof {
                    assert(views(v@).len() == 0);
                    assert forall|b1: u8, b2: u8| #[trigger] deriv(r@, b1) == #[trigger] deriv(r@, b2) by {
                        assert(deriv(r@, b1) == deriv_cat(views(v@), b1));
                        assert(deriv(r@, b2) == deriv_cat(views(v@), b2));
                    }
                }
                return universe_only();
            }
            let blocks = approx_deriv_classes_cat(v, 0);
            proof {
                assert(views(v@).subrange(0, v.len() as int) =~= views(v@));
                assert forall|k: int, b1: u8, b2: u8|
                    0 <= k < blocks@.len() && (#[trigger] blocks@[k])@.contains(b1) && blocks@[k]@.contains(b2)
                        implies #[trigger] deriv(r@, b1) == #[trigger] deriv(r@, b2) by {
                    assert(deriv(r@, b1) == deriv_cat(views(v@), b1));
                    assert(deriv(r@, b2) == deriv_cat(views(v@), b2));
                }
            }
            blocks
        },
        Operator::Star(c) => {
            proof { r.lemma_view_star(); r.lemma_children_decrease(); }
            let blocks = approx_deriv_classes(c);
            proof {
                assert forall|k: int, b1: u8, b2: u8|
                    0 <= k < blocks@.len() && (#[trigger] blocks@[k])@.contains(b1) && blocks@[k]@.contains(b2)
                        implies #[trigger] deriv(r@, b1) == #[trigger] deriv(r@, b2) by {
                    assert(deriv(c@, b1) == deriv(c@, b2));
                }
            }
            blocks
        },
        Operator::Not(c) => {
            proof { r.lemma_view_not(); r.lemma_children_decrease(); }
            let blocks = approx_deriv_classes(c);
            proof {
                assert forall|k: int, b1: u8, b2: u8|
                    0 <= k < blocks@.len() && (#[trigger] blocks@[k])@.contains(b1) && blocks@[k]@.contains(b2)
                        implies #[trigger] deriv(r@, b1) == #[trigger] deriv(r@, b2) by {
                    assert(deriv(c@, b1) == deriv(c@, b2));
                }
            }
            blocks
        },
        Operator::Or(v) => {
            proof { r.lemma_view_or(); r.lemma_children_decrease(); }
            let blocks = approx_deriv_classes_vec(v);
            proof {
                lemma_views(v@);
                lemma_separates_or(blocks@, views(v@));
                assert forall|k: int, b1: u8, b2: u8|
                    0 <= k < blocks@.len() && (#[trigger] blocks@[k])@.contains(b1) && blocks@[k]@.contains(b2)
                        implies #[trigger] deriv(r@, b1) == #[trigger] deriv(r@, b2) by {
                    assert(deriv(r@, b1) == deriv_or(views(v@), b1));
                    assert(deriv(r@, b2) == deriv_or(views(v@), b2));
                }
            }
            blocks
        },
        Operator::And(v) => {
            proof { r.lemma_view_and(); r.lemma_children_decrease(); }
            let blocks = approx_deriv_classes_vec(v);
            proof {
                lemma_views(v@);
                lemma_separates_or(blocks@, views(v@));
                assert forall|k: int, b1: u8, b2: u8|
                    0 <= k < blocks@.len() && (#[trigger] blocks@[k])@.contains(b1) && blocks@[k]@.contains(b2)
                        implies #[trigger] deriv(r@, b1) == #[trigger] deriv(r@, b2) by {
                    assert(deriv(r@, b1) == deriv_and(views(v@), b1));
                    assert(deriv(r@, b2) == deriv_and(views(v@), b2));
                }
            }
            blocks
        },
    }
}

/// Blocks that separate every expression of `v`.
fn approx_deriv_classes_vec(v: &Vec<RegEx>) -> (blocks: Vec<ByteSet>)
    ensures
        covers(blocks@),
        disjoint_blocks(blocks@),
        forall|i: int| 0 <= i < views(v@).len() ==> separates(blocks@, #[trigger] views(v@)[i]),
    decreases v, 0nat,
{
    proof {
        lemma_views(v@);
    }
    let mut acc = universe_only();
    let mut i: usize = 0;
    while i < v.len()
        invariant
            i <= v.len(),
            views(v@).len() == v.len(),
            forall|j: int| 0 <= j < v.len() ==> #[trigger] views(v@)[j] == v@[j]@,
            covers(acc@),
            disjoint_blocks(acc@),
            forall|j: int| 0 <= j < i ==> separates(acc@, #[trigger] views(v@)[j]),
        decreases v.len() - i,
    {
        let child = approx_deriv_classes(&v[i]);
        let next = cross(&acc, &child);
        proof {
            assert forall|j: int| 0 <= j < i + 1 implies separates(next@, #[trigger] views(v@)[j]) by {
                if j < i {
                    lemma_refines_separates(next@, acc@, views(v@)[j]);
                } else {
                    lemma_refines_separates(next@, child@, views(v@)[j]);
                }
            }
        }
        acc = next;
        i = i + 1;
    }
    acc
}

/// Blocks that separate the derivative of the concatenation of `v[start..]`: those of
/// the head, refined by those of the rest while the head is nullable.
fn approx_deriv_classes_cat(v: &Vec<RegEx>, start: usize) -> (blocks: Vec<ByteSet>)
    requires
        start < v.len(),
    ensures
        covers(blocks@),
        disjoint_blocks(blocks@),
        forall|k: int, b1: u8, b2: u8|
            0 <= k < blocks@.len() && (#[trigger] blocks@[k])@.contains(b1) && blocks@[k]@.contains(b2)
                ==> #[trigger] deriv_cat(views(v@).subrange(start as int, v.len() as int), b1)
                == #[trigger] deriv_cat(views(v@).subrange(start as int, v.len() as int), b2),
    decreases v, v.len() - start,
{
    let ghost cs = views(v@).subrange(start as int, v.len() as int);
    proof {
        lemma_views(v@);
        assert(cs[0] == v@[start as int]@);
        assert(cs.drop_first() =~= views(v@).subrange(start + 1, v.len() as int));
    }
    let head = approx_deriv_classes(&v[start]);
    if start + 1 < v.len() && v[start].is_nullable() {
        let rest = approx_deriv_classes_cat(v, start + 1);
        let blocks = cross(&head, &rest);
        proof {
            lemma_refines_separates(blocks@, head@, cs[0]);
            assert forall|k: int, b1: u8, b2: u8|
                0 <= k < blocks@.len() && (#[trigger] blocks@[k])@.contains(b1) && blocks@[k]@.contains(b2)
                    implies #[trigger] deriv_cat(cs, b1) == #[trigger] deriv_cat(cs, b2) by {
                assert(deriv(cs[0], b1) == deriv(cs[0], b2));
                let j = choose|j: int| 0 <= j < rest@.len() && blocks@[k]@.subset_of(rest@[j]@);
                assert(rest@[j]@.contains(b1) && rest@[j]@.contains(b2));
                assert(deriv_cat(cs.drop_first(), b1) == deriv_cat(cs.drop_first(), b2));
            }
        }
        blocks
    } else {
        proof {
            assert forall|k: int, b1: u8, b2: u8|
                0 <= k < head@.len() && (#[trigger] head@[k])@.contains(b1) && head@[k]@.contains(b2)
                    implies #[trigger] deriv_cat(cs, b1) == #[trigger] deriv_cat(cs, b2) by {
                assert(deriv(cs[0], b1) == deriv(cs[0], b2));
            }
        }
        head
    }
}


/// The derivative of each term of `q` by `b`.
pub open spec fn deriv_all(q: Seq<Term>, b: u8) -> Seq<Term> {
    Seq::new(q.len(), |i: int| deriv(q[i], b))
}

/// The derivatives of the terms of `q` by the bytes of `w`, taken byte by byte.
pub open spec fn deriv_seq_all(q: Seq<Term>, w: Seq<u8>) -> Seq<Term>
    decreases w.len(),
{
    if w.len() == 0 {
        q
    } else {
        deriv_seq_all(deriv_all(q, w[0]), w.drop_first())
    }
}

/// The index of the first nullable term of `q` from `k` on.
pub open spec fn first_nullable_from(q: Seq<Term>, k: int) -> Option<usize>
    decreases q.len() - k,
{
    if k < 0 || k >= q.len() {
        None
    } else if nullable(q[k]) {
        Some(k as usize)
    } else {
        first_nullable_from(q, k + 1)
    }
}

/// The index of the first nullable term of `q`: the accept class of a state.
pub open spec fn first_nullable(q: Seq<Term>) -> Option<usize> {
    first_nullable_from(q, 0)
}

/// The index of the first pattern that matches all of `w`.
pub open spec fn first_match(patterns: Seq<Term>, w: Seq<u8>) -> Option<usize> {
    first_nullable(Seq::new(patterns.len(), |k: int| deriv_seq(patterns[k], w)))
}

proof fn lemma_deriv_seq_all(q: Seq<Term>, w: Seq<u8>)
    ensures
        deriv_seq_all(q, w) == Seq::new(q.len(), |k: int| deriv_seq(q[k], w)),
    decreases w.len(),
{
    if w.len() == 0 {
        assert(deriv_seq_all(q, w) =~= Seq::new(q.len(), |k: int| deriv_seq(q[k], w)));
    } else {
        let d = deriv_all(q, w[0]);
        lemma_deriv_seq_all(d, w.drop_first());
        assert(deriv_seq_all(q, w) =~= Seq::new(q.len(), |k: int| deriv_seq(q[k], w)));
    }
}

/// No byte has two entries in a transition row.
pub open spec fn unique_keys(row: Seq<(u8, usize)>) -> bool {
    forall|e1: int, e2: int| 0 <= e1 < e2 < row.len() ==> (#[trigger] row[e1]).0 != (#[trigger] row[e2]).0
}

/// `b` lies in one of the first `k` blocks.
spec fn in_first(blocks: Seq<ByteSet>, k: int, b: u8) -> bool {
    exists|x: int| 0 <= x < k && blocks[x]@.contains(b)
}

/// `b` has an entry in a transition row.
pub open spec fn has_key(row: Seq<(u8, usize)>, b: u8) -> bool {
    exists|k: int| 0 <= k < row.len() && (#[trigger] row[k]).0 == b
}

/// A vector of expressions, one per pattern: the value that a state stands for.
struct RegExVec(Vec<RegEx>);

impl RegExVec {
    spec fn terms(&self) -> Seq<Term> {
        views(self.0@)
    }

    fn new(nodes: Vec<RegEx>) -> (r: Self)
        ensures
            r.terms() == views(nodes@),
    {
        RegExVec(nodes)
    }

    fn sink(size: usize) -> (r: Self)
        ensures
            r.terms() == Seq::new(size as nat, |i: int| Term::Void),
    {
        let mut v: Vec<RegEx> = Vec::new();
        let mut i: usize = 0;
        while i < size
            invariant
                i <= size,
                views(v@) == Seq::new(i as nat, |j: int| Term::Void),
            decreases size - i,
        {
            let ghost old_v = v@;
            let none = RegEx::none();
            v.push(none);
            proof {
                lemma_views(old_v);
                lemma_views(v@);
                assert forall|j: int| 0 <= j < i + 1 implies views(v@)[j] == Term::Void by {
                    if j < i {
                        assert(v@[j] == old_v[j]);
                        assert(views(old_v)[j] == Term::Void);
                    } else {
                        assert(v@[j] == none);
                    }
                }
                assert(views(v@) =~= Seq::new((i + 1) as nat, |j: int| Term::Void));
            }
            i = i + 1;
        }
        RegExVec(v)
    }

    fn deriv(&self, a: u8) -> (r: Self)
        ensures
            r.terms() == deriv_all(self.terms(), a),
    {
        let mut v: Vec<RegEx> = Vec::new();
        let mut i: usize = 0;
        proof {
            lemma_views(self.0@);
        }
        while i < self.0.len()
            invariant
                i <= self.0.len(),
                views(self.0@).len() == self.0.len(),
                forall|j: int| 0 <= j < self.0.len() ==> #[trigger] views(self.0@)[j] == self.0@[j]@,
                views(v@) == deriv_all(self.terms(), a).subrange(0, i as int),
            decreases self.0.len() - i,
        {
            let ghost old_v = v@;
            v.push(self.0[i].deriv(a));
            proof {
                lemma_views(old_v);
                lemma_views(v@);
                assert(views(v@) =~= deriv_all(self.terms(), a).subrange(0, i + 1));
            }
            i = i + 1;
        }
        assert(deriv_all(self.terms(), a).subrange(0, i as int) =~= deriv_all(self.terms(), a));
        RegExVec(v)
    }

    fn class(&self) -> (r: Option<usize>)
        ensures
            r == first_nullable(self.terms()),
    {
        proof {
            lemma_views(self.0@);
        }
        let mut i: usize = 0;
        while i < self.0.len()
            invariant
                i <= self.0.len(),
                views(self.0@).len() == self.0.len(),
                forall|j: int| 0 <= j < self.0.len() ==> #[trigger] views(self.0@)[j] == self.0@[j]@,
                first_nullable(self.terms()) == first_nullable_from(self.terms(), i as int),
            decreases self.0.len() - i,
        {
            if self.0[i].is_nullable() {
                return Some(i);
            }
            i = i + 1;
        }
        None
    }

    fn same(&self, other: &Self) -> (r: bool)
        ensures
            r == (self.terms() == other.terms()),
    {
        proof {
            lemma_views(self.0@);
            lemma_views(other.0@);
        }
        if self.0.len() != other.0.len() {
            return false;
        }
        let mut i: usize = 0;
        while i < self.0.len()
            invariant
                i <= self.0.len(),
                self.0.len() == other.0.len(),
                views(self.0@).len() == self.0.len(),
                views(other.0@).len() == other.0.len(),
                forall|j: int| 0 <= j < self.0.len() ==> #[trigger] views(self.0@)[j] == self.0@[j]@,
                forall|j: int| 0 <= j < other.0.len() ==> #[trigger] views(other.0@)[j] == other.0@[j]@,
                forall|j: int| 0 <= j < i ==> #[trigger] self.terms()[j] == other.terms()[j],
            decreases self.0.len() - i,
        {
            if !(self.0[i] == other.0[i]) {
                assert(self.terms()[i as int] != other.terms()[i as int]);
                return false;
            }
            i = i + 1;
        }
        assert(self.terms() =~= other.terms());
        true
    }
}

proof fn lemma_deriv_all_block(blocks: Seq<ByteSet>, q: Seq<Term>, k: int, b: u8, c: u8)
    requires
        forall|i: int| 0 <= i < q.len() ==> separates(blocks, #[trigger] q[i]),
        0 <= k < blocks.len(),
        blocks[k]@.contains(b),
        blocks[k]@.contains(c),
    ensures
        deriv_all(q, b) == deriv_all(q, c),
{
    assert forall|i: int| 0 <= i < q.len() implies deriv_all(q, b)[i] == deriv_all(q, c)[i] by {
        assert(separates(blocks, q[i]));
        assert(deriv(q[i], b) == deriv(q[i], c));
    }
    assert(deriv_all(q, b) =~= deriv_all(q, c));
}

struct DFABuilder {
    states: Vec<State>,
    vecs: Vec<RegExVec>,
}

impl DFABuilder {
    /// Each state stands for the vector at its index: the sink for the all-`Void`
    /// vector, its class the first nullable pattern, and each transition leading to
    /// the derivative by its byte.
    spec fn inv(&self) -> bool {
        &&& self.states@.len() == self.vecs@.len()
        &&& self.states@.len() >= 1
        &&& forall|i: int| 0 <= i < self.vecs@.len() ==> (#[trigger] self.vecs@[i]).terms().len()
            == self.vecs@[0].terms().len()
        &&& self.vecs@[0].terms() == Seq::new(self.vecs@[0].terms().len(), |j: int| Term::Void)
        &&& self.states@[0].next@.len() == 0
        &&& self.states@[0].class is None
        &&& forall|i: int| 0 <= i < self.states@.len() ==> unique_keys(#[trigger] self.states@[i].next@)
        &&& forall|i: int| 0 <= i < self.states@.len() ==> (#[trigger] self.states@[i]).class
            == first_nullable(self.vecs@[i].terms())
        &&& forall|i: int, k: int|
            0 <= i < self.states@.len() && 0 <= k < self.states@[i].next@.len() ==> self.entry_ok(
                i,
                #[trigger] self.states@[i].next@[k],
            )
    }

    spec fn entry_ok(&self, i: int, e: (u8, usize)) -> bool {
        &&& e.1 < self.states@.len()
        &&& self.vecs@[e.1 as int].terms() == deriv_all(self.vecs@[i].terms(), e.0)
    }

    spec fn complete(&self, i: int) -> bool {
        forall|b: u8| #[trigger] has_key(self.states@[i].next@, b)
    }

    fn add_state(&mut self, q: &RegExVec) -> (idx: usize)
        requires
            old(self).inv(),
            q.terms().len() == old(self).vecs@[0].terms().len(),
        ensures
            final(self).inv(),
            idx == old(self).states@.len(),
            final(self).states@.len() == idx + 1,
            final(self).vecs@[idx as int].terms() == q.terms(),
            final(self).states@[idx as int].next@.len() == 0,
            forall|j: int| 0 <= j < idx ==> final(self).states@[j] == old(self).states@[j],
            forall|j: int| 0 <= j < idx ==> final(self).vecs@[j] == old(self).vecs@[j],
    {
        let idx = self.states.len();
        let class = q.class();
        let copy = RegExVec(q.0.clone());
        assert(copy.0@ =~= q.0@);
        self.vecs.push(copy);
        self.states.push(State::new(Vec::new(), class));
        proof {
            assert forall|i: int, k: int|
                0 <= i < self.states@.len() && 0 <= k < self.states@[i].next@.len() implies self.entry_ok(
                i,
                #[trigger] self.states@[i].next@[k],
            ) by {
                assert(old(self).entry_ok(i, old(self).states@[i].next@[k]));
            }
        }
        idx
    }

    fn find(&self, q: &RegExVec) -> (r: Option<usize>)
        ensures
            r matches Some(j) ==> j < self.vecs@.len() && self.vecs@[j as int].terms() == q.terms(),
            r is None ==> forall|j: int| 0 <= j < self.vecs@.len() ==> #[trigger] self.vecs@[j].terms() != q.terms(),
    {
        let mut j: usize = 0;
        while j < self.vecs.len()
            invariant
                j <= self.vecs@.len(),
                forall|x: int| 0 <= x < j ==> #[trigger] self.vecs@[x].terms() != q.terms(),
            decreases self.vecs.len() - j,
        {
            if self.vecs[j].same(q) {
                return Some(j);
            }
            j = j + 1;
        }
        None
    }

    /// Explores the state `i`, which stands for `q`: follows each block of bytes to
    /// the derivative, adding and exploring the states not met before, depth first.
    fn explore(&mut self, q: &RegExVec, i: usize)
        requires
            old(self).inv(),
            0 < i < old(self).states@.len(),
            old(self).vecs@[i as int].terms() == q.terms(),
            old(self).states@[i as int].next@.len() == 0,
        ensures
            final(self).inv(),
            final(self).states@.len() >= old(self).states@.len(),
            forall|j: int| 0 <= j < old(self).states@.len() ==> final(self).vecs@[j] == old(self).vecs@[j],
            forall|j: int|
                0 <= j < old(self).states@.len() && j != i ==> final(self).states@[j] == old(self).states@[j],
            final(self).complete(i as int),
            forall|j: int|
                old(self).states@.len() <= j < final(self).states@.len() ==> final(self).complete(j),
        decreases usize::MAX - old(self).states@.len(),
    {
        let blocks = approx_deriv_classes_vec(&q.0);
        let ghost start_len = self.states@.len();
        let ghost start_self = *self;
        let mut row: Vec<(u8, usize)> = Vec::new();
        let mut k: usize = 0;
        while k < blocks.len()
            invariant
                self.inv(),
                0 < i < start_len <= self.states@.len(),
                start_len == start_self.states@.len(),
                start_len == old(self).states@.len(),
                self.vecs@[i as int].terms() == q.terms(),
                self.states@[i as int].next@.len() == 0,
                self.states@[i as int].class == start_self.states@[i as int].class,
                covers(blocks@),
                forall|m: int| 0 <= m < q.terms().len() ==> separates(blocks@, #[trigger] q.terms()[m]),
                forall|j: int| 0 <= j < start_len ==> self.vecs@[j] == start_self.vecs@[j],
                forall|j: int| 0 <= j < start_len && j != i ==> self.states@[j] == start_self.states@[j],
                forall|j: int| start_len <= j < self.states@.len() ==> self.complete(j),
                k <= blocks@.len(),
                forall|x: int| 0 <= x < row@.len() ==> self.entry_ok(i as int, #[trigger] row@[x]),
                forall|b: u8, x: int| 0 <= x < k && #[trigger] blocks@[x]@.contains(b) ==> has_key(row@, b),
                disjoint_blocks(blocks@),
                unique_keys(row@),
                forall|e: int| 0 <= e < row@.len() ==> in_first(blocks@, k as int, (#[trigger] row@[e]).0),
            decreases blocks.len() - k,
        {
            let set = &blocks[k];
            let c = set.smallest().unwrap();
            let qc = q.deriv(c);
            let j = match self.find(&qc) {
                Some(j) => j,
                None => {
                    let ghost before = *self;
                    let j = self.add_state(&qc);
                    let ghost mid = *self;
                    let count = self.states.len();
                    assert(count == self.states@.len());
                    self.explore(&qc, j);
                    proof {
                        assert forall|x: int| 0 <= x < row@.len() implies self.entry_ok(i as int, #[trigger] row@[x]) by {
                            assert(before.entry_ok(i as int, row@[x]));
                            assert(self.vecs@[row@[x].1 as int] == mid.vecs@[row@[x].1 as int]);
                            assert(self.vecs@[i as int] == mid.vecs@[i as int]);
                        }
                        assert forall|j2: int| start_len <= j2 < self.states@.len() implies self.complete(j2) by {
                            if j2 < before.states@.len() {
                                assert(before.complete(j2));
                                assert(self.states@[j2] == mid.states@[j2]);
                            }
                        }
                    }
                    j
                },
            };
            proof {
                assert(self.vecs@[j as int].terms() == qc.terms());
            }
            let ghost row_before = row@;
            let mut v: u16 = 0;
            while v < 256
                invariant
                    v <= 256,
                    j < self.states@.len(),
                    self.inv(),
                    self.vecs@[j as int].terms() == deriv_all(q.terms(), c),
                    self.vecs@[i as int].terms() == q.terms(),
                    set@.contains(c),
                    *set == blocks@[k as int],
                    k < blocks@.len(),
                    forall|m: int| 0 <= m < q.terms().len() ==> separates(blocks@, #[trigger] q.terms()[m]),
                    row@.len() >= row_before.len(),
                    forall|x: int| 0 <= x < row_before.len() ==> row@[x] == row_before[x],
                    forall|x: int| 0 <= x < row@.len() ==> self.entry_ok(i as int, #[trigger] row@[x]),
                    forall|b: u8| b < v && set@.contains(b) ==> #[trigger] has_key(row@, b),
                    disjoint_blocks(blocks@),
                    unique_keys(row@),
                    forall|e: int| 0 <= e < row_before.len() ==> in_first(blocks@, k as int, (#[trigger] row_before[e]).0),
                    forall|e: int| row_before.len() <= e < row@.len() ==> (#[trigger] row@[e]).0 < v && set@.contains(row@[e].0),
                decreases 256 - v,
            {
                let b = v as u8;
                if set.contains(b) {
                    proof {
                        lemma_deriv_all_block(blocks@, q.terms(), k as int, b, c);
                    }
                    let ghost row_pre = row@;
                    row.push((b, j));
                    proof {
                        assert(row@[row@.len() - 1] == (b, j));
                        assert forall|e1: int, e2: int| 0 <= e1 < e2 < row@.len() implies (#[trigger] row@[e1]).0 != (#[trigger] row@[e2]).0 by {
                            if e2 == row@.len() - 1 {
                                assert(row@[e1] == row_pre[e1]);
                                if e1 < row_before.len() {
                                    assert(row_before[e1] == row_pre[e1]);
                                    assert(in_first(blocks@, k as int, row_before[e1].0));
                                    let x = choose|x: int| 0 <= x < k && blocks@[x]@.contains(row_before[e1].0);
                                    if row_before[e1].0 == b {
                                        assert(blocks@[k as int]@.contains(b));
                                    }
                                }
                            } else {
                                assert(row@[e1] == row_pre[e1]);
                                assert(row@[e2] == row_pre[e2]);
                            }
                        }
                        assert forall|e: int| row_before.len() <= e < row@.len() implies (#[trigger] row@[e]).0 < v + 1 && set@.contains(row@[e].0) by {
                            if e < row_pre.len() {
                                assert(row@[e] == row_pre[e]);
                            }
                        }
                        assert forall|b2: u8| b2 < v + 1 && set@.contains(b2) implies #[trigger] has_key(row@, b2) by {
                            if b2 < v {
                                assert(has_key(row_pre, b2));
                                let x = choose|x: int| 0 <= x < row_pre.len() && row_pre[x].0 == b2;
                                assert(row@[x] == row_pre[x]);
                            }
                        }
                    }
                }
                v = v + 1;
            }
            proof {
                assert forall|e: int| 0 <= e < row@.len() implies in_first(blocks@, k + 1, (#[trigger] row@[e]).0) by {
                    if e < row_before.len() {
                        assert(row@[e] == row_before[e]);
                        assert(in_first(blocks@, k as int, row_before[e].0));
                        let x = choose|x: int| 0 <= x < k && blocks@[x]@.contains(row_before[e].0);
                    } else {
                        assert(blocks@[k as int]@.contains(row@[e].0));
                    }
                }
                assert forall|b: u8, x: int| 0 <= x < k + 1 && #[trigger] blocks@[x]@.contains(b) implies has_key(row@, b) by {
                    if x < k {
                        assert(has_key(row_before, b));
                        let y = choose|y: int| 0 <= y < row_before.len() && row_before[y].0 == b;
                        assert(row@[y] == row_before[y]);
                    } else {
                        assert(b < 256);
                    }
                }
            }
            k = k + 1;
        }
        let class = self.states[i].class;
        let ghost pre = *self;
        self.states[i] = State::new(row, class);
        proof {
            assert forall|ii: int| 0 <= ii < self.states@.len() implies unique_keys(#[trigger] self.states@[ii].next@) by {
                if ii != i {
                    assert(self.states@[ii] == pre.states@[ii]);
                }
            }
            assert forall|ii: int, kk: int|
                0 <= ii < self.states@.len() && 0 <= kk < self.states@[ii].next@.len() implies self.entry_ok(
                ii,
                #[trigger] self.states@[ii].next@[kk],
            ) by {
                if ii != i {
                    assert(pre.entry_ok(ii, pre.states@[ii].next@[kk]));
                }
            }
            assert forall|b: u8| #[trigger] has_key(self.states@[i as int].next@, b) by {
                assert(in_some(blocks@, b));
                let x = choose|x: int| 0 <= x < blocks@.len() && blocks@[x]@.contains(b);
            }
            assert forall|j: int| start_len <= j < self.states@.len() implies self.complete(j) by {
                assert(pre.complete(j));
                assert(self.states@[j] == pre.states@[j]);
            }
        }
    }
}


/// Where each transition leads to the derivative of the vector of its source, each
/// run leads to the derivative by the whole input.
proof fn lemma_run_tracks(d: DFA, vs: Seq<Seq<Term>>, s: int, w: Seq<u8>)
    requires
        d.wf(),
        vs.len() == d@.len(),
        0 <= s < d@.len(),
        forall|s2: int, b: u8|
            0 <= s2 < d@.len() ==> vs[#[trigger] d.next_state(s2, b)] == deriv_all(vs[s2], b),
    ensures
        vs[d.run(s, w)] == deriv_seq_all(vs[s], w),
    decreases w.len(),
{
    if w.len() > 0 {
        d.lemma_next_in_range(s, w[0]);
        lemma_run_tracks(d, vs, d.next_state(s, w[0]), w.drop_first());
    }
}

impl DFABuilder {
    /// Builds the automaton of `start`: state 0 is the sink, state 1 the start.
    fn build(start: &RegExVec) -> (r: DFA)
        ensures
            r.wf(),
            forall|w: Seq<u8>| r.accepts(w) == first_nullable(deriv_seq_all(start.terms(), w)),
    {
        proof {
            lemma_views(start.0@);
        }
        let states = vec![State::sink()];
        let vecs = vec![RegExVec::sink(start.0.len())];
        let mut builder = DFABuilder { states, vecs };
        proof {
            let q0 = builder.vecs@[0].terms();
            assert forall|j: int| 0 <= j < q0.len() implies !nullable(#[trigger] q0[j]) by {}
            lemma_first_nullable_none(q0, 0);
            assert(builder.states@[0].class == first_nullable(builder.vecs@[0].terms()));
        }
        let one = builder.add_state(start);
        builder.explore(start, one);
        let dfa = DFA { states: builder.states };
        proof {
            let n = builder.states@.len();
            let vs = Seq::new(n, |i: int| builder.vecs@[i].terms());
            assert forall|i: int, k: int|
                0 <= i < dfa@.len() && 0 <= k < dfa@[i].next@.len() implies (#[trigger] dfa@[i].next@[k]).1
                < dfa@.len() by {
                assert(builder.entry_ok(i, builder.states@[i].next@[k]));
            }
            assert(dfa.wf());
            assert forall|s2: int, b: u8| 0 <= s2 < dfa@.len() implies vs[#[trigger] dfa.next_state(s2, b)]
                == deriv_all(vs[s2], b) by {
                let next = dfa@[s2].next@;
                lemma_lookup(next, b);
                if s2 == 0 {
                    assert(deriv_all(vs[0], b) =~= vs[0]);
                } else {
                    assert(builder.complete(s2));
                    assert(has_key(next, b));
                    let k = choose|k: int| 0 <= k < next.len() && next[k].0 == b && next[k].1 == lookup(next, b);
                    assert(builder.entry_ok(s2, builder.states@[s2].next@[k]));
                }
            }
            assert forall|w: Seq<u8>| dfa.accepts(w) == first_nullable(deriv_seq_all(start.terms(), w)) by {
                lemma_run_tracks(dfa, vs, 1, w);
                dfa.lemma_run_in_range(1, w);
            }
        }
        dfa
    }
}

proof fn lemma_first_nullable_none(q: Seq<Term>, k: int)
    requires
        0 <= k <= q.len(),
        forall|j: int| 0 <= j < q.len() ==> !nullable(#[trigger] q[j]),
    ensures
        first_nullable_from(q, k) is None,
    decreases q.len() - k,
{
    if k < q.len() {
        lemma_first_nullable_none(q, k + 1);
    }
}

impl DFA {
    /// Builds the automaton of a vector of patterns. The class of the state that an
    /// input leads to is the index of the first pattern that matches all of it.
    pub fn from(patterns: &[RegEx]) -> (r: DFA)
        ensures
            r.wf(),
            forall|w: Seq<u8>| #[trigger] r.accepts(w) == first_match(views(patterns@), w),
    {
        let mut v: Vec<RegEx> = Vec::new();
        let mut i: usize = 0;
        while i < patterns.len()
            invariant
                i <= patterns@.len(),
                v@ == patterns@.subrange(0, i as int),
            decreases patterns.len() - i,
        {
            v.push(patterns[i].clone());
            assert(v@ =~= patterns@.subrange(0, i + 1));
            i = i + 1;
        }
        assert(v@ =~= patterns@);
        let start = RegExVec::new(v);
        let r = DFABuilder::build(&start);
        proof {
            assert forall|w: Seq<u8>| #[trigger] r.accepts(w) == first_match(views(patterns@), w) by {
                lemma_deriv_seq_all(views(patterns@), w);
            }
        }
        r
    }
}

impl DFA {
    /// The automaton with the fewest states that gives every input the same class.
    pub fn minimize(&self) -> (r: DFA)
        requires
            self.wf(),
        ensures
            r.wf(),
            forall|w: Seq<u8>| #[trigger] r.accepts(w) == self.accepts(w),
            forall|i: int, k: int|
                0 <= i < r@.len() && 0 <= k < r@[i].next@.len() ==> 1 <= (#[trigger] r@[i].next@[k]).1,
            self.distinguishable(0, 1) ==> forall|i: int, j: int|
                0 <= i < r@.len() && 0 <= j < r@.len() && i != j ==> #[trigger] r.distinguishable(i, j),
    {
        hopcroft::minimize(self)
    }
}

} // verus!
