use vstd::prelude::*;
use vstd::set_lib::{lemma_int_range, lemma_len_subset, set_int_range};

use super::{unique_keys, State, DFA};

verus! {

/// `id` occurs in `ids`.
spec fn occurs(ids: Seq<usize>, id: int) -> bool {
    exists|s: int| 0 <= s < ids.len() && ids[s] == id
}

/// Where every number below `c` occurs in `ids`, `c` is at most its length.
proof fn lemma_pigeonhole(ids: Seq<usize>, c: int)
    requires
        0 <= c,
        forall|id: int| 0 <= id < c ==> #[trigger] occurs(ids, id),
    ensures
        c <= ids.len(),
{
    let as_int = ids.map_values(|x: usize| x as int);
    as_int.lemma_cardinality_of_set();
    broadcast use vstd::seq_lib::seq_to_set_is_finite;
    lemma_int_range(0, c);
    assert forall|id: int| set_int_range(0, c).contains(id) implies as_int.to_set().contains(id) by {
        assert(occurs(ids, id));
        let s = choose|s: int| 0 <= s < ids.len() && ids[s] == id;
        assert(as_int[s] == id);
    }
    lemma_len_subset(set_int_range(0, c), as_int.to_set());
}

/// A partition of the states of an automaton into numbered blocks.
struct Partition {
    block_of: Vec<usize>,
    count: usize,
}

impl Partition {
    /// Some state lies in block `id`.
    spec fn used(&self, id: int) -> bool {
        occurs(self.block_of@, id)
    }

    /// The blocks are numbered `0..count`, none is empty, states of one block have
    /// one class, and states of different blocks are told apart by some input.
    spec fn inv(&self, dfa: &DFA) -> bool {
        &&& dfa.wf()
        &&& self.block_of@.len() == dfa@.len()
        &&& forall|s: int| 0 <= s < self.block_of@.len() ==> #[trigger] self.block_of@[s] < self.count
        &&& forall|id: int| 0 <= id < self.count ==> #[trigger] self.used(id)
        &&& forall|s: int, t: int|
            0 <= s < dfa@.len() && 0 <= t < dfa@.len() && #[trigger] self.block_of@[s]
                == #[trigger] self.block_of@[t] ==> dfa.class_at(s) == dfa.class_at(t)
        &&& forall|s: int, t: int|
            0 <= s < dfa@.len() && 0 <= t < dfa@.len() && #[trigger] self.block_of@[s]
                != #[trigger] self.block_of@[t] ==> dfa.distinguishable(s, t)
    }

    /// States of one block lead, on each byte, to states of one block.
    spec fn stable(&self, dfa: &DFA) -> bool {
        forall|s: int, t: int, b: u8|
            0 <= s < dfa@.len() && 0 <= t < dfa@.len() && self.block_of@[s] == self.block_of@[t]
                ==> #[trigger] self.block_of@[dfa.next_state(s, b)] == #[trigger] self.block_of@[dfa.next_state(t, b)]
    }

    proof fn lemma_count(&self, dfa: &DFA)
        requires
            self.inv(dfa),
        ensures
            self.count <= self.block_of@.len(),
    {
        assert forall|id: int| 0 <= id < self.count implies #[trigger] occurs(self.block_of@, id) by {
            assert(self.used(id));
        }
        lemma_pigeonhole(self.block_of@, self.count as int);
    }

    /// Splits block `p` in two: the states that `x` marks keep the number `p`, the
    /// others get the number `count`. Returns whether both parts are non-empty, and
    /// whether the marked part is no larger than the other.
    fn split(&mut self, dfa: &DFA, p: usize, x: &Vec<bool>) -> (r: (bool, bool))
        requires
            old(self).inv(dfa),
            p < old(self).count,
            x@.len() == dfa@.len(),
            forall|s: int, t: int|
                0 <= s < dfa@.len() && 0 <= t < dfa@.len() && old(self).block_of@[s] == p
                    && old(self).block_of@[t] == p && #[trigger] x@[s] && !#[trigger] x@[t]
                    ==> dfa.distinguishable(s, t),
        ensures
            final(self).inv(dfa),
            r.0 == exists|s: int, t: int|
                0 <= s < dfa@.len() && 0 <= t < dfa@.len() && old(self).block_of@[s] == p
                    && old(self).block_of@[t] == p && #[trigger] x@[s] && !#[trigger] x@[t],
            r.0 ==> final(self).count == old(self).count + 1,
            !r.0 ==> *final(self) == *old(self),
            forall|s: int| 0 <= s < dfa@.len() ==> #[trigger] final(self).block_of@[s] == if old(self).block_of@[s] == p && !x@[s] && r.0 {
                old(self).count
            } else {
                old(self).block_of@[s]
            },
    {
        let n = self.block_of.len();
        let mut n_in: usize = 0;
        let mut n_out: usize = 0;
        let ghost mut w_in: int = 0;
        let ghost mut w_out: int = 0;
        let mut s: usize = 0;
        while s < n
            invariant
                n == self.block_of@.len(),
                x@.len() == n,
                s <= n,
                n_in <= s && n_out <= s,
                n_in > 0 ==> 0 <= w_in < n && self.block_of@[w_in] == p && x@[w_in],
                n_out > 0 ==> 0 <= w_out < n && self.block_of@[w_out] == p && !x@[w_out],
                n_in == 0 ==> forall|t: int| 0 <= t < s && self.block_of@[t] == p ==> !x@[t],
                n_out == 0 ==> forall|t: int| 0 <= t < s && self.block_of@[t] == p ==> x@[t],
            decreases n - s,
        {
            if self.block_of[s] == p {
                if x[s] {
                    n_in = n_in + 1;
                    proof { w_in = s as int; }
                } else {
                    n_out = n_out + 1;
                    proof { w_out = s as int; }
                }
            }
            s = s + 1;
        }
        if n_in == 0 || n_out == 0 {
            return (false, false);
        }
        let ghost old_self = *self;
        let new_id = self.count;
        let mut s: usize = 0;
        while s < n
            invariant
                n == self.block_of@.len(),
                n == old_self.block_of@.len(),
                x@.len() == n,
                s <= n,
                new_id == old_self.count,
                self.count == old_self.count,
                forall|t: int| 0 <= t < s ==> #[trigger] self.block_of@[t] == if old_self.block_of@[t] == p && !x@[t] {
                    new_id
                } else {
                    old_self.block_of@[t]
                },
                forall|t: int| s <= t < n ==> #[trigger] self.block_of@[t] == old_self.block_of@[t],
            decreases n - s,
        {
            if self.block_of[s] == p && !x[s] {
                self.block_of.set(s, new_id);
            }
            s = s + 1;
        }
        proof {
            assert forall|id: int| 0 <= id < old_self.count + 1 implies #[trigger] occurs(self.block_of@, id) by {
                if id == p {
                    assert(self.block_of@[w_in] == id);
                } else if id == old_self.count {
                    assert(self.block_of@[w_out] == id);
                } else {
                    assert(old_self.used(id));
                    let t = choose|t: int| 0 <= t < n && old_self.block_of@[t] == id;
                    assert(self.block_of@[t] == id);
                }
            }
            lemma_pigeonhole(self.block_of@, old_self.count + 1);
        }
        self.count = new_id + 1;
        proof {
            assert forall|id: int| 0 <= id < self.count implies #[trigger] self.used(id) by {
                assert(occurs(self.block_of@, id));
            }
            assert forall|s1: int, t1: int|
                0 <= s1 < dfa@.len() && 0 <= t1 < dfa@.len() && #[trigger] self.block_of@[s1]
                    == #[trigger] self.block_of@[t1] implies dfa.class_at(s1) == dfa.class_at(t1) by {
                assert(old_self.block_of@[s1] == old_self.block_of@[t1]);
            }
            assert forall|s1: int, t1: int|
                0 <= s1 < dfa@.len() && 0 <= t1 < dfa@.len() && #[trigger] self.block_of@[s1]
                    != #[trigger] self.block_of@[t1] implies dfa.distinguishable(s1, t1) by {
                if old_self.block_of@[s1] == old_self.block_of@[t1] {
                    if x@[s1] {
                        assert(dfa.distinguishable(s1, t1));
                    } else {
                        let ws = choose|w: Seq<u8>|
                            #[trigger] dfa.class_at(dfa.run(t1, w)) != dfa.class_at(dfa.run(s1, w));
                        assert(dfa.class_at(dfa.run(s1, ws)) != dfa.class_at(dfa.run(t1, ws)));
                    }
                }
            }
        }
        (true, n_in <= n_out)
    }
}


/// The partition of the states by accept class, blocks numbered in order of their
/// smallest state.
fn coarse_partition(dfa: &DFA) -> (part: Partition)
    requires
        dfa.wf(),
    ensures
        part.inv(dfa),
{
    let n = dfa.states.len();
    let mut block_of: Vec<usize> = Vec::new();
    let mut count: usize = 0;
    let mut s: usize = 0;
    while s < n
        invariant
            n == dfa@.len(),
            dfa.wf(),
            s <= n,
            block_of@.len() == s,
            count <= s,
            forall|t: int| 0 <= t < s ==> #[trigger] block_of@[t] < count,
            forall|id: int| 0 <= id < count ==> #[trigger] occurs(block_of@, id),
            forall|t: int, u: int|
                0 <= t < s && 0 <= u < s ==> ((#[trigger] block_of@[t] == #[trigger] block_of@[u])
                    == (dfa.class_at(t) == dfa.class_at(u))),
        decreases n - s,
    {
        let class = dfa.class(s);
        let mut t: usize = 0;
        let mut found = false;
        while t < s && !found
            invariant
                n == dfa@.len(),
                s < n,
                t <= s,
                class == dfa.class_at(s as int),
                found ==> t < s && dfa.class_at(t as int) == class,
                !found ==> forall|u: int| 0 <= u < t ==> dfa.class_at(u) != class,
            decreases s - t + if found { 0int } else { 1int },
        {
            let same = match (dfa.class(t), class) {
                (Some(a), Some(b)) => a == b,
                (None, None) => true,
                _ => false,
            };
            if same {
                found = true;
            } else {
                t = t + 1;
            }
        }
        let ghost old_b = block_of@;
        let ghost old_count = count;
        if found {
            let id = block_of[t];
            block_of.push(id);
        } else {
            block_of.push(count);
            count = count + 1;
        }
        proof {
            assert forall|u: int| 0 <= u < s implies #[trigger] block_of@[u] == old_b[u] by {}
            assert forall|id: int| 0 <= id < count implies #[trigger] occurs(block_of@, id) by {
                if id < old_count {
                    assert(occurs(old_b, id));
                    let u = choose|u: int| 0 <= u < old_b.len() && old_b[u] == id;
                    assert(block_of@[u] == id);
                } else {
                    assert(block_of@[s as int] == id);
                }
            }
            assert forall|t1: int, u: int|
                0 <= t1 < s + 1 && 0 <= u < s + 1 implies ((#[trigger] block_of@[t1] == #[trigger] block_of@[u])
                    == (dfa.class_at(t1) == dfa.class_at(u))) by {
                if found {
                    assert(block_of@[s as int] == old_b[t as int]);
                }
            }
        }
        s = s + 1;
    }
    let part = Partition { block_of, count };
    proof {
        assert forall|id: int| 0 <= id < part.count implies #[trigger] part.used(id) by {
            assert(occurs(part.block_of@, id));
        }
        assert forall|s1: int, t1: int|
            0 <= s1 < dfa@.len() && 0 <= t1 < dfa@.len() && #[trigger] part.block_of@[s1]
                != #[trigger] part.block_of@[t1] implies dfa.distinguishable(s1, t1) by {
            let e = Seq::<u8>::empty();
            assert(dfa.class_at(dfa.run(s1, e)) != dfa.class_at(dfa.run(t1, e)));
        }
    }
    part
}

/// The bytes that occur in some transition, in ascending order.
fn alphabet(states: &[State]) -> (alph: Vec<u8>)
{
    let mut seen: Vec<bool> = Vec::new();
    let mut v: u16 = 0;
    while v < 256
        invariant
            v <= 256,
            seen@.len() == v,
        decreases 256 - v,
    {
        seen.push(false);
        v = v + 1;
    }
    let mut i: usize = 0;
    while i < states.len()
        invariant
            i <= states@.len(),
            seen@.len() == 256,
        decreases states.len() - i,
    {
        let next = &states[i].next;
        let mut k: usize = 0;
        while k < next.len()
            invariant
                k <= next@.len(),
                seen@.len() == 256,
            decreases next.len() - k,
        {
            seen.set(next[k].0 as usize, true);
            k = k + 1;
        }
        i = i + 1;
    }
    let mut alph: Vec<u8> = Vec::new();
    let mut v: u16 = 0;
    while v < 256
        invariant
            v <= 256,
            seen@.len() == 256,
        decreases 256 - v,
    {
        if seen[v as usize] {
            alph.push(v as u8);
        }
        v = v + 1;
    }
    alph
}

/// The number of states in block `id`.
fn block_size(part: &Partition, id: usize) -> (r: usize)
    ensures
        r <= part.block_of@.len(),
{
    let mut size: usize = 0;
    let mut s: usize = 0;
    while s < part.block_of.len()
        invariant
            s <= part.block_of@.len(),
            size <= s,
        decreases part.block_of.len() - s,
    {
        if part.block_of[s] == id {
            size = size + 1;
        }
        s = s + 1;
    }
    size
}

/// Every block but the largest (the last of the largest where several tie).
fn all_but_largest(part: &Partition) -> (waiting: Vec<usize>)
    ensures
        forall|k: int| 0 <= k < waiting@.len() ==> #[trigger] waiting@[k] < part.count,
{
    let mut argmax: usize = 0;
    let mut max: usize = 0;
    let mut id: usize = 0;
    while id < part.count
        invariant
            id <= part.count,
        decreases part.count - id,
    {
        let size = block_size(part, id);
        if size >= max {
            max = size;
            argmax = id;
        }
        id = id + 1;
    }
    let mut waiting: Vec<usize> = Vec::new();
    let mut id: usize = 0;
    while id < part.count
        invariant
            id <= part.count,
            forall|k: int| 0 <= k < waiting@.len() ==> #[trigger] waiting@[k] < part.count,
        decreases part.count - id,
    {
        if id != argmax {
            waiting.push(id);
        }
        id = id + 1;
    }
    waiting
}

/// Takes the last block number off the worklist.
fn take_some(waiting: &mut Vec<usize>) -> (w: usize)
    requires
        old(waiting)@.len() > 0,
    ensures
        final(waiting)@ == old(waiting)@.drop_last(),
        w == old(waiting)@.last(),
{
    waiting.pop().unwrap()
}

/// Whether the worklist holds block `p`.
fn waiting_has(waiting: &Vec<usize>, p: usize) -> bool {
    let mut k: usize = 0;
    while k < waiting.len()
        invariant
            k <= waiting@.len(),
        decreases waiting.len() - k,
    {
        if waiting[k] == p {
            return true;
        }
        k = k + 1;
    }
    false
}

/// Marks the states that lead into the marked set on `symbol`.
fn inverse(dfa: &DFA, marked: &Vec<bool>, symbol: u8) -> (x: Vec<bool>)
    requires
        dfa.wf(),
        marked@.len() == dfa@.len(),
    ensures
        x@.len() == dfa@.len(),
        forall|s: int| 0 <= s < dfa@.len() ==> #[trigger] x@[s] == marked@[dfa.next_state(s, symbol)],
{
    let mut x: Vec<bool> = Vec::new();
    let mut s: usize = 0;
    while s < dfa.states.len()
        invariant
            dfa.wf(),
            marked@.len() == dfa@.len(),
            s <= dfa@.len(),
            x@.len() == s,
            forall|t: int| 0 <= t < s ==> #[trigger] x@[t] == marked@[dfa.next_state(t, symbol)],
        decreases dfa@.len() - s,
    {
        proof {
            dfa.lemma_next_in_range(s as int, symbol);
        }
        let d = dfa.step(s, symbol);
        x.push(marked[d]);
        s = s + 1;
    }
    x
}

/// Partitions the states into the classes of states that no input tells apart.
fn equivalence_classes(dfa: &DFA) -> (part: Partition)
    requires
        dfa.wf(),
    ensures
        part.inv(dfa),
        part.stable(dfa),
{
    let n = dfa.states.len();
    let alph = alphabet(dfa.states.as_slice());
    let mut part = coarse_partition(dfa);
    let mut waiting = all_but_largest(&part);
    proof {
        part.lemma_count(dfa);
    }
    while waiting.len() > 0
        invariant
            n == dfa@.len(),
            part.inv(dfa),
            part.count <= n,
            forall|k: int| 0 <= k < waiting@.len() ==> #[trigger] waiting@[k] < part.count,
        decreases n - part.count, waiting@.len(),
    {
        let w = take_some(&mut waiting);
        let ghost len_after_take = waiting@.len();
        let ghost count_before = part.count;
        let mut in_w: Vec<bool> = Vec::new();
        let mut s: usize = 0;
        while s < n
            invariant
                n == dfa@.len(),
                part.inv(dfa),
                s <= n,
                in_w@.len() == s,
                forall|t: int| 0 <= t < s ==> #[trigger] in_w@[t] == (part.block_of@[t] == w),
            decreases n - s,
        {
            in_w.push(part.block_of[s] == w);
            s = s + 1;
        }
        proof {
            assert forall|a: int, b: int|
                0 <= a < n && 0 <= b < n && #[trigger] in_w@[a] && !#[trigger] in_w@[b] implies dfa.distinguishable(a, b) by {
                assert(part.block_of@[a] != part.block_of@[b]);
            }
        }
        let mut k: usize = 0;
        while k < alph.len()
            invariant
                n == dfa@.len(),
                part.inv(dfa),
                part.count <= n,
                part.count >= count_before,
                part.count == count_before ==> waiting@.len() == len_after_take,
                in_w@.len() == n,
                forall|a: int, b: int|
                    0 <= a < n && 0 <= b < n && #[trigger] in_w@[a] && !#[trigger] in_w@[b] ==> dfa.distinguishable(a, b),
                forall|j: int| 0 <= j < waiting@.len() ==> #[trigger] waiting@[j] < part.count,
            decreases alph.len() - k,
        {
            let x = inverse(dfa, &in_w, alph[k]);
            proof {
                assert forall|a: int, b: int|
                    0 <= a < n && 0 <= b < n && #[trigger] x@[a] && !#[trigger] x@[b] implies dfa.distinguishable(a, b) by {
                    dfa.lemma_next_in_range(a, alph@[k as int]);
                    dfa.lemma_next_in_range(b, alph@[k as int]);
                    assert(in_w@[dfa.next_state(a, alph@[k as int])]);
                    assert(!in_w@[dfa.next_state(b, alph@[k as int])]);
                    dfa.lemma_distinguishable_step(a, b, alph@[k as int]);
                }
            }
            let count0 = part.count;
            let mut p: usize = 0;
            while p < count0
                invariant
                    n == dfa@.len(),
                    part.inv(dfa),
                    part.count <= n,
                    part.count >= count0,
                    count0 >= count_before,
                    part.count == count_before ==> waiting@.len() == len_after_take,
                    x@.len() == n,
                    forall|a: int, b: int|
                        0 <= a < n && 0 <= b < n && #[trigger] x@[a] && !#[trigger] x@[b] ==> dfa.distinguishable(a, b),
                    forall|j: int| 0 <= j < waiting@.len() ==> #[trigger] waiting@[j] < part.count,
                decreases count0 - p,
            {
                let (did, inside_smaller) = part.split(dfa, p, &x);
                proof {
                    part.lemma_count(dfa);
                }
                if did {
                    let q = part.count - 1;
                    if waiting_has(&waiting, p) {
                        waiting.push(q);
                    } else if inside_smaller {
                        waiting.push(p);
                    } else {
                        waiting.push(q);
                    }
                }
                p = p + 1;
            }
            k = k + 1;
        }
    }
    stabilize(dfa, part)
}

/// The smallest state of each block.
fn representatives(part: &Partition, dfa: &DFA) -> (first: Vec<usize>)
    requires
        part.inv(dfa),
    ensures
        first@.len() == part.count,
        forall|id: int| 0 <= id < part.count ==> #[trigger] first@[id] < dfa@.len(),
        forall|id: int| 0 <= id < part.count ==> part.block_of@[#[trigger] first@[id] as int] == id,
        forall|id: int, s: int| 0 <= id < part.count && 0 <= s < #[trigger] first@[id] ==> #[trigger] part.block_of@[s] != id,
{
    let n = part.block_of.len();
    let mut first: Vec<usize> = Vec::new();
    let mut assigned: Vec<bool> = Vec::new();
    let mut id: usize = 0;
    while id < part.count
        invariant
            part.inv(dfa),
            n == dfa@.len(),
            id <= part.count,
            first@.len() == id,
            assigned@.len() == id,
            forall|j: int| 0 <= j < id ==> !#[trigger] assigned@[j],
        decreases part.count - id,
    {
        first.push(0);
        assigned.push(false);
        id = id + 1;
    }
    let mut s: usize = 0;
    while s < n
        invariant
            part.inv(dfa),
            n == dfa@.len(),
            s <= n,
            first@.len() == part.count,
            assigned@.len() == part.count,
            forall|j: int| 0 <= j < part.count && #[trigger] assigned@[j] ==> first@[j] < s && part.block_of@[first@[j] as int] == j,
            forall|j: int, t: int| 0 <= j < part.count && #[trigger] assigned@[j] && 0 <= t < first@[j] ==> #[trigger] part.block_of@[t] != j,
            forall|j: int, t: int| 0 <= j < part.count && !(#[trigger] assigned@[j]) && 0 <= t < s ==> #[trigger] part.block_of@[t] != j,
        decreases n - s,
    {
        let b = part.block_of[s];
        if !assigned[b] {
            let ghost old_first = first@;
            let ghost old_assigned = assigned@;
            first.set(b, s);
            assigned.set(b, true);
            proof {
                assert forall|j: int, t: int| 0 <= j < part.count && #[trigger] assigned@[j] && 0 <= t < first@[j] implies #[trigger] part.block_of@[t] != j by {
                    if j != b {
                        assert(old_assigned[j]);
                    }
                }
            }
        }
        s = s + 1;
    }
    proof {
        assert forall|j: int| 0 <= j < part.count implies #[trigger] assigned@[j] by {
            assert(part.used(j));
            assert(occurs(part.block_of@, j));
            let t = choose|t: int| 0 <= t < part.block_of@.len() && part.block_of@[t] == j;
            assert(part.block_of@[t] == j);
        }
        assert forall|id: int| 0 <= id < part.count implies #[trigger] first@[id] < dfa@.len()
            && part.block_of@[first@[id] as int] == id by {
            assert(assigned@[id]);
        }
        assert forall|id: int, t: int| 0 <= id < part.count && 0 <= t < #[trigger] first@[id] implies #[trigger] part.block_of@[t] != id by {
            assert(assigned@[id]);
        }
    }
    first
}

/// Splits blocks until the states of each block lead, on every byte, into one
/// block. After Hopcroft's refinement the first pass finds nothing to split.
fn stabilize(dfa: &DFA, part: Partition) -> (r: Partition)
    requires
        part.inv(dfa),
    ensures
        r.inv(dfa),
        r.stable(dfa),
{
    let n = dfa.states.len();
    let mut part = part;
    proof {
        part.lemma_count(dfa);
    }
    loop
        invariant
            n == dfa@.len(),
            part.inv(dfa),
            part.count <= n,
        decreases n - part.count,
    {
        let first = representatives(&part, dfa);
        let mut found = false;
        let mut fs: usize = 0;
        let mut fa: u8 = 0;
        let mut s: usize = 0;
        while s < n && !found
            invariant
                n == dfa@.len(),
                part.inv(dfa),
                s <= n,
                first@.len() == part.count,
                forall|id: int| 0 <= id < part.count ==> #[trigger] first@[id] < dfa@.len(),
                found ==> fs < n && part.block_of@[dfa.next_state(fs as int, fa)] != part.block_of@[dfa.next_state(first@[part.block_of@[fs as int] as int] as int, fa)],
                !found ==> forall|t: int, b: u8| 0 <= t < s ==> #[trigger] part.block_of@[dfa.next_state(t, b)] == part.block_of@[dfa.next_state(first@[part.block_of@[t] as int] as int, b)],
            decreases n - s, if found { 0int } else { 1int },
        {
            let rep = first[part.block_of[s]];
            let mut v: u16 = 0;
            while v < 256 && !found
                invariant
                    n == dfa@.len(),
                    part.inv(dfa),
                    s < n,
                    rep < n,
                    rep == first@[part.block_of@[s as int] as int],
                    v <= 256,
                    found ==> fs < n && part.block_of@[dfa.next_state(fs as int, fa)] != part.block_of@[dfa.next_state(first@[part.block_of@[fs as int] as int] as int, fa)],
                    !found ==> forall|b: u8| b < v ==> #[trigger] part.block_of@[dfa.next_state(s as int, b)] == part.block_of@[dfa.next_state(rep as int, b)],
                decreases 256 - v + if found { 0int } else { 1int },
            {
                proof {
                    dfa.lemma_next_in_range(s as int, v as u8);
                    dfa.lemma_next_in_range(rep as int, v as u8);
                }
                let ds = dfa.step(s, v as u8);
                let dr = dfa.step(rep, v as u8);
                if part.block_of[ds] != part.block_of[dr] {
                    found = true;
                    fs = s;
                    fa = v as u8;
                } else {
                    v = v + 1;
                }
            }
            if !found {
                proof {
                    assert forall|t: int, b: u8| 0 <= t < s + 1 implies #[trigger] part.block_of@[dfa.next_state(t, b)] == part.block_of@[dfa.next_state(first@[part.block_of@[t] as int] as int, b)] by {
                        if t == s {
                            assert(b < v);
                        }
                    }
                }
                s = s + 1;
            }
        }
        if !found {
            proof {
                assert forall|s1: int, t1: int, b: u8|
                    0 <= s1 < dfa@.len() && 0 <= t1 < dfa@.len() && part.block_of@[s1] == part.block_of@[t1]
                        implies #[trigger] part.block_of@[dfa.next_state(s1, b)] == #[trigger] part.block_of@[dfa.next_state(t1, b)] by {
                    assert(part.block_of@[dfa.next_state(s1, b)] == part.block_of@[dfa.next_state(first@[part.block_of@[s1] as int] as int, b)]);
                    assert(part.block_of@[dfa.next_state(t1, b)] == part.block_of@[dfa.next_state(first@[part.block_of@[t1] as int] as int, b)]);
                }
            }
            return part;
        }
        let b = part.block_of[fs];
        let rep = first[b];
        proof {
            dfa.lemma_next_in_range(fs as int, fa);
            dfa.lemma_next_in_range(rep as int, fa);
        }
        let target = part.block_of[dfa.step(fs, fa)];
        let mut marked: Vec<bool> = Vec::new();
        let mut t: usize = 0;
        while t < n
            invariant
                n == dfa@.len(),
                part.inv(dfa),
                t <= n,
                marked@.len() == t,
                forall|u: int| 0 <= u < t ==> #[trigger] marked@[u] == (part.block_of@[dfa.next_state(u, fa)] == target),
            decreases n - t,
        {
            proof {
                dfa.lemma_next_in_range(t as int, fa);
            }
            marked.push(part.block_of[dfa.step(t, fa)] == target);
            t = t + 1;
        }
        proof {
            assert forall|a: int, c: int|
                0 <= a < n && 0 <= c < n && part.block_of@[a] == b && part.block_of@[c] == b && #[trigger] marked@[a] && !#[trigger] marked@[c]
                    implies dfa.distinguishable(a, c) by {
                dfa.lemma_next_in_range(a, fa);
                dfa.lemma_next_in_range(c, fa);
                assert(part.block_of@[dfa.next_state(a, fa)] != part.block_of@[dfa.next_state(c, fa)]);
                dfa.lemma_distinguishable_step(a, c, fa);
            }
            assert(marked@[fs as int]);
            assert(!marked@[rep as int]);
        }
        let (did, _) = part.split(dfa, b, &marked);
        proof {
            assert(did);
            part.lemma_count(dfa);
        }
    }
}

/// States of one block of a stable partition stay in one block along any input.
proof fn lemma_stable_run(part: &Partition, dfa: &DFA, s: int, t: int, w: Seq<u8>)
    requires
        part.inv(dfa),
        part.stable(dfa),
        0 <= s < dfa@.len(),
        0 <= t < dfa@.len(),
        part.block_of@[s] == part.block_of@[t],
    ensures
        part.block_of@[dfa.run(s, w)] == part.block_of@[dfa.run(t, w)],
        0 <= dfa.run(s, w) < dfa@.len(),
        0 <= dfa.run(t, w) < dfa@.len(),
    decreases w.len(),
{
    dfa.lemma_run_in_range(s, w);
    dfa.lemma_run_in_range(t, w);
    if w.len() > 0 {
        dfa.lemma_next_in_range(s, w[0]);
        dfa.lemma_next_in_range(t, w[0]);
        assert(part.block_of@[dfa.next_state(s, w[0])] == part.block_of@[dfa.next_state(t, w[0])]);
        lemma_stable_run(part, dfa, dfa.next_state(s, w[0]), dfa.next_state(t, w[0]), w.drop_first());
    }
}

/// The sink of a well-formed automaton never leaves itself.
proof fn lemma_sink_run(dfa: &DFA, w: Seq<u8>)
    requires
        dfa.wf(),
    ensures
        dfa.run(0, w) == 0,
    decreases w.len(),
{
    if w.len() > 0 {
        super::lemma_lookup(dfa@[0].next@, w[0]);
        lemma_sink_run(dfa, w.drop_first());
    }
}

/// The quotient tracks the automaton: from the state of a block, an input leads to
/// the state of the block that it leads to.
proof fn lemma_quotient_run(r: &DFA, dfa: &DFA, part: &Partition, rank: Seq<usize>, s: int, w: Seq<u8>)
    requires
        dfa.wf(),
        r.wf(),
        part.inv(dfa),
        rank.len() == part.count,
        forall|t: int, b: u8| 0 <= t < dfa@.len() ==> #[trigger] r.next_state(rank[part.block_of@[t] as int] as int, b)
            == rank[part.block_of@[dfa.next_state(t, b)] as int],
        0 <= s < dfa@.len(),
    ensures
        r.run(rank[part.block_of@[s] as int] as int, w) == rank[part.block_of@[dfa.run(s, w)] as int],
    decreases w.len(),
{
    if w.len() > 0 {
        dfa.lemma_next_in_range(s, w[0]);
        lemma_quotient_run(r, dfa, part, rank, dfa.next_state(s, w[0]), w.drop_first());
    }
}

/// Builds the minimal automaton: one state per class of states that no input tells
/// apart, numbered in order of their smallest state, so that the sink's class comes
/// first and the start's second. Where the start cannot reach acceptance, the start
/// is a second sink.
pub fn minimize(dfa: &DFA) -> (r: DFA)
    requires
        dfa.wf(),
    ensures
        r.wf(),
        forall|w: Seq<u8>| #[trigger] r.accepts(w) == dfa.accepts(w),
        forall|i: int, k: int|
            0 <= i < r@.len() && 0 <= k < r@[i].next@.len() ==> 1 <= (#[trigger] r@[i].next@[k]).1,
        dfa.distinguishable(0, 1) ==> forall|i: int, j: int|
            0 <= i < r@.len() && 0 <= j < r@.len() && i != j ==> #[trigger] r.distinguishable(i, j),
{
    let n = dfa.states.len();
    let part = equivalence_classes(dfa);
    let first = representatives(&part, dfa);
    let mut rank: Vec<usize> = Vec::new();
    let mut b: usize = 0;
    while b < part.count
        invariant
            b <= part.count,
            rank@.len() == b,
        decreases part.count - b,
    {
        rank.push(0);
        b = b + 1;
    }
    let mut order: Vec<usize> = Vec::new();
    let mut s: usize = 0;
    while s < n
        invariant
            n == dfa@.len(),
            part.inv(dfa),
            s <= n,
            rank@.len() == part.count,
            first@.len() == part.count,
            forall|id: int| 0 <= id < part.count ==> #[trigger] first@[id] < dfa@.len(),
            forall|id: int| 0 <= id < part.count ==> part.block_of@[#[trigger] first@[id] as int] == id,
            forall|id: int, t: int| 0 <= id < part.count && 0 <= t < #[trigger] first@[id] ==> #[trigger] part.block_of@[t] != id,
            order@.len() <= s,
            forall|i: int| 0 <= i < order@.len() ==> #[trigger] order@[i] < part.count && rank@[order@[i] as int] == i
                && first@[order@[i] as int] < s,
            forall|id: int| 0 <= id < part.count && #[trigger] first@[id] < s ==> rank@[id] < order@.len()
                && order@[rank@[id] as int] == id,
            forall|i: int, j: int| 0 <= i < j < order@.len() ==> first@[#[trigger] order@[i] as int] < first@[#[trigger] order@[j] as int],
        decreases n - s,
    {
        let blk = part.block_of[s];
        if first[blk] == s {
            let ghost old_order = order@;
            rank.set(blk, order.len());
            order.push(blk);
            proof {
                assert forall|i: int| 0 <= i < order@.len() implies #[trigger] order@[i] < part.count && rank@[order@[i] as int] == i
                    && first@[order@[i] as int] < s + 1 by {
                    if i < old_order.len() {
                        assert(order@[i] == old_order[i]);
                        assert(order@[i] != blk);
                    }
                }
            }
        }
        s = s + 1;
    }
    let ghost m = order@.len();
    proof {
        assert(first@[part.block_of@[0] as int] == 0);
        assert(rank@[part.block_of@[0] as int] == 0) by {
            let k = rank@[part.block_of@[0] as int] as int;
            if k > 0 {
                assert(first@[order@[0] as int] < first@[order@[k] as int]);
            }
        }
        assert forall|t: int| 0 <= t < n implies #[trigger] rank@[part.block_of@[t] as int] < order@.len()
            && order@[rank@[part.block_of@[t] as int] as int] == part.block_of@[t] by {
            let id = part.block_of@[t] as int;
            assert(first@[id] <= t);
        }
    }
    if rank[part.block_of[1]] == 0 {
        let r = DFA::from_states(vec![State::sink(), State::sink()]);
        proof {
            assert(part.block_of@[1] == part.block_of@[0]);
            assert forall|w: Seq<u8>| #[trigger] r.accepts(w) == dfa.accepts(w) by {
                lemma_stable_run(&part, dfa, 1, 0, w);
                lemma_sink_run(dfa, w);
                lemma_sink_run(&r, w);
                if w.len() > 0 {
                    super::lemma_lookup(r@[1].next@, w[0]);
                    lemma_sink_run(&r, w.drop_first());
                }
            }
            if dfa.distinguishable(0, 1) {
                let w = choose|w: Seq<u8>| #[trigger] dfa.class_at(dfa.run(0, w)) != dfa.class_at(dfa.run(1, w));
                lemma_stable_run(&part, dfa, 1, 0, w);
            }
        }
        return r;
    }
    let mut states: Vec<State> = Vec::new();
    let mut i: usize = 0;
    while i < order.len()
        invariant
            n == dfa@.len(),
            dfa.wf(),
            part.inv(dfa),
            part.stable(dfa),
            m == order@.len(),
            i <= m,
            states@.len() == i,
            rank@.len() == part.count,
            first@.len() == part.count,
            forall|id: int| 0 <= id < part.count ==> #[trigger] first@[id] < dfa@.len(),
            forall|id: int| 0 <= id < part.count ==> part.block_of@[#[trigger] first@[id] as int] == id,
            forall|k: int| 0 <= k < m ==> #[trigger] order@[k] < part.count && rank@[order@[k] as int] == k,
            forall|t: int| 0 <= t < n ==> #[trigger] rank@[part.block_of@[t] as int] < m
                && order@[rank@[part.block_of@[t] as int] as int] == part.block_of@[t],
            i > 0 ==> states@[0].next@.len() == 0 && states@[0].class is None,
            forall|k: int, e: int| 0 <= k < i && 0 <= e < states@[k].next@.len() ==> (#[trigger] states@[k].next@[e]).1 < m
                && 1 <= states@[k].next@[e].1,
            forall|k: int| 0 <= k < i ==> unique_keys(#[trigger] states@[k].next@),
            forall|k: int| 1 <= k < i ==> (#[trigger] states@[k]).class == dfa.class_at(first@[order@[k] as int] as int),
            forall|k: int, v: u8| 1 <= k < i ==> #[trigger] lookup_of(states@[k].next@, v) == rank@[part.block_of@[dfa.next_state(first@[order@[k] as int] as int, v)] as int],
        decreases m - i,
    {
        if i == 0 {
            states.push(State::sink());
        } else {
            let rep = first[order[i]];
            let mut next: Vec<(u8, usize)> = Vec::new();
            let mut v: u16 = 0;
            while v < 256
                invariant
                    n == dfa@.len(),
                    dfa.wf(),
                    part.inv(dfa),
                    rep < n,
                    v <= 256,
                    rank@.len() == part.count,
                    forall|t: int| 0 <= t < n ==> #[trigger] rank@[part.block_of@[t] as int] < m,
                    forall|e1: int, e2: int| 0 <= e1 < e2 < next@.len() ==> (#[trigger] next@[e1]).0 < (#[trigger] next@[e2]).0,
                    forall|e: int| 0 <= e < next@.len() ==> (#[trigger] next@[e]).0 < v && next@[e].1 != 0 && next@[e].1 < m
                        && next@[e].1 == rank@[part.block_of@[dfa.next_state(rep as int, next@[e].0)] as int],
                    forall|c: u8| c < v ==> (#[trigger] has_key_of(next@, c) == (rank@[part.block_of@[dfa.next_state(rep as int, c)] as int] != 0)),
                decreases 256 - v,
            {
                proof {
                    dfa.lemma_next_in_range(rep as int, v as u8);
                }
                let d = rank[part.block_of[dfa.step(rep, v as u8)]];
                let ghost old_next = next@;
                if d != 0 {
                    next.push((v as u8, d));
                }
                proof {
                    assert forall|c: u8| c < v + 1 implies (#[trigger] has_key_of(next@, c) == (rank@[part.block_of@[dfa.next_state(rep as int, c)] as int] != 0)) by {
                        if c < v {
                            if has_key_of(old_next, c) {
                                let e = choose|e: int| 0 <= e < old_next.len() && old_next[e].0 == c;
                                assert(next@[e] == old_next[e]);
                            }
                            if has_key_of(next@, c) {
                                let e = choose|e: int| 0 <= e < next@.len() && next@[e].0 == c;
                                if e < old_next.len() {
                                    assert(next@[e] == old_next[e]);
                                }
                            }
                        } else {
                            if has_key_of(next@, c) {
                                let e = choose|e: int| 0 <= e < next@.len() && next@[e].0 == c;
                                if e < old_next.len() {
                                    assert(next@[e] == old_next[e]);
                                }
                            }
                            if d != 0 {
                                assert(next@[next@.len() - 1].0 == c);
                            }
                        }
                    }
                }
                v = v + 1;
            }
            proof {
                assert forall|c: u8| #[trigger] lookup_of(next@, c) == rank@[part.block_of@[dfa.next_state(rep as int, c)] as int] by {
                    super::lemma_lookup(next@, c);
                    assert(has_key_of(next@, c) == (rank@[part.block_of@[dfa.next_state(rep as int, c)] as int] != 0));
                    if has_key_of(next@, c) {
                        let e = choose|e: int| 0 <= e < next@.len() && next@[e].0 == c;
                    }
                }
            }
            let class = dfa.class(rep);
            states.push(State::new(next, class));
        }
        i = i + 1;
    }
    let r = DFA::from_states(states);
    proof {
        let rk = rank@;
        let b1 = part.block_of@[1] as int;
        assert(rk[b1] == 1) by {
            assert(first@[b1] <= 1);
            assert(first@[b1] != 0);
            let k = rk[b1] as int;
            if k >= 2 {
                assert(first@[order@[0] as int] < first@[order@[1] as int]);
                assert(first@[order@[1] as int] < first@[order@[k] as int]);
            }
        }
        assert(r.wf());
        assert forall|t: int, c: u8| 0 <= t < dfa@.len() implies #[trigger] r.next_state(rk[part.block_of@[t] as int] as int, c)
            == rk[part.block_of@[dfa.next_state(t, c)] as int] by {
            let k = rk[part.block_of@[t] as int] as int;
            let rep = first@[order@[k] as int] as int;
            assert(part.block_of@[rep] == part.block_of@[t]);
            assert(part.block_of@[dfa.next_state(rep, c)] == part.block_of@[dfa.next_state(t, c)]);
            if k == 0 {
                super::lemma_lookup(r@[0].next@, c);
                assert(part.block_of@[t] == part.block_of@[0]);
                assert(part.block_of@[dfa.next_state(0, c)] == part.block_of@[dfa.next_state(t, c)]);
                super::lemma_lookup(dfa@[0].next@, c);
            } else {
                assert(lookup_of(r@[k].next@, c) == rk[part.block_of@[dfa.next_state(rep, c)] as int]);
            }
        }
        assert forall|t: int| 0 <= t < dfa@.len() implies #[trigger] r.class_at(rk[part.block_of@[t] as int] as int)
            == dfa.class_at(t) by {
            let k = rk[part.block_of@[t] as int] as int;
            let rep = first@[order@[k] as int] as int;
            assert(part.block_of@[rep] == part.block_of@[t]);
            if k == 0 {
                assert(part.block_of@[t] == part.block_of@[0]);
            }
        }
        assert forall|w: Seq<u8>| #[trigger] r.accepts(w) == dfa.accepts(w) by {
            lemma_quotient_run(&r, dfa, &part, rk, 1, w);
            dfa.lemma_run_in_range(1, w);
        }
        assert forall|i1: int, j1: int|
            0 <= i1 < r@.len() && 0 <= j1 < r@.len() && i1 != j1 implies #[trigger] r.distinguishable(i1, j1) by {
            let si = first@[order@[i1] as int] as int;
            let sj = first@[order@[j1] as int] as int;
            assert(part.block_of@[si] != part.block_of@[sj]);
            assert(dfa.distinguishable(si, sj));
            let w = choose|w: Seq<u8>| #[trigger] dfa.class_at(dfa.run(si, w)) != dfa.class_at(dfa.run(sj, w));
            lemma_quotient_run(&r, dfa, &part, rk, si, w);
            lemma_quotient_run(&r, dfa, &part, rk, sj, w);
            dfa.lemma_run_in_range(si, w);
            dfa.lemma_run_in_range(sj, w);
            assert(r.class_at(r.run(i1, w)) != r.class_at(r.run(j1, w)));
        }
    }
    r
}

/// `lookup` of a transition row.
spec fn lookup_of(row: Seq<(u8, usize)>, b: u8) -> usize {
    super::lookup(row, b)
}

/// `b` has an entry in a transition row.
spec fn has_key_of(row: Seq<(u8, usize)>, b: u8) -> bool {
    super::has_key(row, b)
}

} // verus!
