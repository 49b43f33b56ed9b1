use vstd::prelude::*;

use crate::dfa::DFA;
use crate::scan::table_run;

verus! {

/// The state from which a scan starts.
pub const START_STATE: usize = 0;

/// A transition table for the scanner. The states are `0..=sink()`: `START_STATE` is
/// the start and `sink()` the sink, which has no class and no row.
pub trait LexTable {
    /// The number of the sink.
    spec fn spec_sink(&self) -> usize;

    /// The transition function on the states below the sink.
    spec fn spec_step(&self, state: usize, symbol: u8) -> usize;

    /// The accept class of a state.
    spec fn spec_class(&self, state: usize) -> Option<usize>;

    /// Every transition stays within `0..=sink()`, the sink has no class, and the start
    /// is a state below the sink without a class.
    spec fn table_wf(&self) -> bool;

    /// What a well-formed table guarantees.
    proof fn lemma_table_wf(&self)
        requires
            self.table_wf(),
        ensures
            START_STATE < self.spec_sink(),
            self.spec_class(START_STATE) is None,
            self.spec_class(self.spec_sink()) is None,
            forall|s: usize, b: u8| s < self.spec_sink() ==> #[trigger] self.spec_step(s, b) <= self.spec_sink();

    fn step(&self, state: usize, symbol: u8) -> (r: usize)
        requires
            self.table_wf(),
            state < self.spec_sink(),
        ensures
            r == self.spec_step(state, symbol),
            r <= self.spec_sink();

    fn class(&self, state: usize) -> (r: Option<usize>)
        requires
            self.table_wf(),
            state <= self.spec_sink(),
        ensures
            r == self.spec_class(state);

    fn sink(&self) -> (r: usize)
        requires
            self.table_wf(),
        ensures
            r == self.spec_sink();
}

/// The table as a dense array: row `s` holds the 256 successors of state `s`.
pub struct NaiveLexTable {
    next: Vec<usize>,
    classes: Vec<Option<usize>>,
}

/// The table number of a state of the automaton: its sink (0) becomes the last
/// state, `n - 1`, and each other state moves down by one.
pub open spec fn table_index(d: int, n: int) -> int {
    if d == 0 {
        n - 1
    } else {
        d - 1
    }
}

impl NaiveLexTable {
    /// The successor of `state` on `symbol`.
    pub closed spec fn entry(&self, state: int, symbol: u8) -> usize {
        self.next@[256 * state + symbol]
    }

    /// The class of `state`.
    pub closed spec fn class_of(&self, state: int) -> Option<usize> {
        self.classes@[state]
    }

    /// The number of states below the sink.
    pub closed spec fn rows(&self) -> int {
        self.classes@.len() - 1
    }

    /// Flattens an automaton: its state `d > 0` becomes row `d - 1` and its sink the
    /// last state.
    pub fn new(dfa: &DFA) -> (r: Self)
        requires
            dfa.wf(),
            dfa.class_at(1) is None,
            256 * dfa@.len() <= usize::MAX,
        ensures
            flattened(r, *dfa),
    {
        let states = dfa.states();
        let nrows = states.len() - 1;
        let mut next: Vec<usize> = Vec::new();
        let mut k: usize = 0;
        while k < 256 * nrows
            invariant
                nrows == dfa@.len() - 1,
                256 * dfa@.len() <= usize::MAX,
                k <= 256 * nrows,
                next@.len() == k,
                forall|j: int| 0 <= j < k ==> #[trigger] next@[j] == nrows,
            decreases 256 * nrows - k,
        {
            next.push(nrows);
            k = k + 1;
        }
        let mut i: usize = 1;
        while i < states.len()
            invariant
                states@ == dfa@,
                dfa.wf(),
                nrows == dfa@.len() - 1,
                256 * dfa@.len() <= usize::MAX,
                1 <= i <= dfa@.len(),
                next@.len() == 256 * nrows,
                forall|s: int, b: u8| 1 <= s < i ==> #[trigger] next@[256 * (s - 1) + b] == table_index(
                    dfa.next_state(s, b),
                    dfa@.len() as int,
                ),
                forall|s: int, b: u8| i <= s < dfa@.len() ==> #[trigger] next@[256 * (s - 1) + b] == nrows,
            decreases states.len() - i,
        {
            let row = &states[i].next;
            let base = 256 * (i - 1);
            let mut e: usize = 0;
            while e < row.len()
                invariant
                    states@ == dfa@,
                    dfa.wf(),
                    nrows == dfa@.len() - 1,
                    256 * dfa@.len() <= usize::MAX,
                    1 <= i < dfa@.len(),
                    base == 256 * (i - 1),
                    row@ == dfa@[i as int].next@,
                    e <= row@.len(),
                    next@.len() == 256 * nrows,
                    forall|s: int, b: u8| 1 <= s < i ==> #[trigger] next@[256 * (s - 1) + b] == table_index(
                        dfa.next_state(s, b),
                        dfa@.len() as int,
                    ),
                    forall|s: int, b: u8| i < s < dfa@.len() ==> #[trigger] next@[256 * (s - 1) + b] == nrows,
                    forall|b: u8| #[trigger] next@[base + b] == table_index(
                        crate::dfa::lookup(row@.subrange(0, e as int), b) as int,
                        dfa@.len() as int,
                    ),
                decreases row.len() - e,
            {
                let (symbol, dest) = row[e];
                assert(dest < dfa@.len()) by {
                    assert(dfa@[i as int].next@[e as int].1 < dfa@.len());
                }
                let target = if dest == 0 {
                    nrows
                } else {
                    dest - 1
                };
                let ghost before = next@;
                next.set(base + symbol as usize, target);
                proof {
                    let pre = row@.subrange(0, e + 1);
                    assert(pre.drop_last() =~= row@.subrange(0, e as int));
                    assert(pre.last() == (symbol, dest));
                    assert forall|s: int, b: u8| 1 <= s < i implies #[trigger] next@[256 * (s - 1) + b] == table_index(
                        dfa.next_state(s, b),
                        dfa@.len() as int,
                    ) by {
                        assert(256 * (s - 1) + b < base);
                        assert(next@[256 * (s - 1) + b] == before[256 * (s - 1) + b]);
                    }
                    assert forall|s: int, b: u8| i < s < dfa@.len() implies #[trigger] next@[256 * (s - 1) + b] == nrows by {
                        assert(256 * (s - 1) + b >= base + 256);
                        assert(next@[256 * (s - 1) + b] == before[256 * (s - 1) + b]);
                    }
                    assert forall|b: u8| #[trigger] next@[base + b] == table_index(
                        crate::dfa::lookup(row@.subrange(0, e + 1), b) as int,
                        dfa@.len() as int,
                    ) by {
                        if b != symbol {
                            assert(next@[base + b] == before[base + b]);
                        }
                    }
                }
                e = e + 1;
            }
            proof {
                assert(row@.subrange(0, row@.len() as int) =~= row@);
            }
            i = i + 1;
        }
        let mut classes: Vec<Option<usize>> = Vec::new();
        let mut i: usize = 1;
        while i < states.len()
            invariant
                states@ == dfa@,
                1 <= i <= dfa@.len(),
                classes@.len() == i - 1,
                forall|s: int| 1 <= s < i ==> #[trigger] classes@[s - 1] == dfa.class_at(s),
            decreases states.len() - i,
        {
            classes.push(states[i].class);
            i = i + 1;
        }
        let ghost before = classes@;
        assert(before[1 - 1] == dfa.class_at(1));
        classes.push(None);
        assert(classes@[0] == before[0]);
        let count = classes.len();
        let r = NaiveLexTable { next, classes };
        proof {
            let n = dfa@.len() as int;
            assert forall|i: usize, b: u8| i < r.spec_sink() implies #[trigger] r.spec_step(i, b) as int
                == table_index(dfa.next_state(i + 1, b), n) by {
                let s = i + 1;
                assert(r.spec_step(i, b) == r.next@[256 * (s - 1) + b]);
            }
            assert forall|i: usize| i < r.spec_sink() implies #[trigger] r.spec_class(i) == dfa.class_at(i + 1) by {
                let s = i + 1;
                assert(r.spec_class(i) == r.classes@[s - 1]);
            }
            assert forall|j: int| 0 <= j < r.next@.len() implies #[trigger] r.next@[j] < r.classes@.len() by {
                let s = j / 256 + 1;
                let b = (j % 256) as u8;
                assert(j == 256 * (s - 1) + b);
                dfa.lemma_next_in_range(s, b);
            }
        }
        r
    }
}

impl NaiveLexTable {
    /// Flattens an automaton, or returns `None` where its start state accepts (a token
    /// could then be empty) or where the table would not fit in memory.
    pub fn try_new(dfa: &DFA) -> (r: Option<Self>)
        requires
            dfa.wf(),
        ensures
            r is Some <==> (dfa.class_at(1) is None && 256 * dfa@.len() <= usize::MAX),
            r matches Some(t) ==> flattened(t, *dfa),
    {
        let n = dfa.states().len();
        if n > usize::MAX / 256 {
            return None;
        }
        if dfa.class(1).is_some() {
            return None;
        }
        Some(NaiveLexTable::new(dfa))
    }
}

impl LexTable for NaiveLexTable {
    closed spec fn spec_sink(&self) -> usize {
        (self.classes@.len() - 1) as usize
    }

    closed spec fn spec_step(&self, state: usize, symbol: u8) -> usize {
        self.next@[256 * state + symbol]
    }

    closed spec fn spec_class(&self, state: usize) -> Option<usize> {
        self.classes@[state as int]
    }

    closed spec fn table_wf(&self) -> bool {
        &&& 2 <= self.classes@.len() <= usize::MAX
        &&& self.next@.len() == 256 * (self.classes@.len() - 1)
        &&& forall|j: int| 0 <= j < self.next@.len() ==> #[trigger] self.next@[j] < self.classes@.len()
        &&& self.classes@[self.classes@.len() - 1] is None
        &&& self.classes@[0] is None
    }

    proof fn lemma_table_wf(&self) {
        assert forall|s: usize, b: u8| s < self.spec_sink() implies #[trigger] self.spec_step(s, b) <= self.spec_sink() by {
            let rows = self.classes@.len() - 1;
            assert(256 * s + b < 256 * rows) by (nonlinear_arith)
                requires
                    s < rows,
                    b < 256,
            ;
        }
    }

    fn step(&self, state: usize, symbol: u8) -> (r: usize) {
        let rows = self.classes.len() - 1;
        let len = self.next.len();
        assert(256 * state + symbol < 256 * rows) by (nonlinear_arith)
            requires
                state < rows,
                symbol < 256,
        ;
        self.next[256 * state + symbol as usize]
    }

    fn class(&self, state: usize) -> (r: Option<usize>) {
        self.classes[state]
    }

    fn sink(&self) -> (r: usize) {
        self.classes.len() - 1
    }
}


/// A table flattened from an automaton: its rows and classes are those of the
/// automaton's states, with the sink last.
pub open spec fn flattened(table: NaiveLexTable, dfa: DFA) -> bool {
    &&& dfa.wf()
    &&& table.table_wf()
    &&& table.rows() == dfa@.len() - 1
    &&& forall|s: int, b: u8|
        1 <= s < dfa@.len() ==> #[trigger] table.entry(s - 1, b) == table_index(
            dfa.next_state(s, b),
            dfa@.len() as int,
        )
    &&& forall|s: int| 1 <= s < dfa@.len() ==> #[trigger] table.class_of(s - 1) == dfa.class_at(s)
    &&& table.class_of(dfa@.len() - 1) is None
    &&& table.spec_sink() == dfa@.len() - 1
    &&& forall|i: usize, b: u8|
        i < table.spec_sink() ==> #[trigger] table.spec_step(i, b) as int == table_index(
            dfa.next_state(i + 1, b),
            dfa@.len() as int,
        )
    &&& forall|i: usize| i < table.spec_sink() ==> #[trigger] table.spec_class(i) == dfa.class_at(i + 1)
    &&& table.spec_class(table.spec_sink()) is None
}

/// A scan of a flattened table follows the automaton: from the table state of an
/// automaton state, an input leads to the table state of where the automaton goes.
pub proof fn lemma_table_tracks(table: NaiveLexTable, dfa: DFA, s: int, w: Seq<u8>)
    requires
        flattened(table, dfa),
        0 <= s < dfa@.len(),
    ensures
        table_run(table, table_index(s, dfa@.len() as int) as usize, w) == table_index(
            dfa.run(s, w),
            dfa@.len() as int,
        ),
    decreases w.len(),
{
    let n = dfa@.len() as int;
    dfa.lemma_run_in_range(s, w);
    if w.len() > 0 {
        dfa.lemma_next_in_range(s, w[0]);
        if s == 0 {
            crate::dfa::lemma_lookup(dfa@[0].next@, w[0]);
            assert(dfa.next_state(0, w[0]) == 0);
            lemma_table_tracks(table, dfa, 0, w.drop_first());
        } else {
            assert(table.spec_step((s - 1) as usize, w[0]) == table.entry(s - 1, w[0]));
            lemma_table_tracks(table, dfa, dfa.next_state(s, w[0]), w.drop_first());
        }
    }
}

/// The class that a scan of a flattened table reaches by `w` from the start is the
/// class that the automaton gives `w`.
pub proof fn lemma_table_class(table: NaiveLexTable, dfa: DFA, w: Seq<u8>)
    requires
        flattened(table, dfa),
    ensures
        table.spec_class(table_run(table, START_STATE, w)) == dfa.accepts(w),
{
    lemma_table_tracks(table, dfa, 1, w);
    dfa.lemma_run_in_range(1, w);
    let d = dfa.run(1, w);
    if d >= 1 {
        assert(table.spec_class((d - 1) as usize) == table.class_of(d - 1));
    } else {
        assert(table.spec_class((dfa@.len() - 1) as usize) == table.class_of(dfa@.len() - 1));
    }
}

} // verus!
