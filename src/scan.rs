use std::ops::Range;
use vstd::prelude::*;

use crate::table::{LexTable, START_STATE};

verus! {

/// A token: the index of the pattern that it matches, and its span of the input.
#[derive(PartialEq, Eq, Debug)]
pub struct Token {
    pub class: usize,
    pub span: Range<usize>,
}

impl Clone for Token {
    fn clone(&self) -> (r: Self)
        ensures
            r.class == self.class,
            r.span.start == self.span.start,
            r.span.end == self.span.end,
    {
        Token { class: self.class, span: Range { start: self.span.start, end: self.span.end } }
    }
}

/// No token starts at `pos`.
#[derive(Debug)]
pub struct ScanError {
    pub pos: usize,
}

/// The state that `w` leads to from `state`; once at the sink (or beyond), the run
/// stays there.
pub open spec fn table_run<S: LexTable>(table: S, state: usize, w: Seq<u8>) -> usize
    decreases w.len(),
{
    if w.len() == 0 || state >= table.spec_sink() {
        state
    } else {
        table_run(table, table.spec_step(state, w[0]), w.drop_first())
    }
}

/// `input[p..k]` is a token: a non-empty span that leads from the start to a state
/// with a class.
pub open spec fn accepts_span<S: LexTable>(table: S, input: Seq<u8>, p: int, k: int) -> bool {
    &&& 0 <= p < k <= input.len()
    &&& table.spec_class(table_run(table, START_STATE, input.subrange(p, k))) is Some
}

/// `input[p..q]` is the longest token at `p`.
pub open spec fn longest_at<S: LexTable>(table: S, input: Seq<u8>, p: int, q: int) -> bool {
    &&& accepts_span(table, input, p, q)
    &&& forall|k: int| #[trigger] accepts_span(table, input, p, k) ==> k <= q
}

/// Some token starts at `p`.
pub open spec fn token_at<S: LexTable>(table: S, input: Seq<u8>, p: int) -> bool {
    exists|k: int| #[trigger] accepts_span(table, input, p, k)
}

/// The end of the longest token at `p`.
pub open spec fn longest_end<S: LexTable>(table: S, input: Seq<u8>, p: int) -> int {
    choose|q: int| longest_at(table, input, p, q)
}

/// The spans of the tokens that scanning `input` from `p` yields, one after another,
/// up to the end of the input or to a position where no token starts.
pub open spec fn token_spans<S: LexTable>(table: S, input: Seq<u8>, p: int) -> Seq<(int, int)>
    decreases input.len() - p,
{
    if p < 0 || p >= input.len() || !token_at(table, input, p) {
        Seq::empty()
    } else {
        let q = longest_end(table, input, p);
        if q <= p || q > input.len() {
            Seq::empty()
        } else {
            seq![(p, q)] + token_spans(table, input, q)
        }
    }
}

/// Where a scan from `p` stops: the end of the input, or the position of the error.
pub open spec fn scan_end<S: LexTable>(table: S, input: Seq<u8>, p: int) -> int
    decreases input.len() - p,
{
    if p < 0 || p >= input.len() || !token_at(table, input, p) {
        p
    } else {
        let q = longest_end(table, input, p);
        if q <= p || q > input.len() {
            p
        } else {
            scan_end(table, input, q)
        }
    }
}

/// The bytes of `input` that the spans cover, in order.
pub open spec fn covered(input: Seq<u8>, spans: Seq<(int, int)>) -> Seq<u8>
    decreases spans.len(),
{
    if spans.len() == 0 {
        Seq::empty()
    } else {
        input.subrange(spans[0].0, spans[0].1) + covered(input, spans.drop_first())
    }
}

/// The longest token at a position is unique.
proof fn lemma_longest_unique<S: LexTable>(table: S, input: Seq<u8>, p: int, q: int)
    requires
        longest_at(table, input, p, q),
    ensures
        longest_end(table, input, p) == q,
{
    let q2 = longest_end(table, input, p);
    assert(longest_at(table, input, p, q2));
    assert(q <= q2 && q2 <= q);
}

/// Tiling: the spans that a scan from `p` yields start at `p`, each where the last
/// ended, and together with the rest of the input from where the scan stops (an
/// error position, or the end) they reproduce `input[p..]`. Where the scan stops
/// before the end, no token starts there.
pub proof fn lemma_spans_tile<S: LexTable>(table: S, input: Seq<u8>, p: int)
    requires
        0 <= p <= input.len(),
    ensures
        p <= scan_end(table, input, p) <= input.len(),
        scan_end(table, input, p) < input.len() ==> !token_at(table, input, scan_end(table, input, p)),
        token_spans(table, input, p).len() > 0 ==> token_spans(table, input, p)[0].0 == p,
        forall|i: int| 0 <= i < token_spans(table, input, p).len() - 1 ==> (#[trigger] token_spans(table, input, p)[i]).1
            == token_spans(table, input, p)[i + 1].0,
        covered(input, token_spans(table, input, p)) + input.subrange(scan_end(table, input, p), input.len() as int)
            == input.subrange(p, input.len() as int),
    decreases input.len() - p,
{
    let sp = token_spans(table, input, p);
    if p >= input.len() || !token_at(table, input, p) {
        assert(covered(input, sp) =~= Seq::<u8>::empty());
        assert(Seq::<u8>::empty() + input.subrange(p, input.len() as int) =~= input.subrange(p, input.len() as int));
    } else {
        let k = choose|k: int| #[trigger] accepts_span(table, input, p, k);
        let q = longest_end(table, input, p);
        assert(exists|q1: int| longest_at(table, input, p, q1)) by {
            lemma_longest_exists(table, input, p, k);
        }
        assert(longest_at(table, input, p, q));
        assert(q > p);
        lemma_spans_tile(table, input, q);
        let rest = token_spans(table, input, q);
        assert(sp == seq![(p, q)] + rest);
        assert(sp[0] == (p, q));
        assert(sp.drop_first() =~= rest);
        assert forall|i: int| 0 <= i < sp.len() - 1 implies (#[trigger] sp[i]).1 == sp[i + 1].0 by {
            if i > 0 {
                assert(sp[i] == rest[i - 1]);
                assert(sp[i + 1] == rest[i]);
            } else if rest.len() > 0 {
                assert(sp[1] == rest[0]);
            }
        }
        let e = scan_end(table, input, q);
        assert(covered(input, sp) == input.subrange(p, q) + covered(input, rest));
        assert(input.subrange(p, q) + covered(input, rest) + input.subrange(e, input.len() as int)
            =~= input.subrange(p, q) + (covered(input, rest) + input.subrange(e, input.len() as int)));
        assert(input.subrange(p, q) + input.subrange(q, input.len() as int) =~= input.subrange(p, input.len() as int));
    }
}

/// Among finitely many token ends at `p`, there is a largest.
proof fn lemma_longest_exists<S: LexTable>(table: S, input: Seq<u8>, p: int, k: int)
    requires
        accepts_span(table, input, p, k),
    ensures
        exists|q: int| longest_at(table, input, p, q),
    decreases input.len() - k,
{
    if exists|k2: int| #[trigger] accepts_span(table, input, p, k2) && k2 > k {
        let k2 = choose|k2: int| #[trigger] accepts_span(table, input, p, k2) && k2 > k;
        lemma_longest_exists(table, input, p, k2);
    } else {
        assert(longest_at(table, input, p, k));
    }
}

/// A run over `u + v` is a run over `u`, then one over `v`.
pub proof fn lemma_run_concat<S: LexTable>(table: S, state: usize, u: Seq<u8>, v: Seq<u8>)
    ensures
        table_run(table, state, u + v) == table_run(table, table_run(table, state, u), v),
    decreases u.len(),
{
    if u.len() == 0 {
        assert(u + v =~= v);
    } else if state >= table.spec_sink() {
        lemma_run_stays(table, state, v);
        lemma_run_stays(table, state, u + v);
        lemma_run_stays(table, state, u);
    } else {
        assert((u + v).drop_first() =~= u.drop_first() + v);
        lemma_run_concat(table, table.spec_step(state, u[0]), u.drop_first(), v);
    }
}

/// A run that starts at the sink stays there.
pub proof fn lemma_run_stays<S: LexTable>(table: S, state: usize, w: Seq<u8>)
    requires
        state >= table.spec_sink(),
    ensures
        table_run(table, state, w) == state,
    decreases w.len(),
{
}

/// A run from a state within `0..=sink` stays within it.
pub proof fn lemma_run_bounded<S: LexTable>(table: S, state: usize, w: Seq<u8>)
    requires
        table.table_wf(),
        state <= table.spec_sink(),
    ensures
        table_run(table, state, w) <= table.spec_sink(),
    decreases w.len(),
{
    table.lemma_table_wf();
    if w.len() > 0 && state < table.spec_sink() {
        lemma_run_bounded(table, table.spec_step(state, w[0]), w.drop_first());
    }
}

/// A maximal-munch scanner over an input.
pub struct Scan<'a, S> {
    table: &'a S,
    input: &'a [u8],
    index: usize,
}

impl<'a, S: LexTable> Scan<'a, S> {
    /// The table.
    pub closed spec fn table(&self) -> S {
        *self.table
    }

    /// The input.
    pub closed spec fn input(&self) -> Seq<u8> {
        self.input@
    }

    /// Where the next token starts; at or past the end once the scan is over.
    pub closed spec fn position(&self) -> usize {
        self.index
    }

    /// A scan of `input` from its start.
    pub fn new(table: &'a S, input: &'a [u8]) -> (r: Self)
        ensures
            r.table() == *table,
            r.input() == input@,
            r.position() == 0,
    {
        Scan { table, input, index: 0 }
    }

    /// The next token: the longest token at the current position, whose class is that
    /// of the state it leads to. Where no token starts there, a `ScanError` at that
    /// position, after which the scan is over. `None` at the end of the input.
    pub fn next(&mut self) -> (r: Option<Result<Token, ScanError>>)
        requires
            old(self).table().table_wf(),
        ensures
            final(self).table() == old(self).table(),
            final(self).input() == old(self).input(),
            old(self).position() >= old(self).input().len() ==> r is None && final(self).position()
                == old(self).position(),
            old(self).position() < old(self).input().len() && token_at(
                old(self).table(),
                old(self).input(),
                old(self).position() as int,
            ) ==> (r matches Some(Ok(t)) && t.span.start == old(self).position() && t.span.end
                == final(self).position() && longest_at(
                old(self).table(),
                old(self).input(),
                t.span.start as int,
                t.span.end as int,
            ) && Some(t.class) == old(self).table().spec_class(
                table_run(
                    old(self).table(),
                    START_STATE,
                    old(self).input().subrange(t.span.start as int, t.span.end as int),
                ),
            )),
            old(self).position() < old(self).input().len() && !token_at(
                old(self).table(),
                old(self).input(),
                old(self).position() as int,
            ) ==> (r matches Some(Err(e)) && e.pos == old(self).position() && final(self).position()
                >= final(self).input().len()),
            old(self).position() < old(self).input().len() && token_at(
                old(self).table(),
                old(self).input(),
                old(self).position() as int,
            ) ==> token_spans(old(self).table(), old(self).input(), old(self).position() as int) == seq![
                (old(self).position() as int, final(self).position() as int),
            ] + token_spans(old(self).table(), old(self).input(), final(self).position() as int),
            old(self).position() < old(self).input().len() && !token_at(
                old(self).table(),
                old(self).input(),
                old(self).position() as int,
            ) ==> scan_end(old(self).table(), old(self).input(), old(self).position() as int)
                == old(self).position(),
    {
        let p = self.index;
        let len = self.input.len();
        if p >= len {
            return None;
        }
        let table = self.table;
        let input = self.input;
        let ghost t = *table;
        let ghost w = input@;
        proof {
            t.lemma_table_wf();
        }
        let sink = table.sink();
        let mut state: usize = START_STATE;
        let mut index: usize = p;
        let mut last_accept_state: usize = sink;
        let mut last_accept_index: usize = 0;
        assert(w.subrange(p as int, p as int) =~= Seq::<u8>::empty());
        while index < len && state != sink
            invariant
                t == *table,
                w == input@,
                len == w.len(),
                t.table_wf(),
                sink == t.spec_sink(),
                START_STATE < sink,
                t.spec_class(START_STATE) is None,
                t.spec_class(sink) is None,
                p < len,
                p <= index <= len,
                state == table_run(t, START_STATE, w.subrange(p as int, index as int)),
                state <= sink,
                last_accept_state <= sink,
                t.spec_class(last_accept_state) is Some ==> p < last_accept_index < index
                    && last_accept_state == table_run(t, START_STATE, w.subrange(p as int, last_accept_index as int)),
                forall|k: int| p < k < index && #[trigger] accepts_span(t, w, p as int, k) ==> t.spec_class(last_accept_state) is Some && k <= last_accept_index,
            decreases len - index,
        {
            let class = table.class(state);
            if class.is_some() {
                last_accept_state = state;
                last_accept_index = index;
            }
            let ghost before = state;
            state = table.step(state, input[index]);
            proof {
                let u = w.subrange(p as int, index as int);
                let x = seq![w[index as int]];
                lemma_run_concat(t, START_STATE, u, x);
                assert(x.drop_first() =~= Seq::<u8>::empty());
                assert(table_run(t, before, x) == table_run(t, t.spec_step(before, x[0]), x.drop_first()));
                assert(table_run(t, before, x) == state);
                assert(u + seq![w[index as int]] =~= w.subrange(p as int, index + 1));
                assert(seq![w[index as int]].drop_first() =~= Seq::<u8>::empty());
                assert forall|k: int| p < k < index + 1 && #[trigger] accepts_span(t, w, p as int, k) implies t.spec_class(last_accept_state) is Some && k <= last_accept_index by {
                    if k == index {
                        assert(k > p);
                    }
                }
            }
            index = index + 1;
        }
        proof {
            assert forall|k: int| #[trigger] accepts_span(t, w, p as int, k) implies k <= index && (k == index ==> t.spec_class(state) is Some) && (k < index ==> t.spec_class(last_accept_state) is Some && k <= last_accept_index) by {
                if k > index {
                    let u = w.subrange(p as int, index as int);
                    let v = w.subrange(index as int, k);
                    assert(u + v =~= w.subrange(p as int, k));
                    lemma_run_concat(t, START_STATE, u, v);
                    lemma_run_stays(t, state, v);
                }
            }
        }
        match table.class(state) {
            Some(class) => {
                self.index = index;
                proof {
                    assert(accepts_span(t, w, p as int, index as int));
                    lemma_longest_unique(t, w, p as int, index as int);
                }
                return Some(Ok(Token { class, span: Range { start: p, end: index } }));
            },
            None => {},
        }
        match table.class(last_accept_state) {
            Some(class) => {
                self.index = last_accept_index;
                proof {
                    assert(accepts_span(t, w, p as int, last_accept_index as int));
                    lemma_longest_unique(t, w, p as int, last_accept_index as int);
                }
                Some(Ok(Token { class, span: Range { start: p, end: last_accept_index } }))
            },
            None => {
                self.index = usize::MAX;
                Some(Err(ScanError { pos: p }))
            },
        }
    }
}

} // verus!
