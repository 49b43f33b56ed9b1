//! Extended regular expressions over bytes, decided by Brzozowski derivatives,
//! compiled to deterministic automata, minimized, and driven as a longest-match
//! scanner.
use vstd::prelude::*;
use vstd::string::StringSliceAdditionalSpecFns;

pub mod byte_set;
pub mod regex;
pub mod dfa;
pub mod table;
pub mod scan;
pub mod laws;
pub mod language;
pub mod canonical;

pub use self::byte_set::{ByteSet, Bytes, CharSet, Chars};
pub use self::regex::{Operator, RegEx, Term};
pub use self::dfa::{State, DFA};
pub use self::table::{LexTable, NaiveLexTable, START_STATE};
pub use self::scan::{Scan, ScanError, Token};

use self::regex::{literal_of, or_of};

verus! {

/// The number of bytes in the UTF-8 encoding of the scalar that `lead` starts.
pub open spec fn utf8_width(lead: u8) -> int {
    if lead < 0x80 {
        1
    } else if lead < 0xe0 {
        2
    } else if lead < 0xf0 {
        3
    } else {
        4
    }
}

/// The union of `acc` with the literal of each scalar of `w`, one after another.
pub open spec fn any_from(acc: Term, w: Seq<u8>) -> Term
    decreases w.len(),
{
    if w.len() == 0 {
        acc
    } else {
        let k = if utf8_width(w[0]) <= w.len() {
            utf8_width(w[0])
        } else {
            w.len() as int
        };
        any_from(or_of(acc, literal_of(w.subrange(0, k))), w.subrange(k, w.len() as int))
    }
}

fn literal_bytes(w: &[u8], from: usize, to: usize) -> (r: RegEx)
    requires
        from <= to <= w@.len(),
    ensures
        r@ == literal_of(w@.subrange(from as int, to as int)),
{
    let mut r = RegEx::empty();
    let mut i = from;
    assert(w@.subrange(from as int, from as int).len() == 0);
    while i < to
        invariant
            from <= i <= to <= w@.len(),
            r@ == literal_of(w@.subrange(from as int, i as int)),
        decreases to - i,
    {
        let byte = RegEx::set(ByteSet::point(w[i]));
        proof {
            assert(set![w@[i as int]].contains(w@[i as int]));
            let pre = w@.subrange(from as int, i + 1);
            assert(pre.drop_last() =~= w@.subrange(from as int, i as int));
        }
        r = RegEx::concat(&r, &byte);
        i = i + 1;
    }
    r
}

/// The expression that recognizes the bytes of `s` alone.
pub fn literal(s: &str) -> (r: RegEx)
    ensures
        r@ == literal_of(s.spec_bytes()),
{
    let bytes = s.as_bytes();
    assert(bytes@.subrange(0, bytes@.len() as int) =~= bytes@);
    literal_bytes(bytes, 0, bytes.len())
}

/// The expression that recognizes the encoding of any one char of `s`.
pub fn any(s: &str) -> (r: RegEx)
    ensures
        r@ == any_from(Term::Void, s.spec_bytes()),
{
    let bytes = s.as_bytes();
    let ghost w = bytes@;
    let len = bytes.len();
    let mut r = RegEx::none();
    let mut i: usize = 0;
    assert(w.subrange(0, len as int) =~= w);
    while i < len
        invariant
            w == bytes@,
            len == w.len(),
            i <= len,
            any_from(Term::Void, w) == any_from(r@, w.subrange(i as int, len as int)),
        decreases len - i,
    {
        let lead = bytes[i];
        let width: usize = if lead < 0x80 {
            1
        } else if lead < 0xe0 {
            2
        } else if lead < 0xf0 {
            3
        } else {
            4
        };
        let end = if width <= len - i {
            i + width
        } else {
            len
        };
        let lit = literal_bytes(bytes, i, end);
        proof {
            let rest = w.subrange(i as int, len as int);
            assert(rest[0] == lead);
            assert(rest.subrange(0, end - i) =~= w.subrange(i as int, end as int));
            assert(rest.subrange(end - i, rest.len() as int) =~= w.subrange(end as int, len as int));
        }
        r = r.or(&lit);
        i = end;
    }
    r
}

} // verus!
