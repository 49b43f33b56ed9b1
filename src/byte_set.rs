use vstd::prelude::*;

verus! {

/// Whether bit `k` (counted from the least significant end) of `w` is set.
pub open spec fn bit(w: u8, k: u8) -> bool {
    (w >> k) & 1u8 == 1u8
}

proof fn lemma_bit_not(w: u8, k: u8)
    requires
        k < 8,
    ensures
        bit(!w, k) == !bit(w, k),
{
    assert(((!w >> k) & 1u8 == 1u8) == !((w >> k) & 1u8 == 1u8)) by (bit_vector)
        requires
            k < 8u8,
    ;
}

proof fn lemma_bit_and(a: u8, b: u8, k: u8)
    requires
        k < 8,
    ensures
        bit(a & b, k) == (bit(a, k) && bit(b, k)),
{
    assert((((a & b) >> k) & 1u8 == 1u8) == (((a >> k) & 1u8 == 1u8) && ((b >> k) & 1u8
        == 1u8))) by (bit_vector)
        requires
            k < 8u8,
    ;
}

proof fn lemma_bit_or(a: u8, b: u8, k: u8)
    requires
        k < 8,
    ensures
        bit(a | b, k) == (bit(a, k) || bit(b, k)),
{
    assert((((a | b) >> k) & 1u8 == 1u8) == (((a >> k) & 1u8 == 1u8) || ((b >> k) & 1u8
        == 1u8))) by (bit_vector)
        requires
            k < 8u8,
    ;
}

proof fn lemma_bit_zero_max(k: u8)
    requires
        k < 8,
    ensures
        !bit(0u8, k),
        bit(0xffu8, k),
{
    assert(((0u8 >> k) & 1u8 != 1u8) && ((0xffu8 >> k) & 1u8 == 1u8)) by (bit_vector)
        requires
            k < 8u8,
    ;
}

proof fn lemma_bit_point(j: u8, k: u8)
    requires
        j < 8,
        k < 8,
    ensures
        bit(1u8 << j, k) == (j == k),
{
    assert((((1u8 << j) >> k) & 1u8 == 1u8) == (j == k)) by (bit_vector)
        requires
            j < 8u8,
            k < 8u8,
    ;
}

proof fn lemma_bit_test(w: u8, j: u8)
    requires
        j < 8,
    ensures
        (w & (1u8 << j) != 0u8) == bit(w, j),
{
    assert((w & (1u8 << j) != 0u8) == ((w >> j) & 1u8 == 1u8)) by (bit_vector)
        requires
            j < 8u8,
    ;
}

proof fn lemma_bit_from(f: u8, k: u8)
    requires
        f < 8,
        k < 8,
    ensures
        bit(!(((1u8 << f) - 1u8) as u8), k) == (f <= k),
{
    assert((((!(((1u8 << f) - 1u8) as u8)) >> k) & 1u8 == 1u8) == (f <= k)) by (bit_vector)
        requires
            f < 8u8,
            k < 8u8,
    ;
}

proof fn lemma_bit_upto(t: u8, k: u8)
    requires
        t < 8,
        k < 8,
    ensures
        bit((1u8 << t) | (((1u8 << t) - 1u8) as u8), k) == (k <= t),
{
    assert(((((1u8 << t) | (((1u8 << t) - 1u8) as u8)) >> k) & 1u8 == 1u8) == (k <= t))
        by (bit_vector)
        requires
            t < 8u8,
            k < 8u8,
    ;
}

/// Two bytes with the same bits are equal.
proof fn lemma_bits_equal(a: u8, b: u8)
    requires
        forall|k: u8| k < 8 ==> bit(a, k) == bit(b, k),
    ensures
        a == b,
{
    assert(bit(a, 0) == bit(b, 0));
    assert(bit(a, 1) == bit(b, 1));
    assert(bit(a, 2) == bit(b, 2));
    assert(bit(a, 3) == bit(b, 3));
    assert(bit(a, 4) == bit(b, 4));
    assert(bit(a, 5) == bit(b, 5));
    assert(bit(a, 6) == bit(b, 6));
    assert(bit(a, 7) == bit(b, 7));
    assert(a == b) by (bit_vector)
        requires
            ((a >> 0u8) & 1u8 == 1u8) == ((b >> 0u8) & 1u8 == 1u8),
            ((a >> 1u8) & 1u8 == 1u8) == ((b >> 1u8) & 1u8 == 1u8),
            ((a >> 2u8) & 1u8 == 1u8) == ((b >> 2u8) & 1u8 == 1u8),
            ((a >> 3u8) & 1u8 == 1u8) == ((b >> 3u8) & 1u8 == 1u8),
            ((a >> 4u8) & 1u8 == 1u8) == ((b >> 4u8) & 1u8 == 1u8),
            ((a >> 5u8) & 1u8 == 1u8) == ((b >> 5u8) & 1u8 == 1u8),
            ((a >> 6u8) & 1u8 == 1u8) == ((b >> 6u8) & 1u8 == 1u8),
            ((a >> 7u8) & 1u8 == 1u8) == ((b >> 7u8) & 1u8 == 1u8),
    ;
}

/// A set of 8-bit values, held as a bitmap of 32 words: value `v` is bit `v % 8`
/// of word `v / 8`.
#[derive(Clone, Copy, PartialEq, Eq, Hash, Debug)]
pub struct ByteSet {
    bitmap: [u8; 32],
}

impl View for ByteSet {
    type V = Set<u8>;

    open spec fn view(&self) -> Set<u8> {
        Set::new(|v: u8| self.has(v))
    }
}

impl ByteSet {
    /// Whether `v` is a member, read off the bitmap.
    pub closed spec fn has(self, v: u8) -> bool {
        bit(self.bitmap@[(v / 8) as int], v % 8)
    }

    proof fn lemma_words(self)
        ensures
            self.bitmap@ == set_words(self@),
    {
        assert forall|i: int| 0 <= i < 32 implies self.bitmap@[i] == word_of(self@, i) by {
            let x = self.bitmap@[i];
            assert forall|k: u8| k < 8 implies #[trigger] self@.contains((8 * i + k) as u8) == bit(x, k) by {
                let v = (8 * i + k) as u8;
                assert(v / 8 == i && v % 8 == k);
                assert(self@.contains(v) == self.has(v));
            }
            let b0 = bit(x, 0);
            let b1 = bit(x, 1);
            let b2 = bit(x, 2);
            let b3 = bit(x, 3);
            let b4 = bit(x, 4);
            let b5 = bit(x, 5);
            let b6 = bit(x, 6);
            let b7 = bit(x, 7);
            assert(self@.contains((8 * i + 0) as u8) == b0);
            assert(self@.contains((8 * i + 1) as u8) == b1);
            assert(self@.contains((8 * i + 2) as u8) == b2);
            assert(self@.contains((8 * i + 3) as u8) == b3);
            assert(self@.contains((8 * i + 4) as u8) == b4);
            assert(self@.contains((8 * i + 5) as u8) == b5);
            assert(self@.contains((8 * i + 6) as u8) == b6);
            assert(self@.contains((8 * i + 7) as u8) == b7);
            assert(x == ((if b0 { 1u8 } else { 0u8 }) | (if b1 { 2u8 } else { 0u8 }) | (if b2 {
                4u8
            } else {
                0u8
            }) | (if b3 { 8u8 } else { 0u8 }) | (if b4 { 16u8 } else { 0u8 }) | (if b5 {
                32u8
            } else {
                0u8
            }) | (if b6 { 64u8 } else { 0u8 }) | (if b7 { 128u8 } else { 0u8 }))) by (bit_vector)
                requires
                    b0 == ((x >> 0u8) & 1u8 == 1u8),
                    b1 == ((x >> 1u8) & 1u8 == 1u8),
                    b2 == ((x >> 2u8) & 1u8 == 1u8),
                    b3 == ((x >> 3u8) & 1u8 == 1u8),
                    b4 == ((x >> 4u8) & 1u8 == 1u8),
                    b5 == ((x >> 5u8) & 1u8 == 1u8),
                    b6 == ((x >> 6u8) & 1u8 == 1u8),
                    b7 == ((x >> 7u8) & 1u8 == 1u8),
            ;
        }
        assert(self.bitmap@ =~= set_words(self@));
    }

    /// Sets with the same members have the same bitmap.
    pub proof fn lemma_view_injective(self, other: ByteSet)
        requires
            self@ == other@,
        ensures
            self == other,
    {
        assert forall|i: int| 0 <= i < 32 implies self.bitmap@[i] == other.bitmap@[i] by {
            assert forall|k: u8| k < 8 implies bit(self.bitmap@[i], k) == bit(
                other.bitmap@[i],
                k,
            ) by {
                let v = (8 * i + k) as u8;
                assert(v / 8 == i && v % 8 == k);
                assert(self@.contains(v) == other@.contains(v));
                assert(self@.contains(v) == self.has(v));
                assert(other@.contains(v) == other.has(v));
            }
            lemma_bits_equal(self.bitmap@[i], other.bitmap@[i]);
        }
        assert(self.bitmap@ =~= other.bitmap@);
        broadcast use vstd::array::group_array_axioms;
        assert(self.bitmap == other.bitmap);
    }

    /// Returns the empty set.
    pub fn empty() -> (r: Self)
        ensures
            r@ == Set::<u8>::empty(),
    {
        let r = ByteSet { bitmap: [0u8; 32] };
        proof {
            assert forall|v: u8| !r.has(v) by {
                lemma_bit_zero_max(v % 8);
            }
            assert(r@ =~= Set::<u8>::empty());
        }
        r
    }

    /// Returns the set of all 256 values.
    pub fn universe() -> (r: Self)
        ensures
            r@ == Set::<u8>::full(),
    {
        let r = ByteSet { bitmap: [0xffu8; 32] };
        proof {
            assert forall|v: u8| r.has(v) by {
                lemma_bit_zero_max(v % 8);
            }
            assert(r@ =~= Set::<u8>::full());
        }
        r
    }

    /// Returns the set that holds `value` alone.
    pub fn point(value: u8) -> (r: Self)
        ensures
            r@ == set![value],
    {
        let mut r = ByteSet { bitmap: [0u8; 32] };
        let index = (value / 8) as usize;
        r.bitmap[index] = 1u8 << (value % 8);
        proof {
            assert forall|v: u8| r.has(v) == (v == value) by {
                lemma_bit_zero_max(v % 8);
                lemma_bit_point(value % 8, v % 8);
            }
            assert(r@ =~= set![value]);
        }
        r
    }

    /// Returns the set `{from, ..., to}`; empty where `from > to`.
    pub fn range(from: u8, to: u8) -> (r: Self)
        ensures
            r@ == Set::new(|v: u8| from <= v <= to),
    {
        if from > to {
            let r = Self::empty();
            assert(r@ =~= Set::new(|v: u8| from <= v <= to));
            return r;
        }
        let mut r = ByteSet { bitmap: [0u8; 32] };
        let from_index = (from / 8) as usize;
        let to_index = (to / 8) as usize;
        let a: u8 = 1u8 << (from % 8);
        let b: u8 = 1u8 << (to % 8);
        proof {
            assert(a >= 1u8) by (bit_vector)
                requires
                    a == 1u8 << (from % 8),
                    from % 8 < 8u8,
            ;
            assert(b >= 1u8) by (bit_vector)
                requires
                    b == 1u8 << (to % 8),
                    to % 8 < 8u8,
            ;
        }
        let first_word: u8 = !(a - 1);
        let last_word: u8 = b | (b - 1);
        if from_index == to_index {
            r.bitmap[from_index] = first_word & last_word;
        } else {
            r.bitmap[from_index] = first_word;
            let mut i = from_index + 1;
            while i < to_index
                invariant
                    from_index < i <= to_index < 32,
                    r.bitmap@[from_index as int] == first_word,
                    forall|j: int| from_index < j < i ==> r.bitmap@[j] == 0xffu8,
                    forall|j: int| 0 <= j < 32 && (j < from_index || j >= i) ==> r.bitmap@[j] == 0u8,
                decreases to_index - i,
            {
                r.bitmap[i] = 0xffu8;
                i = i + 1;
            }
            r.bitmap[to_index] = last_word;
        }
        proof {
            assert forall|v: u8| r.has(v) == (from <= v && v <= to) by {
                lemma_bit_zero_max(v % 8);
                lemma_bit_from(from % 8, v % 8);
                lemma_bit_upto(to % 8, v % 8);
                lemma_bit_and(first_word, last_word, v % 8);
            }
            assert(r@ =~= Set::new(|v: u8| from <= v <= to));
        }
        r
    }

    /// Returns `true` iff the set has no member.
    pub fn is_empty(&self) -> (r: bool)
        ensures
            r == (self@ == Set::<u8>::empty()),
    {
        let mut i: usize = 0;
        while i < 32
            invariant
                i <= 32,
                forall|j: int| 0 <= j < i ==> self.bitmap@[j] == 0u8,
            decreases 32 - i,
        {
            if self.bitmap[i] != 0 {
                proof {
                    let w = self.bitmap@[i as int];
                    assert(exists|k: u8| k < 8 && bit(w, k)) by {
                        if forall|k: u8| k < 8 ==> !bit(w, k) {
                            assert forall|k: u8| k < 8 implies bit(w, k) == bit(0u8, k) by {
                                lemma_bit_zero_max(k);
                            }
                            lemma_bits_equal(w, 0u8);
                        }
                    }
                    let k = choose|k: u8| k < 8 && bit(w, k);
                    let v = (8 * i + k) as u8;
                    assert(v / 8 == i && v % 8 == k);
                    assert(self@.contains(v));
                }
                return false;
            }
            i = i + 1;
        }
        proof {
            assert forall|v: u8| !self.has(v) by {
                lemma_bit_zero_max(v % 8);
            }
            assert(self@ =~= Set::<u8>::empty());
        }
        true
    }

    /// Returns `true` iff every value is a member.
    pub fn is_universe(&self) -> (r: bool)
        ensures
            r == (self@ == Set::<u8>::full()),
    {
        let mut i: usize = 0;
        while i < 32
            invariant
                i <= 32,
                forall|j: int| 0 <= j < i ==> self.bitmap@[j] == 0xffu8,
            decreases 32 - i,
        {
            if self.bitmap[i] != 0xff {
                proof {
                    let w = self.bitmap@[i as int];
                    assert(exists|k: u8| k < 8 && !bit(w, k)) by {
                        if forall|k: u8| k < 8 ==> bit(w, k) {
                            assert forall|k: u8| k < 8 implies bit(w, k) == bit(0xffu8, k) by {
                                lemma_bit_zero_max(k);
                            }
                            lemma_bits_equal(w, 0xffu8);
                        }
                    }
                    let k = choose|k: u8| k < 8 && !bit(w, k);
                    let v = (8 * i + k) as u8;
                    assert(v / 8 == i && v % 8 == k);
                    assert(!self@.contains(v));
                }
                return false;
            }
            i = i + 1;
        }
        proof {
            assert forall|v: u8| self.has(v) by {
                lemma_bit_zero_max(v % 8);
            }
            assert(self@ =~= Set::<u8>::full());
        }
        true
    }

    /// Returns `true` iff `value` is a member.
    pub fn contains(&self, value: u8) -> (r: bool)
        ensures
            r == self@.contains(value),
    {
        let index = (value / 8) as usize;
        proof {
            lemma_bit_test(self.bitmap@[index as int], value % 8);
        }
        self.bitmap[index] & (1u8 << (value % 8)) != 0
    }

    /// Returns the smallest member, or `None` for the empty set.
    pub fn smallest(&self) -> (r: Option<u8>)
        ensures
            r is None <==> self@ == Set::<u8>::empty(),
            r matches Some(v) ==> self@.contains(v) && forall|u: u8| self@.contains(u) ==> v <= u,
    {
        let mut v: u16 = 0;
        while v < 256
            invariant
                v <= 256,
                forall|u: u8| u < v ==> !self@.contains(u),
            decreases 256 - v,
        {
            if self.contains(v as u8) {
                return Some(v as u8);
            }
            v = v + 1;
        }
        assert(self@ =~= Set::<u8>::empty());
        None
    }

    /// Returns the set of the values that are not members.
    pub fn complement(&self) -> (r: Self)
        ensures
            r@ == self@.complement(),
    {
        let mut r = ByteSet { bitmap: [0u8; 32] };
        let mut i: usize = 0;
        while i < 32
            invariant
                i <= 32,
                forall|j: int| 0 <= j < i ==> r.bitmap@[j] == !self.bitmap@[j],
            decreases 32 - i,
        {
            r.bitmap[i] = !self.bitmap[i];
            i = i + 1;
        }
        proof {
            assert forall|v: u8| r.has(v) == !self.has(v) by {
                lemma_bit_not(self.bitmap@[(v / 8) as int], v % 8);
            }
            assert(r@ =~= self@.complement());
        }
        r
    }

    /// Returns the values that are members of both sets.
    pub fn intersection(&self, other: &Self) -> (r: Self)
        ensures
            r@ == self@.intersect(other@),
    {
        let mut r = *self;
        r.intersection_assign(other);
        r
    }

    /// Keeps the members that `other` holds too.
    pub fn intersection_assign(&mut self, other: &Self)
        ensures
            final(self)@ == old(self)@.intersect(other@),
    {
        let ghost start = *self;
        let mut i: usize = 0;
        while i < 32
            invariant
                i <= 32,
                forall|j: int| 0 <= j < i ==> self.bitmap@[j] == start.bitmap@[j] & other.bitmap@[j],
                forall|j: int| i <= j < 32 ==> self.bitmap@[j] == start.bitmap@[j],
            decreases 32 - i,
        {
            self.bitmap[i] = self.bitmap[i] & other.bitmap[i];
            i = i + 1;
        }
        proof {
            assert forall|v: u8| self.has(v) == (start.has(v) && other.has(v)) by {
                let j = (v / 8) as int;
                lemma_bit_and(start.bitmap@[j], other.bitmap@[j], v % 8);
            }
            assert(self@ =~= start@.intersect(other@));
        }
    }

    /// Returns the values that are members of either set.
    pub fn union(&self, other: &Self) -> (r: Self)
        ensures
            r@ == self@.union(other@),
    {
        let mut r = *self;
        r.union_assign(other);
        r
    }

    /// Adds the members of `other`.
    pub fn union_assign(&mut self, other: &Self)
        ensures
            final(self)@ == old(self)@.union(other@),
    {
        let ghost start = *self;
        let mut i: usize = 0;
        while i < 32
            invariant
                i <= 32,
                forall|j: int| 0 <= j < i ==> self.bitmap@[j] == start.bitmap@[j] | other.bitmap@[j],
                forall|j: int| i <= j < 32 ==> self.bitmap@[j] == start.bitmap@[j],
            decreases 32 - i,
        {
            self.bitmap[i] = self.bitmap[i] | other.bitmap[i];
            i = i + 1;
        }
        proof {
            assert forall|v: u8| self.has(v) == (start.has(v) || other.has(v)) by {
                let j = (v / 8) as int;
                lemma_bit_or(start.bitmap@[j], other.bitmap@[j], v % 8);
            }
            assert(self@ =~= start@.union(other@));
        }
    }

    /// Returns a cursor over the members in ascending order.
    pub fn bytes(&self) -> (r: Bytes)
        ensures
            r@ == self@,
    {
        let r = Bytes { set: *self, pos: 0 };
        assert(r@ =~= self@);
        r
    }

    /// The smallest member, as `smallest`.
    pub fn min(&self) -> (r: Option<u8>)
        ensures
            r is None <==> self@ == Set::<u8>::empty(),
            r matches Some(v) ==> self@.contains(v) && forall|u: u8| self@.contains(u) ==> v <= u,
    {
        self.smallest()
    }

    /// A cursor over the members in ascending order, as `bytes`.
    pub fn chars(&self) -> (r: Bytes)
        ensures
            r@ == self@,
    {
        self.bytes()
    }

    /// Compares the bitmaps word by word, the first word first.
    pub fn compare(&self, other: &Self) -> (r: std::cmp::Ordering)
        ensures
            r == words_cmp(set_words(self@), set_words(other@)),
    {
        proof {
            self.lemma_words();
            other.lemma_words();
        }
        self.compare_bitmaps(other)
    }

    fn compare_bitmaps(&self, other: &Self) -> (r: std::cmp::Ordering)
        ensures
            r == words_cmp(self.bitmap@, other.bitmap@),
    {
        let mut i: usize = 0;
        assert(self.bitmap@.subrange(0, 32) =~= self.bitmap@);
        assert(other.bitmap@.subrange(0, 32) =~= other.bitmap@);
        while i < 32
            invariant
                i <= 32,
                self.bitmap@.len() == 32 && other.bitmap@.len() == 32,
                words_cmp(self.bitmap@, other.bitmap@) == words_cmp(
                    self.bitmap@.subrange(i as int, 32),
                    other.bitmap@.subrange(i as int, 32),
                ),
            decreases 32 - i,
        {
            let a = self.bitmap[i];
            let b = other.bitmap[i];
            let ghost sa = self.bitmap@.subrange(i as int, 32);
            let ghost sb = other.bitmap@.subrange(i as int, 32);
            assert(sa.drop_first() =~= self.bitmap@.subrange(i + 1, 32));
            assert(sb.drop_first() =~= other.bitmap@.subrange(i + 1, 32));
            if a < b {
                return std::cmp::Ordering::Less;
            }
            if a > b {
                return std::cmp::Ordering::Greater;
            }
            i = i + 1;
        }
        std::cmp::Ordering::Equal
    }

    /// The complement of the complement is the set itself.
    pub proof fn lemma_double_complement(s: ByteSet, c: ByteSet, cc: ByteSet)
        requires
            c@ == s@.complement(),
            cc@ == c@.complement(),
        ensures
            cc == s,
    {
        assert(cc@ =~= s@);
        cc.lemma_view_injective(s);
    }

    /// De Morgan: the complement of a union is the intersection of the complements.
    pub proof fn lemma_de_morgan(a: ByteSet, b: ByteSet, u: ByteSet, cu: ByteSet, ca: ByteSet, cb: ByteSet, i: ByteSet)
        requires
            u@ == a@.union(b@),
            cu@ == u@.complement(),
            ca@ == a@.complement(),
            cb@ == b@.complement(),
            i@ == ca@.intersect(cb@),
        ensures
            cu == i,
    {
        assert(cu@ =~= i@);
        cu.lemma_view_injective(i);
    }
}

/// Lexicographic comparison of two word sequences.
pub open spec fn words_cmp(a: Seq<u8>, b: Seq<u8>) -> std::cmp::Ordering
    decreases a.len(),
{
    if a.len() == 0 {
        if b.len() == 0 {
            std::cmp::Ordering::Equal
        } else {
            std::cmp::Ordering::Less
        }
    } else if b.len() == 0 {
        std::cmp::Ordering::Greater
    } else if a[0] < b[0] {
        std::cmp::Ordering::Less
    } else if a[0] > b[0] {
        std::cmp::Ordering::Greater
    } else {
        words_cmp(a.drop_first(), b.drop_first())
    }
}

/// Bit `k` of the word for `i` holds membership of `8 * i + k`.
pub open spec fn word_of(s: Set<u8>, i: int) -> u8 {
    (if s.contains((8 * i) as u8) { 1u8 } else { 0u8 }) | (if s.contains((8 * i + 1) as u8) {
        2u8
    } else {
        0u8
    }) | (if s.contains((8 * i + 2) as u8) { 4u8 } else { 0u8 }) | (if s.contains(
        (8 * i + 3) as u8,
    ) {
        8u8
    } else {
        0u8
    }) | (if s.contains((8 * i + 4) as u8) { 16u8 } else { 0u8 }) | (if s.contains(
        (8 * i + 5) as u8,
    ) {
        32u8
    } else {
        0u8
    }) | (if s.contains((8 * i + 6) as u8) { 64u8 } else { 0u8 }) | (if s.contains(
        (8 * i + 7) as u8,
    ) {
        128u8
    } else {
        0u8
    })
}

proof fn lemma_word_bits(b0: bool, b1: bool, b2: bool, b3: bool, b4: bool, b5: bool, b6: bool, b7: bool, x: u8)
    requires
        x == ((if b0 { 1u8 } else { 0u8 }) | (if b1 { 2u8 } else { 0u8 }) | (if b2 {
            4u8
        } else {
            0u8
        }) | (if b3 { 8u8 } else { 0u8 }) | (if b4 { 16u8 } else { 0u8 }) | (if b5 {
            32u8
        } else {
            0u8
        }) | (if b6 { 64u8 } else { 0u8 }) | (if b7 { 128u8 } else { 0u8 })),
    ensures
        bit(x, 0) == b0,
        bit(x, 1) == b1,
        bit(x, 2) == b2,
        bit(x, 3) == b3,
        bit(x, 4) == b4,
        bit(x, 5) == b5,
        bit(x, 6) == b6,
        bit(x, 7) == b7,
{
    assert(((x >> 0u8) & 1u8 == 1u8) == b0 && ((x >> 1u8) & 1u8 == 1u8) == b1 && ((x >> 2u8) & 1u8
        == 1u8) == b2 && ((x >> 3u8) & 1u8 == 1u8) == b3 && ((x >> 4u8) & 1u8 == 1u8) == b4 && ((x
        >> 5u8) & 1u8 == 1u8) == b5 && ((x >> 6u8) & 1u8 == 1u8) == b6 && ((x >> 7u8) & 1u8 == 1u8)
        == b7) by (bit_vector)
        requires
            x == ((if b0 { 1u8 } else { 0u8 }) | (if b1 { 2u8 } else { 0u8 }) | (if b2 {
                4u8
            } else {
                0u8
            }) | (if b3 { 8u8 } else { 0u8 }) | (if b4 { 16u8 } else { 0u8 }) | (if b5 {
                32u8
            } else {
                0u8
            }) | (if b6 { 64u8 } else { 0u8 }) | (if b7 { 128u8 } else { 0u8 })),
    ;
}

/// Sets with the same words are the same set.
pub proof fn lemma_set_words_injective(x: Set<u8>, y: Set<u8>)
    requires
        set_words(x) == set_words(y),
    ensures
        x == y,
{
    assert forall|v: u8| x.contains(v) == y.contains(v) by {
        let i = (v / 8) as int;
        let k = v % 8;
        assert(set_words(x)[i] == set_words(y)[i]);
        assert(set_words(x)[i] == word_of(x, i));
        assert(set_words(y)[i] == word_of(y, i));
        assert((8 * i + k) as u8 == v);
        let wx = word_of(x, i);
        let wy = word_of(y, i);
        lemma_word_bits(
            x.contains((8 * i) as u8),
            x.contains((8 * i + 1) as u8),
            x.contains((8 * i + 2) as u8),
            x.contains((8 * i + 3) as u8),
            x.contains((8 * i + 4) as u8),
            x.contains((8 * i + 5) as u8),
            x.contains((8 * i + 6) as u8),
            x.contains((8 * i + 7) as u8),
            wx,
        );
        lemma_word_bits(
            y.contains((8 * i) as u8),
            y.contains((8 * i + 1) as u8),
            y.contains((8 * i + 2) as u8),
            y.contains((8 * i + 3) as u8),
            y.contains((8 * i + 4) as u8),
            y.contains((8 * i + 5) as u8),
            y.contains((8 * i + 6) as u8),
            y.contains((8 * i + 7) as u8),
            wy,
        );
        assert(bit(wx, k) == bit(wy, k));
        if k == 0 {
            assert((8 * i) as u8 == v);
        }
    }
    assert(x =~= y);
}

/// `words_cmp` is `Equal` exactly on equal sequences.
pub proof fn lemma_words_cmp_equal(a: Seq<u8>, b: Seq<u8>)
    ensures
        (words_cmp(a, b) == std::cmp::Ordering::Equal) == (a == b),
    decreases a.len(),
{
    if a.len() == 0 && b.len() == 0 {
        assert(a =~= b);
    }
    if a.len() > 0 && b.len() > 0 {
        lemma_words_cmp_equal(a.drop_first(), b.drop_first());
        if a[0] == b[0] && a.drop_first() == b.drop_first() {
            assert(a =~= seq![a[0]] + a.drop_first());
            assert(b =~= seq![b[0]] + b.drop_first());
        }
    }
}

/// The 32 bitmap words of a set of bytes.
pub open spec fn set_words(s: Set<u8>) -> Seq<u8> {
    Seq::new(32, |i: int| word_of(s, i))
}

/// The set of bytes under the name that character-class code uses.
pub type CharSet = ByteSet;

/// The cursor of a `CharSet`.
pub type Chars = Bytes;

/// A cursor over the members of a set, in ascending order.
pub struct Bytes {
    set: ByteSet,
    pos: u16,
}

impl View for Bytes {
    type V = Set<u8>;

    /// The members that the cursor has not handed out yet.
    closed spec fn view(&self) -> Set<u8> {
        self.set@.filter(|v: u8| self.pos <= v)
    }
}

impl Bytes {
    /// Hands out the smallest member left, or `None` when none is left.
    pub fn next(&mut self) -> (r: Option<u8>)
        ensures
            r is None <==> old(self)@ == Set::<u8>::empty(),
            r matches Some(v) ==> {
                &&& old(self)@.contains(v)
                &&& forall|u: u8| old(self)@.contains(u) ==> v <= u
                &&& final(self)@ == old(self)@.remove(v)
            },
            r is None ==> final(self)@ == old(self)@,
    {
        while self.pos < 256
            invariant
                self.set == old(self).set,
                self@ == old(self)@,
            decreases 256 - self.pos,
        {
            let v = self.pos as u8;
            if self.set.contains(v) {
                self.pos = self.pos + 1;
                proof {
                    assert(old(self)@.contains(v));
                    assert(self@ =~= old(self)@.remove(v));
                }
                return Some(v);
            }
            self.pos = self.pos + 1;
            assert(self@ =~= old(self)@);
        }
        assert(self@ =~= Set::<u8>::empty());
        None
    }
}

} // verus!
