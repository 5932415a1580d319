use vstd::prelude::*;
use vstd::set_lib::{
    lemma_len_subset, lemma_set_difference_len, lemma_set_disjoint_lens, range_set_properties,
};
use vstd::std_specs::bits::{
    axiom_u16_leading_zeros, axiom_u16_trailing_zeros, axiom_u64_leading_zeros,
    axiom_u64_trailing_zeros, u16_leading_zeros, u16_trailing_zeros, u64_trailing_zeros,
};

verus! {

/// An element type that a `BitSet` can hold, with the word that stores the set.
pub trait SetElement {
    type Storage;
}

impl SetElement for u8 {
    type Storage = u16;
}

impl SetElement for usize {
    type Storage = u128;
}

/// A set of small integers, stored as one bit per possible member.
#[derive(Clone, Copy, PartialEq, Eq)]
pub struct BitSet<T: SetElement>(pub T::Storage);

/// Sets of digits (bits 0..16).
pub type DigitSet = BitSet<u8>;

/// Sets of cell indices (bits 0..128).
pub type IndexSet = BitSet<usize>;

/// Walks the members of a `BitSet` in ascending order, consuming them.
pub struct BitSetIter<T: SetElement>(pub T::Storage);

// ---------------------------------------------------------------------------
// The model: which members a storage word holds.

/// Whether bit `i` of a 16-bit word is set.
pub open spec fn bit16(x: u16, i: u16) -> bool {
    i < 16 && (x >> i) & 1u16 == 1u16
}

/// The members of a 16-bit word.
pub open spec fn digits_of(x: u16) -> Set<u8> {
    Set::new(|d: u8| bit16(x, d as u16))
}

impl View for BitSet<u8> {
    type V = Set<u8>;

    open spec fn view(&self) -> Set<u8> {
        digits_of(self.0)
    }
}

impl View for BitSetIter<u8> {
    type V = Set<u8>;

    open spec fn view(&self) -> Set<u8> {
        digits_of(self.0)
    }
}

/// How many members of `s` are below `d`.
pub open spec fn digit_rank(s: Set<u8>, d: u8) -> nat {
    s.filter(|e: u8| e < d).len()
}

/// The members of `s` above `d`.
pub open spec fn digits_above(s: Set<u8>, d: u8) -> Set<u8> {
    s.filter(|e: u8| e > d)
}

/// `m` is the least member of `s`.
pub open spec fn is_least(s: Set<u8>, m: u8) -> bool {
    s.contains(m) && forall|a: u8| #[trigger] s.contains(a) ==> m <= a
}

// ---------------------------------------------------------------------------
// Bit-level facts on 16-bit words.

/// Membership under `|`, `&`, `& !` and single-bit words, bit by bit.
proof fn lemma_bits16(a: u16, b: u16, i: u16, j: u16)
    by (bit_vector)
    requires
        i < 16,
        j < 16,
    ensures
        ((a | b) >> i) & 1u16 == 1u16 <==> ((a >> i) & 1u16 == 1u16 || (b >> i) & 1u16 == 1u16),
        ((a & b) >> i) & 1u16 == 1u16 <==> ((a >> i) & 1u16 == 1u16 && (b >> i) & 1u16 == 1u16),
        ((a & !b) >> i) & 1u16 == 1u16 <==> ((a >> i) & 1u16 == 1u16 && (b >> i) & 1u16
            != 1u16),
        ((1u16 << j) >> i) & 1u16 == 1u16 <==> i == j,
        (a >> i) & 1u16 != 0u16 <==> (a >> i) & 1u16 == 1u16,
        a == 0u16 ==> (a >> i) & 1u16 != 1u16,
{
}

/// Clearing the lowest set bit `t` keeps every other bit.
proof fn lemma_clear_lowest16(x: u16, t: u16, i: u16)
    by (bit_vector)
    requires
        x != 0,
        t < 16,
        i < 16,
        (x >> t) & 1u16 == 1u16,
        x << (16 - t) as u16 == 0,
    ensures
        ((x & (x - 1) as u16) >> i) & 1u16 == 1u16 <==> ((x >> i) & 1u16 == 1u16 && i != t),
{
}

/// A digit word holds at most 16 members.
pub proof fn lemma_digits_finite(x: u16)
    ensures
        digits_of(x).finite(),
        digits_of(x).len() <= 16,
{
    let r = Set::<u8>::range(0u8, 16u8);
    range_set_properties::<u8>(0u8, 16u8);
    assert(digits_of(x).subset_of(r));
    lemma_len_subset(digits_of(x), r);
}

/// Word operations are set operations on the members.
proof fn lemma_digits_ops(a: u16, b: u16)
    ensures
        digits_of(a | b) == digits_of(a).union(digits_of(b)),
        digits_of(a & b) == digits_of(a).intersect(digits_of(b)),
        digits_of(a & !b) == digits_of(a).difference(digits_of(b)),
{
    assert forall|d: u8| d < 16 implies {
        &&& digits_of(a | b).contains(d) == digits_of(a).union(digits_of(b)).contains(d)
        &&& digits_of(a & b).contains(d) == digits_of(a).intersect(digits_of(b)).contains(d)
        &&& digits_of(a & !b).contains(d) == digits_of(a).difference(digits_of(b)).contains(d)
    } by {
        lemma_bits16(a, b, d as u16, 0);
    }
    assert(digits_of(a | b) =~= digits_of(a).union(digits_of(b)));
    assert(digits_of(a & b) =~= digits_of(a).intersect(digits_of(b)));
    assert(digits_of(a & !b) =~= digits_of(a).difference(digits_of(b)));
}

/// The word with only bit `v` set holds `v` alone.
proof fn lemma_digit_single(v: u8)
    requires
        v < 16,
    ensures
        digits_of(1u16 << v as u16) == set![v],
{
    assert forall|d: u8| d < 16 implies #[trigger] digits_of(1u16 << v as u16).contains(d) == (d == v) by {
        lemma_bits16(0, 0, d as u16, v as u16);
    }
    assert(digits_of(1u16 << v as u16) =~= set![v]);
}

/// A digit word is zero exactly when it has no members.
pub proof fn lemma_digits_empty(x: u16)
    ensures
        x == 0 <==> digits_of(x) == Set::<u8>::empty(),
        x == 0 <==> digits_of(x).len() == 0,
{
    lemma_digits_finite(x);
    if x == 0 {
        assert forall|d: u8| d < 16 implies !digits_of(x).contains(d) by {
            lemma_bits16(x, 0, d as u16, 0);
        }
        assert(digits_of(x) =~= Set::<u8>::empty());
    } else {
        axiom_u16_trailing_zeros(x);
        let t = u16_trailing_zeros(x);
        assert(digits_of(x).contains(t as u8));
        if digits_of(x).len() == 0 {
            digits_of(x).lemma_len0_is_empty();
        }
    }
}

/// The lowest set bit of a nonzero word is its least member, and clearing it removes it.
proof fn lemma_digits_lowest(x: u16)
    requires
        x != 0,
    ensures
        u16_trailing_zeros(x) < 16,
        is_least(digits_of(x), u16_trailing_zeros(x) as u8),
        digits_of(x & (x - 1) as u16) == digits_of(x).remove(u16_trailing_zeros(x) as u8),
{
    axiom_u16_trailing_zeros(x);
    let t = u16_trailing_zeros(x) as u16;
    assert forall|d: u8| #[trigger] digits_of(x).contains(d) implies t <= d by {
        if (d as u16) < t {
            assert((x >> (d as u16)) & 1u16 == 0u16);
        }
    }
    assert forall|d: u8| d < 16 implies #[trigger] digits_of(x & (x - 1) as u16).contains(d) == digits_of(
        x,
    ).remove(t as u8).contains(d) by {
        lemma_clear_lowest16(x, t, d as u16);
    }
    assert(digits_of(x & (x - 1) as u16) =~= digits_of(x).remove(t as u8));
}

/// The highest set bit of a nonzero word is its greatest member.
proof fn lemma_digits_highest(x: u16)
    requires
        x != 0,
    ensures
        u16_leading_zeros(x) < 16,
        digits_of(x).contains((15 - u16_leading_zeros(x)) as u8),
        forall|d: u8| #[trigger]
            digits_of(x).contains(d) ==> d <= 15 - u16_leading_zeros(x),
{
    axiom_u16_leading_zeros(x);
    let m = (15 - u16_leading_zeros(x)) as u16;
    lemma_bits16(x, 0, m, 0);
    assert forall|d: u8| #[trigger] digits_of(x).contains(d) implies d <= m by {
        if (d as u16) > m {
            assert((x >> (d as u16)) & 1u16 == 0u16);
        }
    }
}

// ---------------------------------------------------------------------------
// Digit sets.

impl BitSet<u8> {
    /// The set whose members are the set bits of `value`.
    pub fn new(value: u16) -> (r: Self)
        ensures
            r.0 == value,
            r@ == digits_of(value),
    {
        Self(value)
    }

    /// The members of either set.
    pub fn union(self, other: Self) -> (r: Self)
        ensures
            r@ == self@.union(other@),
    {
        proof {
            lemma_digits_ops(self.0, other.0);
        }
        Self(self.0 | other.0)
    }

    /// The members of both sets.
    pub fn intersection(self, other: Self) -> (r: Self)
        ensures
            r@ == self@.intersect(other@),
    {
        proof {
            lemma_digits_ops(self.0, other.0);
        }
        Self(self.0 & other.0)
    }

    /// The members of `self` that are not in `other`.
    pub fn difference(self, other: Self) -> (r: Self)
        ensures
            r@ == self@.difference(other@),
    {
        proof {
            lemma_digits_ops(self.0, other.0);
        }
        Self(self.0 & !other.0)
    }

    /// Adds `value`.
    pub fn insert(&mut self, value: u8)
        requires
            value < 16,
        ensures
            final(self)@ == old(self)@.insert(value),
    {
        proof {
            lemma_digit_single(value);
            lemma_digits_ops(self.0, 1u16 << value as u16);
        }
        self.0 = self.0 | (1u16 << value);
    }

    /// The number of members.
    pub fn len(self) -> (r: usize)
        ensures
            r == self@.len(),
    {
        self.into_iter().count_ones()
    }

    /// Whether `value` is a member.
    pub fn contains(self, value: u8) -> (r: bool)
        requires
            value < 16,
        ensures
            r == self@.contains(value),
    {
        self.0 >> value & 1 == 1
    }

    /// Drops `value`.
    pub fn remove(&mut self, value: u8)
        requires
            value < 16,
        ensures
            final(self)@ == old(self)@.remove(value),
    {
        proof {
            lemma_digit_single(value);
            lemma_digits_ops(self.0, 1u16 << value as u16);
            assert(old(self)@.difference(set![value]) =~= old(self)@.remove(value));
        }
        self.0 = self.0 & !(1u16 << value);
    }

    /// The least member of a nonempty set.
    pub fn pop(self) -> (r: u8)
        requires
            self@.len() > 0,
        ensures
            is_least(self@, r),
    {
        proof {
            lemma_digits_empty(self.0);
        }
        self.into_iter().rightmost_one_pos()
    }

    /// Drops every member of `other`.
    pub fn difference_mut(&mut self, other: Self)
        ensures
            final(self)@ == old(self)@.difference(other@),
    {
        proof {
            lemma_digits_ops(self.0, other.0);
        }
        self.0 = self.0 & !other.0;
    }

    /// A walk over the members in ascending order.
    pub fn into_iter(self) -> (r: BitSetIter<u8>)
        ensures
            r.0 == self.0,
            r@ == self@,
    {
        BitSetIter(self.0)
    }

    /// The set of the given digits.
    pub fn from_iter(values: Vec<u8>) -> (r: Self)
        requires
            forall|i: int| 0 <= i < values.len() ==> values[i] < 16,
        ensures
            r@ == values@.to_set(),
    {
        let mut s = Self::new(0);
        proof {
            lemma_digits_empty(0);
        }
        let mut i: usize = 0;
        while i < values.len()
            invariant
                i <= values.len(),
                forall|k: int| 0 <= k < values.len() ==> values[k] < 16,
                s@ == values@.subrange(0, i as int).to_set(),
            decreases values.len() - i,
        {
            proof {
                assert(values@.subrange(0, i + 1) == values@.subrange(0, i as int).push(values[i as int]));
                values@.subrange(0, i as int).lemma_push_to_set_commute(values[i as int]);
            }
            s.insert(values[i]);
            i += 1;
        }
        proof {
            assert(values@.subrange(0, i as int) == values@);
        }
        s
    }

    /// The members in ascending order.
    pub fn to_vec(self) -> (r: Vec<u8>)
        ensures
            r.len() == self@.len(),
            r@.to_set() == self@,
            forall|i: int, j: int| 0 <= i < j < r.len() ==> r[i] < r[j],
    {
        self.into_iter().collect_vec()
    }
}

// ---------------------------------------------------------------------------
// Walking a digit set.

impl BitSetIter<u8> {
    /// The least remaining member; 16 when none is left.
    fn rightmost_one_pos(&self) -> (r: u8)
        ensures
            self.0 == 0 ==> r == 16,
            self.0 != 0 ==> r < 16 && is_least(self@, r),
    {
        proof {
            axiom_u16_trailing_zeros(self.0);
            if self.0 != 0 {
                lemma_digits_lowest(self.0);
            }
        }
        self.0.trailing_zeros() as u8
    }

    /// The greatest remaining member.
    fn leftmost_one_pos(&self) -> (r: u8)
        requires
            self.0 != 0,
        ensures
            self@.contains(r),
            forall|d: u8| #[trigger] self@.contains(d) ==> d <= r,
    {
        proof {
            lemma_digits_highest(self.0);
        }
        (15 - self.0.leading_zeros()) as u8
    }

    /// The number of remaining members.
    fn count_ones(&self) -> (r: usize)
        ensures
            r == self@.len(),
    {
        let mut rest = BitSetIter::<u8>(self.0);
        let mut n: usize = 0;
        proof {
            lemma_digits_finite(self.0);
        }
        while rest.0 != 0
            invariant
                rest@.finite(),
                n + rest@.len() == self@.len(),
                self@.len() <= 16,
            decreases rest@.len(),
        {
            proof {
                lemma_digits_lowest(rest.0);
                lemma_digits_finite(rest.0 & (rest.0 - 1) as u16);
            }
            rest.clear_rightmost_one();
            n += 1;
        }
        proof {
            lemma_digits_empty(rest.0);
        }
        n
    }

    /// Drops the least remaining member.
    fn clear_rightmost_one(&mut self)
        ensures
            old(self).0 == 0 ==> final(self).0 == 0,
            old(self).0 != 0 ==> final(self)@ == old(self)@.remove(
                u16_trailing_zeros(old(self).0) as u8,
            ) && final(self).0 == old(self).0 & (old(self).0 - 1) as u16,
    {
        if self.0 != 0 {
            proof {
                lemma_digits_lowest(self.0);
            }
            self.0 = self.0 & (self.0 - 1);
        }
    }

    /// Takes the least remaining member.
    pub fn next(&mut self) -> (r: Option<u8>)
        ensures
            old(self)@.len() == 0 ==> r is None && final(self)@ == old(self)@,
            old(self)@.len() > 0 ==> (r matches Some(d) && is_least(old(self)@, d)
                && final(self)@ == old(self)@.remove(d)),
    {
        proof {
            lemma_digits_empty(self.0);
        }
        if self.0 != 0 {
            let trailing = self.rightmost_one_pos();
            proof {
                lemma_digits_lowest(self.0);
            }
            self.clear_rightmost_one();
            Some(trailing)
        } else {
            None
        }
    }

    /// The number of remaining members.
    pub fn count(self) -> (r: usize)
        ensures
            r == self@.len(),
    {
        self.count_ones()
    }

    /// The greatest remaining member, if any.
    pub fn last(self) -> (r: Option<u8>)
        ensures
            self@.len() == 0 ==> r is None,
            self@.len() > 0 ==> (r matches Some(d) && self@.contains(d) && forall|e: u8|
                #[trigger] self@.contains(e) ==> e <= d),
    {
        proof {
            lemma_digits_empty(self.0);
        }
        if self.0 != 0 {
            Some(self.leftmost_one_pos())
        } else {
            None
        }
    }

    /// The greatest remaining member, if any.
    pub fn max(self) -> (r: Option<u8>)
        ensures
            self@.len() == 0 ==> r is None,
            self@.len() > 0 ==> (r matches Some(d) && self@.contains(d) && forall|e: u8|
                #[trigger] self@.contains(e) ==> e <= d),
    {
        self.last()
    }

    /// The least remaining member, if any.
    pub fn min(self) -> (r: Option<u8>)
        ensures
            self@.len() == 0 ==> r is None,
            self@.len() > 0 ==> (r matches Some(d) && is_least(self@, d)),
    {
        proof {
            lemma_digits_empty(self.0);
        }
        if self.0 != 0 {
            Some(self.rightmost_one_pos())
        } else {
            None
        }
    }

    /// Drops the `n` least remaining members, then takes the least one left.
    pub fn nth(&mut self, n: usize) -> (r: Option<u8>)
        ensures
            r is Some <==> n < old(self)@.len(),
            r matches Some(d) ==> old(self)@.contains(d) && digit_rank(old(self)@, d) == n,
            r matches Some(d) ==> final(self)@ == digits_above(old(self)@, d),
            r is None ==> final(self)@ == Set::<u8>::empty(),
    {
        let ghost start = self@;
        let ghost mut dropped = Set::<u8>::empty();
        let mut i: usize = 0;
        proof {
            lemma_digits_finite(self.0);
            assert(start =~= dropped.union(self@));
        }
        while self.0 != 0 && i < n
            invariant
                self@.finite(),
                dropped.finite(),
                start.finite(),
                start == dropped.union(self@),
                dropped.disjoint(self@),
                dropped.len() == i,
                i <= n,
                forall|a: u8, b: u8|
                    #![trigger self@.contains(a), dropped.contains(b)]
                    self@.contains(a) && dropped.contains(b) ==> b < a,
            decreases self@.len(),
        {
            proof {
                lemma_digits_lowest(self.0);
                lemma_digits_finite(self.0 & (self.0 - 1) as u16);
            }
            let ghost t = u16_trailing_zeros(self.0) as u8;
            self.clear_rightmost_one();
            proof {
                dropped = dropped.insert(t);
                assert(start =~= dropped.union(self@));
            }
            i += 1;
        }
        proof {
            lemma_digits_empty(self.0);
            lemma_set_disjoint_lens(dropped, self@);
            if self.0 != 0 {
                lemma_digits_lowest(self.0);
                let d = u16_trailing_zeros(self.0) as u8;
                assert(start.filter(|e: u8| e < d) =~= dropped);
            } else {
                assert(start =~= dropped);
            }
        }
        let ghost before = self@;
        proof {
            lemma_digits_empty(self.0);
        }
        let r = self.next();
        proof {
            if let Some(m) = r {
                assert forall|x: u8| #[trigger] self@.contains(x) == digits_above(start, m).contains(x) by {
                    if start.contains(x) && x > m && dropped.contains(x) {
                        assert(before.contains(m) && dropped.contains(x));
                    }
                }
                assert(self@ =~= digits_above(start, m));
            } else {
                assert(self@ =~= Set::<u8>::empty());
            }
        }
        r
    }

    /// The remaining members in ascending order.
    pub fn collect_vec(self) -> (r: Vec<u8>)
        ensures
            r.len() == self@.len(),
            r@.to_set() == self@,
            forall|i: int, j: int| 0 <= i < j < r.len() ==> r[i] < r[j],
    {
        let mut rest = self;
        let mut out: Vec<u8> = Vec::new();
        proof {
            lemma_digits_finite(self.0);
        }
        while rest.0 != 0
            invariant
                rest@.finite(),
                self@.finite(),
                out.len() + rest@.len() == self@.len(),
                out@.to_set().union(rest@) == self@,
                out@.to_set().disjoint(rest@),
                forall|i: int, j: int| 0 <= i < j < out.len() ==> out[i] < out[j],
                forall|i: int, d: u8|
                    0 <= i < out.len() && #[trigger] rest@.contains(d) ==> #[trigger] out[i] < d,
            decreases rest@.len(),
        {
            proof {
                lemma_digits_empty(rest.0);
                lemma_digits_finite(rest.0 & (rest.0 - 1) as u16);
            }
            let ghost before = rest@;
            let d = rest.next().unwrap();
            proof {
                out@.lemma_push_to_set_commute(d);
            }
            out.push(d);
            proof {
                assert(out@.to_set().union(rest@) =~= self@);
                assert(out@.to_set().disjoint(rest@));
            }
        }
        proof {
            lemma_digits_empty(rest.0);
            assert(out@.to_set().union(rest@) =~= out@.to_set());
        }
        out
    }
}


// ---------------------------------------------------------------------------
// The model of index sets.

/// Whether bit `i` of a 128-bit word is set.
pub open spec fn bit128(x: u128, i: u128) -> bool {
    i < 128 && (x >> i) & 1u128 == 1u128
}

/// The members of a 128-bit word.
pub open spec fn indices_of(x: u128) -> Set<usize> {
    Set::new(|i: usize| bit128(x, i as u128))
}

impl View for BitSet<usize> {
    type V = Set<usize>;

    open spec fn view(&self) -> Set<usize> {
        indices_of(self.0)
    }
}

impl View for BitSetIter<usize> {
    type V = Set<usize>;

    open spec fn view(&self) -> Set<usize> {
        indices_of(self.0)
    }
}

/// How many members of `s` are below `i`.
pub open spec fn index_rank(s: Set<usize>, i: usize) -> nat {
    s.filter(|e: usize| e < i).len()
}

/// The members of `s` above `i`.
pub open spec fn indices_above(s: Set<usize>, i: usize) -> Set<usize> {
    s.filter(|e: usize| e > i)
}

/// `m` is the least member of `s`.
pub open spec fn is_least_index(s: Set<usize>, m: usize) -> bool {
    s.contains(m) && forall|a: usize| #[trigger] s.contains(a) ==> m <= a
}

/// The least member of a nonempty set.
pub open spec fn least_index(s: Set<usize>) -> usize {
    choose|m: usize| is_least_index(s, m)
}

// ---------------------------------------------------------------------------
// Bit-level facts on 128-bit words.

/// Membership under `|`, `&`, `& !` and single-bit words, bit by bit.
proof fn lemma_bits128(a: u128, b: u128, i: u128, j: u128)
    by (bit_vector)
    requires
        i < 128,
        j < 128,
    ensures
        ((a | b) >> i) & 1u128 == 1u128 <==> ((a >> i) & 1u128 == 1u128 || (b >> i) & 1u128
            == 1u128),
        ((a & b) >> i) & 1u128 == 1u128 <==> ((a >> i) & 1u128 == 1u128 && (b >> i) & 1u128
            == 1u128),
        ((a & !b) >> i) & 1u128 == 1u128 <==> ((a >> i) & 1u128 == 1u128 && (b >> i) & 1u128
            != 1u128),
        ((1u128 << j) >> i) & 1u128 == 1u128 <==> i == j,
        a == 0u128 ==> (a >> i) & 1u128 != 1u128,
{
}

/// Clearing the lowest set bit `t` keeps every other bit; no bit below `t` is set.
proof fn lemma_clear_lowest128(x: u128, t: u128, i: u128)
    by (bit_vector)
    requires
        x != 0,
        t < 128,
        i < 128,
        (x >> t) & 1u128 == 1u128,
        x << (128 - t) as u128 == 0,
    ensures
        ((x & (x - 1) as u128) >> i) & 1u128 == 1u128 <==> ((x >> i) & 1u128 == 1u128 && i != t),
        i < t ==> (x >> i) & 1u128 != 1u128,
{
}

/// The bits of a 128-bit word are those of its low half, then those of its high half.
proof fn lemma_halves(x: u128, j: u64)
    by (bit_vector)
    requires
        j < 64,
    ensures
        ((x >> (j as u128)) & 1u128 == 1u128) == (((x as u64) >> j) & 1u64 == 1u64),
        ((x >> (j as u128 + 64)) & 1u128 == 1u128) == ((((x >> 64u128) as u64) >> j) & 1u64
            == 1u64),
        ((x as u64) >> j) & 1u64 != 0u64 <==> ((x as u64) >> j) & 1u64 == 1u64,
        (((x >> 64u128) as u64) >> j) & 1u64 != 0u64 <==> (((x >> 64u128) as u64) >> j) & 1u64
            == 1u64,
        (x >> 64u128) as u64 == 0 ==> (x >> (j as u128 + 64)) & 1u128 != 1u128,
        x as u64 == 0 ==> (x >> (j as u128)) & 1u128 != 1u128,
{
}

/// A lowest set bit found in the low half is the lowest bit of the word.
proof fn lemma_lowest_in_low_half(x: u128, t: u64)
    by (bit_vector)
    requires
        t < 64,
        ((x as u64) >> t) & 1u64 == 1u64,
        (x as u64) << (64 - t) as u64 == 0,
    ensures
        (x >> (t as u128)) & 1u128 == 1u128,
        x << (128 - t) as u128 == 0,
{
}

/// With the low half clear, the high half's lowest set bit is the word's.
proof fn lemma_lowest_in_high_half(x: u128, t: u64)
    by (bit_vector)
    requires
        t < 64,
        x as u64 == 0,
        (((x >> 64u128) as u64) >> t) & 1u64 == 1u64,
        ((x >> 64u128) as u64) << (64 - t) as u64 == 0,
    ensures
        (x >> (t as u128 + 64)) & 1u128 == 1u128,
        x << (64 - t) as u128 == 0,
{
}

/// An index word holds at most 128 members.
pub proof fn lemma_indices_finite(x: u128)
    ensures
        indices_of(x).finite(),
        indices_of(x).len() <= 128,
{
    let r = Set::<usize>::range(0usize, 128usize);
    range_set_properties::<usize>(0usize, 128usize);
    assert(indices_of(x).subset_of(r));
    lemma_len_subset(indices_of(x), r);
}

/// Word operations are set operations on the members.
proof fn lemma_indices_ops(a: u128, b: u128)
    ensures
        indices_of(a | b) == indices_of(a).union(indices_of(b)),
        indices_of(a & b) == indices_of(a).intersect(indices_of(b)),
        indices_of(a & !b) == indices_of(a).difference(indices_of(b)),
{
    assert forall|i: usize| i < 128 implies #[trigger] indices_of(a | b).contains(i)
        == indices_of(a).union(indices_of(b)).contains(i) by {
        lemma_bits128(a, b, i as u128, 0);
    }
    assert forall|i: usize| i < 128 implies #[trigger] indices_of(a & b).contains(i)
        == indices_of(a).intersect(indices_of(b)).contains(i) by {
        lemma_bits128(a, b, i as u128, 0);
    }
    assert forall|i: usize| i < 128 implies #[trigger] indices_of(a & !b).contains(i)
        == indices_of(a).difference(indices_of(b)).contains(i) by {
        lemma_bits128(a, b, i as u128, 0);
    }
    assert(indices_of(a | b) =~= indices_of(a).union(indices_of(b)));
    assert(indices_of(a & b) =~= indices_of(a).intersect(indices_of(b)));
    assert(indices_of(a & !b) =~= indices_of(a).difference(indices_of(b)));
}

/// The word with only bit `v` set holds `v` alone.
proof fn lemma_index_single(v: usize)
    requires
        v < 128,
    ensures
        indices_of(1u128 << v as u128) == set![v],
{
    assert forall|i: usize| i < 128 implies #[trigger] indices_of(1u128 << v as u128).contains(i)
        == (i == v) by {
        lemma_bits128(0, 0, i as u128, v as u128);
    }
    assert(indices_of(1u128 << v as u128) =~= set![v]);
}

/// A nonzero word's lowest set bit, in the form the lemmas below take.
pub open spec fn lowest_bit128(x: u128, t: u128) -> bool {
    &&& x != 0
    &&& t < 128
    &&& (x >> t) & 1u128 == 1u128
    &&& x << (128 - t) as u128 == 0
}

/// The lowest set bit is the least member, and clearing it removes it.
proof fn lemma_indices_lowest(x: u128, t: u128)
    requires
        lowest_bit128(x, t),
    ensures
        is_least_index(indices_of(x), t as usize),
        least_index(indices_of(x)) == t as usize,
        indices_of(x & (x - 1) as u128) == indices_of(x).remove(t as usize),
{
    assert forall|i: usize| #[trigger] indices_of(x).contains(i) implies t <= i by {
        lemma_clear_lowest128(x, t, i as u128);
    }
    assert forall|i: usize| i < 128 implies #[trigger] indices_of(x & (x - 1) as u128).contains(i)
        == indices_of(x).remove(t as usize).contains(i) by {
        lemma_clear_lowest128(x, t, i as u128);
    }
    assert(indices_of(x & (x - 1) as u128) =~= indices_of(x).remove(t as usize));
    assert(is_least_index(indices_of(x), t as usize));
    let m = least_index(indices_of(x));
    assert(is_least_index(indices_of(x), m));
}

/// An index word is zero exactly when it has no members.
pub proof fn lemma_indices_empty(x: u128)
    ensures
        x == 0 <==> indices_of(x) == Set::<usize>::empty(),
        x == 0 <==> indices_of(x).len() == 0,
{
    lemma_indices_finite(x);
    if x == 0 {
        assert forall|i: usize| i < 128 implies !indices_of(x).contains(i) by {
            lemma_bits128(x, 0, i as u128, 0);
        }
        assert(indices_of(x) =~= Set::<usize>::empty());
    } else {
        lemma_low_pos(x);
        lemma_indices_lowest(x, low_pos(x));
        if indices_of(x).len() == 0 {
            indices_of(x).lemma_len0_is_empty();
        }
    }
}

/// Index of the lowest set bit of a word, from the trailing zeros of its two 64-bit halves.
pub open spec fn low_pos(x: u128) -> u128 {
    if x as u64 != 0 {
        u64_trailing_zeros(x as u64) as u128
    } else {
        (64 + u64_trailing_zeros((x >> 64u128) as u64)) as u128
    }
}

/// `low_pos` is the lowest set bit of a nonzero word.
proof fn lemma_low_pos(x: u128)
    requires
        x != 0,
    ensures
        lowest_bit128(x, low_pos(x)),
{
    let lo = x as u64;
    if lo != 0 {
        axiom_u64_trailing_zeros(lo);
        lemma_lowest_in_low_half(x, u64_trailing_zeros(lo) as u64);
    } else {
        let hi = (x >> 64u128) as u64;
        assert(x != 0 && x as u64 == 0 ==> (x >> 64u128) as u64 != 0) by (bit_vector);
        axiom_u64_trailing_zeros(hi);
        lemma_lowest_in_high_half(x, u64_trailing_zeros(hi) as u64);
    }
}

/// Index of the lowest set bit of a nonzero word.
fn lowest_one(x: u128) -> (t: u32)
    requires
        x != 0,
    ensures
        t as u128 == low_pos(x),
        lowest_bit128(x, t as u128),
{
    proof {
        lemma_low_pos(x);
    }
    let lo = x as u64;
    if lo != 0 {
        lo.trailing_zeros()
    } else {
        64 + ((x >> 64u32) as u64).trailing_zeros()
    }
}

/// Index of the highest set bit of a nonzero word, found from its two 64-bit halves.
fn highest_one(x: u128) -> (t: u32)
    requires
        x != 0,
    ensures
        t < 128,
        indices_of(x).contains(t as usize),
        forall|i: usize| #[trigger] indices_of(x).contains(i) ==> i <= t,
{
    let hi = (x >> 64u32) as u64;
    let lo = x as u64;
    proof {
        assert(x != 0 && x as u64 == 0 ==> (x >> 64u128) as u64 != 0) by (bit_vector);
        axiom_u64_leading_zeros(hi);
        axiom_u64_leading_zeros(lo);
    }
    if hi != 0 {
        let z = hi.leading_zeros();
        proof {
            lemma_halves(x, (63 - z) as u64);
            assert forall|i: usize| #[trigger] indices_of(x).contains(i) implies i <= 127 - z by {
                if i >= 64 {
                    lemma_halves(x, (i - 64) as u64);
                }
            }
        }
        127 - z
    } else {
        let z = lo.leading_zeros();
        proof {
            lemma_halves(x, (63 - z) as u64);
            assert forall|i: usize| #[trigger] indices_of(x).contains(i) implies i <= 63 - z by {
                if i >= 64 {
                    lemma_halves(x, (i - 64) as u64);
                } else {
                    lemma_halves(x, i as u64);
                }
            }
        }
        63 - z
    }
}

// ---------------------------------------------------------------------------
// Index sets.

impl BitSet<usize> {
    /// The set whose members are the set bits of `value`.
    pub fn new(value: u128) -> (r: Self)
        ensures
            r.0 == value,
            r@ == indices_of(value),
    {
        Self(value)
    }

    /// The members of either set.
    pub fn union(self, other: Self) -> (r: Self)
        ensures
            r@ == self@.union(other@),
    {
        proof {
            lemma_indices_ops(self.0, other.0);
        }
        Self(self.0 | other.0)
    }

    /// The members of both sets.
    pub fn intersection(self, other: Self) -> (r: Self)
        ensures
            r@ == self@.intersect(other@),
    {
        proof {
            lemma_indices_ops(self.0, other.0);
        }
        Self(self.0 & other.0)
    }

    /// The members of `self` that are not in `other`.
    pub fn difference(self, other: Self) -> (r: Self)
        ensures
            r@ == self@.difference(other@),
    {
        proof {
            lemma_indices_ops(self.0, other.0);
        }
        Self(self.0 & !other.0)
    }

    /// Adds `value`.
    pub fn insert(&mut self, value: usize)
        requires
            value < 128,
        ensures
            final(self)@ == old(self)@.insert(value),
    {
        proof {
            lemma_index_single(value);
            lemma_indices_ops(self.0, 1u128 << value as u128);
        }
        self.0 = self.0 | (1u128 << value);
    }

    /// Drops `value`.
    pub fn remove(&mut self, value: usize)
        requires
            value < 128,
        ensures
            final(self)@ == old(self)@.remove(value),
    {
        proof {
            lemma_index_single(value);
            lemma_indices_ops(self.0, 1u128 << value as u128);
            assert(old(self)@.difference(set![value]) =~= old(self)@.remove(value));
        }
        self.0 = self.0 & !(1u128 << value);
    }

    /// Whether `value` is a member.
    pub fn contains(self, value: usize) -> (r: bool)
        requires
            value < 128,
        ensures
            r == self@.contains(value),
    {
        self.0 >> value & 1 == 1
    }

    /// The number of members.
    pub fn len(&self) -> (r: usize)
        ensures
            r == self@.len(),
    {
        self.into_iter().count_ones()
    }

    /// A walk over the members in ascending order.
    pub fn into_iter(self) -> (r: BitSetIter<usize>)
        ensures
            r.0 == self.0,
            r@ == self@,
    {
        BitSetIter(self.0)
    }

    /// The set of the given indices.
    pub fn from_iter(values: Vec<usize>) -> (r: Self)
        requires
            forall|i: int| 0 <= i < values.len() ==> values[i] < 128,
        ensures
            r@ == values@.to_set(),
    {
        let mut s = Self::new(0);
        proof {
            lemma_indices_empty(0);
        }
        let mut i: usize = 0;
        while i < values.len()
            invariant
                i <= values.len(),
                forall|k: int| 0 <= k < values.len() ==> values[k] < 128,
                s@ == values@.subrange(0, i as int).to_set(),
            decreases values.len() - i,
        {
            proof {
                assert(values@.subrange(0, i + 1) == values@.subrange(0, i as int).push(
                    values[i as int],
                ));
                values@.subrange(0, i as int).lemma_push_to_set_commute(values[i as int]);
            }
            s.insert(values[i]);
            i += 1;
        }
        proof {
            assert(values@.subrange(0, i as int) == values@);
        }
        s
    }

    /// The members in ascending order.
    pub fn to_vec(self) -> (r: Vec<usize>)
        ensures
            r.len() == self@.len(),
            r@.to_set() == self@,
            forall|i: int, j: int| 0 <= i < j < r.len() ==> r[i] < r[j],
    {
        self.into_iter().collect_vec()
    }
}

// ---------------------------------------------------------------------------
// Walking an index set.

impl BitSetIter<usize> {
    /// The least remaining member; 128 when none is left.
    fn rightmost_one_pos(&self) -> (r: usize)
        ensures
            self.0 == 0 ==> r == 128,
            self.0 != 0 ==> r < 128 && is_least_index(self@, r),
    {
        if self.0 == 0 {
            128
        } else {
            let t = lowest_one(self.0);
            proof {
                lemma_indices_lowest(self.0, t as u128);
            }
            t as usize
        }
    }

    /// The greatest remaining member.
    fn leftmost_one_pos(&self) -> (r: usize)
        requires
            self.0 != 0,
        ensures
            self@.contains(r),
            forall|i: usize| #[trigger] self@.contains(i) ==> i <= r,
    {
        highest_one(self.0) as usize
    }

    /// The number of remaining members.
    fn count_ones(&self) -> (r: usize)
        ensures
            r == self@.len(),
    {
        let mut rest = BitSetIter::<usize>(self.0);
        let mut n: usize = 0;
        proof {
            lemma_indices_finite(self.0);
        }
        while rest.0 != 0
            invariant
                rest@.finite(),
                n + rest@.len() == self@.len(),
                self@.len() <= 128,
            decreases rest@.len(),
        {
            proof {
                lemma_low_pos(rest.0);
                lemma_indices_lowest(rest.0, low_pos(rest.0));
                lemma_indices_finite(rest.0 & (rest.0 - 1) as u128);
            }
            rest.clear_rightmost_one();
            n += 1;
        }
        proof {
            lemma_indices_empty(rest.0);
        }
        n
    }

    /// Drops the least remaining member.
    fn clear_rightmost_one(&mut self)
        ensures
            old(self).0 == 0 ==> final(self).0 == 0,
            old(self).0 != 0 ==> final(self)@ == old(self)@.remove(least_index(old(self)@))
                && final(self).0 == old(self).0 & (old(self).0 - 1) as u128,
    {
        if self.0 != 0 {
            proof {
                lemma_low_pos(self.0);
                lemma_indices_lowest(self.0, low_pos(self.0));
            }
            self.0 = self.0 & (self.0 - 1);
        }
    }

    /// Takes the least remaining member.
    pub fn next(&mut self) -> (r: Option<usize>)
        ensures
            old(self)@.len() == 0 ==> r is None && final(self)@ == old(self)@,
            old(self)@.len() > 0 ==> (r matches Some(i) && is_least_index(old(self)@, i)
                && final(self)@ == old(self)@.remove(i)),
    {
        proof {
            lemma_indices_empty(self.0);
        }
        if self.0 != 0 {
            let trailing = self.rightmost_one_pos();
            proof {
                lemma_low_pos(self.0);
                lemma_indices_lowest(self.0, low_pos(self.0));
            }
            self.clear_rightmost_one();
            Some(trailing)
        } else {
            None
        }
    }

    /// The number of remaining members.
    pub fn count(self) -> (r: usize)
        ensures
            r == self@.len(),
    {
        self.count_ones()
    }

    /// The greatest remaining member, if any.
    pub fn last(self) -> (r: Option<usize>)
        ensures
            self@.len() == 0 ==> r is None,
            self@.len() > 0 ==> (r matches Some(i) && self@.contains(i) && forall|e: usize|
                #[trigger] self@.contains(e) ==> e <= i),
    {
        proof {
            lemma_indices_empty(self.0);
        }
        if self.0 != 0 {
            Some(self.leftmost_one_pos())
        } else {
            None
        }
    }

    /// The greatest remaining member, if any.
    pub fn max(self) -> (r: Option<usize>)
        ensures
            self@.len() == 0 ==> r is None,
            self@.len() > 0 ==> (r matches Some(i) && self@.contains(i) && forall|e: usize|
                #[trigger] self@.contains(e) ==> e <= i),
    {
        self.last()
    }

    /// The least remaining member, if any.
    pub fn min(self) -> (r: Option<usize>)
        ensures
            self@.len() == 0 ==> r is None,
            self@.len() > 0 ==> (r matches Some(i) && is_least_index(self@, i)),
    {
        proof {
            lemma_indices_empty(self.0);
        }
        if self.0 != 0 {
            Some(self.rightmost_one_pos())
        } else {
            None
        }
    }

    /// Drops the `n` least remaining members, then takes the least one left.
    pub fn nth(&mut self, n: usize) -> (r: Option<usize>)
        ensures
            r is Some <==> n < old(self)@.len(),
            r matches Some(i) ==> old(self)@.contains(i) && index_rank(old(self)@, i) == n,
            r matches Some(i) ==> final(self)@ == indices_above(old(self)@, i),
            r is None ==> final(self)@ == Set::<usize>::empty(),
    {
        let ghost start = self@;
        let ghost mut dropped = Set::<usize>::empty();
        let mut i: usize = 0;
        proof {
            lemma_indices_finite(self.0);
            assert(start =~= dropped.union(self@));
        }
        while self.0 != 0 && i < n
            invariant
                self@.finite(),
                dropped.finite(),
                start.finite(),
                start == dropped.union(self@),
                dropped.disjoint(self@),
                dropped.len() == i,
                i <= n,
                forall|a: usize, b: usize|
                    #![trigger self@.contains(a), dropped.contains(b)]
                    self@.contains(a) && dropped.contains(b) ==> b < a,
            decreases self@.len(),
        {
            let ghost t = least_index(self@);
            proof {
                lemma_low_pos(self.0);
                lemma_indices_lowest(self.0, low_pos(self.0));
                lemma_indices_finite(self.0 & (self.0 - 1) as u128);
            }
            self.clear_rightmost_one();
            proof {
                dropped = dropped.insert(t);
                assert(start =~= dropped.union(self@));
            }
            i += 1;
        }
        proof {
            lemma_indices_empty(self.0);
            lemma_set_disjoint_lens(dropped, self@);
            if self.0 != 0 {
                lemma_low_pos(self.0);
                lemma_indices_lowest(self.0, low_pos(self.0));
                let m = low_pos(self.0) as usize;
                assert(start.filter(|e: usize| e < m) =~= dropped);
            } else {
                assert(start =~= dropped);
            }
        }
        let ghost before = self@;
        proof {
            lemma_indices_empty(self.0);
        }
        let r = self.next();
        proof {
            if let Some(m) = r {
                assert forall|x: usize| #[trigger] self@.contains(x) == indices_above(start, m).contains(x) by {
                    if start.contains(x) && x > m && dropped.contains(x) {
                        assert(before.contains(m) && dropped.contains(x));
                    }
                }
                assert(self@ =~= indices_above(start, m));
            } else {
                assert(self@ =~= Set::<usize>::empty());
            }
        }
        r
    }

    /// The remaining members in ascending order.
    pub fn collect_vec(self) -> (r: Vec<usize>)
        ensures
            r.len() == self@.len(),
            r@.to_set() == self@,
            forall|i: int, j: int| 0 <= i < j < r.len() ==> r[i] < r[j],
    {
        let mut rest = self;
        let mut out: Vec<usize> = Vec::new();
        proof {
            lemma_indices_finite(self.0);
        }
        while rest.0 != 0
            invariant
                rest@.finite(),
                self@.finite(),
                out.len() + rest@.len() == self@.len(),
                out@.to_set().union(rest@) == self@,
                out@.to_set().disjoint(rest@),
                forall|i: int, j: int| 0 <= i < j < out.len() ==> out[i] < out[j],
                forall|i: int, e: usize|
                    0 <= i < out.len() && #[trigger] rest@.contains(e) ==> #[trigger] out[i] < e,
            decreases rest@.len(),
        {
            proof {
                lemma_indices_empty(rest.0);
                lemma_low_pos(rest.0);
                lemma_indices_lowest(rest.0, low_pos(rest.0));
                lemma_indices_finite(rest.0 & (rest.0 - 1) as u128);
            }
            let e = rest.next().unwrap();
            proof {
                out@.lemma_push_to_set_commute(e);
            }
            out.push(e);
            proof {
                assert(out@.to_set().union(rest@) =~= self@);
                assert(out@.to_set().disjoint(rest@));
            }
        }
        proof {
            lemma_indices_empty(rest.0);
            assert(out@.to_set().union(rest@) =~= out@.to_set());
        }
        out
    }
}

// ---------------------------------------------------------------------------
// Laws of the set operations.

/// A union of digit sets holds exactly the members of either side.
pub proof fn law_digit_union_contains(a: DigitSet, b: DigitSet, x: u8)
    ensures
        a@.union(b@).contains(x) == (a@.contains(x) || b@.contains(x)),
{
}

/// A digit set's members outside `b` and inside `b` add up to all of its members.
pub proof fn law_digit_difference_intersection_len(a: DigitSet, b: DigitSet)
    ensures
        a@.difference(b@).len() + a@.intersect(b@).len() == a@.len(),
{
    lemma_digits_finite(a.0);
    lemma_digits_finite(b.0);
    lemma_set_difference_len(a@, b@);
}

/// A union of index sets holds exactly the members of either side.
pub proof fn law_index_union_contains(a: IndexSet, b: IndexSet, x: usize)
    ensures
        a@.union(b@).contains(x) == (a@.contains(x) || b@.contains(x)),
{
}

/// An index set's members outside `b` and inside `b` add up to all of its members.
pub proof fn law_index_difference_intersection_len(a: IndexSet, b: IndexSet)
    ensures
        a@.difference(b@).len() + a@.intersect(b@).len() == a@.len(),
{
    lemma_indices_finite(a.0);
    lemma_indices_finite(b.0);
    lemma_set_difference_len(a@, b@);
}

} // verus!
