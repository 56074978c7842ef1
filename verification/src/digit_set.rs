use vstd::prelude::*;

use crate::rng::random_below;

verus! {

/// Bit mask with one bit per digit: bit `d - 1` stands for digit `d`.
pub const FULL_MASK: u16 = 0x1ff;

/// Whether digit `d` (1 to 9) is present in the 9-bit mask `m`.
pub open spec fn mask_has(m: u16, d: u8) -> bool {
    &&& 1 <= d <= 9
    &&& (m >> ((d - 1) as u16)) & 1 == 1
}

/// How many of the digits 1 to 9 are present in the mask `m`.
pub open spec fn mask_count(m: u16) -> int {
    (if mask_has(m, 1) { 1int } else { 0int }) + (if mask_has(m, 2) { 1int } else { 0int })
        + (if mask_has(m, 3) { 1int } else { 0int }) + (if mask_has(m, 4) { 1int } else { 0int })
        + (if mask_has(m, 5) { 1int } else { 0int }) + (if mask_has(m, 6) { 1int } else { 0int })
        + (if mask_has(m, 7) { 1int } else { 0int }) + (if mask_has(m, 8) { 1int } else { 0int })
        + (if mask_has(m, 9) { 1int } else { 0int })
}

/// How many of the digits 1 to `d - 1` are present in the mask `m`.
pub open spec fn mask_count_below(m: u16, d: int) -> int
    decreases d,
{
    if d <= 1 {
        0int
    } else {
        mask_count_below(m, d - 1) + (if mask_has(m, (d - 1) as u8) { 1int } else { 0int })
    }
}

/// A set of digits from 1 to 9, stored as a 9-bit mask.
#[derive(Clone, Copy, PartialEq, Eq, Structural, Debug)]
pub struct DigitSet {
    data: u16,
}

impl DigitSet {
    /// Whether digit `d` is a member of this set.
    pub closed spec fn has(self, d: u8) -> bool {
        mask_has(self.data, d)
    }

    /// The number of digits in this set.
    pub closed spec fn size(self) -> int {
        mask_count(self.data)
    }

    /// Only the nine bits that stand for digits are used.
    pub closed spec fn wf(self) -> bool {
        self.data < 512
    }

    /// Every digit of `self` is a digit of `other`.
    pub open spec fn subset_of(self, other: DigitSet) -> bool {
        forall|d: u8| self.has(d) ==> other.has(d)
    }

    /// No digit is shared between `self` and `other`.
    pub open spec fn disjoint(self, other: DigitSet) -> bool {
        forall|d: u8| !(self.has(d) && other.has(d))
    }

    /// The full set, holding every digit 1 to 9.
    pub fn full() -> (r: DigitSet)
        ensures
            r.wf(),
            forall|d: u8| r.has(d) <==> 1 <= d <= 9,
            r.size() == 9,
    {
        let r = DigitSet { data: FULL_MASK };
        proof {
            assert forall|d: u8| r.has(d) <==> 1 <= d <= 9 by {
                lemma_mask_full(d);
            }
            assert(mask_count(0x1ffu16) == 9) by (bit_vector);
        }
        r
    }

    /// The singleton set holding exactly the digit `val`.
    pub fn new(val: u8) -> (r: DigitSet)
        requires
            1 <= val <= 9,
        ensures
            r.wf(),
            forall|d: u8| r.has(d) <==> d == val,
            r.size() == 1,
            r.has(val),
    {
        let r = DigitSet { data: 1u16 << ((val - 1) as u16) };
        proof {
            let m = r.data;
            assert(m < 512 && mask_count(m) == 1) by (bit_vector)
                requires
                    m == 1u16 << ((val - 1) as u16) && 1 <= val <= 9,
            ;
            assert forall|d: u8| r.has(d) <==> d == val by {
                lemma_mask_single(val, d);
            }
        }
        r
    }

    /// Whether digit `d` is in the set.
    pub fn has_digit(&self, d: u8) -> (r: bool)
        requires
            1 <= d <= 9,
        ensures
            r == self.has(d),
    {
        (self.data >> ((d - 1) as u16)) & 1 == 1
    }

    /// Whether the set holds no digit at all.
    pub fn is_empty(&self) -> (r: bool)
        requires
            self.wf(),
        ensures
            r <==> self.size() == 0,
    {
        proof {
            let m = self.data;
            assert((m == 0) <==> mask_count(m) == 0) by (bit_vector)
                requires
                    m < 512,
            ;
        }
        self.data == 0
    }

    /// Whether exactly one digit is in the set.
    pub fn is_single(&self) -> (r: bool)
        requires
            self.wf(),
        ensures
            r <==> self.size() == 1,
    {
        proof {
            let m = self.data;
            assert(m != 0 ==> ((m & ((m - 1) as u16) == 0) <==> mask_count(m) == 1))
                by (bit_vector)
                requires
                    m < 512,
            ;
            assert(mask_count(0u16) == 0) by (bit_vector);
        }
        self.data != 0 && (self.data & (self.data - 1)) == 0
    }

    /// The digit of a singleton set, or nothing if the set is not a singleton.
    pub fn single_to_number(&self) -> (r: Option<u8>)
        requires
            self.wf(),
        ensures
            match r {
                Some(d) => self.size() == 1 && 1 <= d <= 9 && self.has(d),
                None => self.size() != 1,
            },
    {
        if !self.is_single() {
            return None;
        }
        let mut d: u8 = 1;
        while d <= 9
            invariant
                self.wf(),
                self.size() == 1,
                1 <= d <= 10,
                forall|e: u8| 1 <= e < d ==> !self.has(e),
            decreases 10 - d,
        {
            if self.has_digit(d) {
                return Some(d);
            }
            d = d + 1;
        }
        proof {
            assert(!self.has(1) && !self.has(2) && !self.has(3) && !self.has(4) && !self.has(5)
                && !self.has(6) && !self.has(7) && !self.has(8) && !self.has(9));
            assert(self.size() == 0);
        }
        None
    }

    /// The number of digits in the set.
    pub fn count(&self) -> (r: u8)
        requires
            self.wf(),
        ensures
            r == self.size(),
            r <= 9,
    {
        let mut c: u8 = 0;
        let mut d: u8 = 1;
        while d <= 9
            invariant
                1 <= d <= 10,
                c == mask_count_below(self.data, d as int),
                c <= d - 1,
            decreases 10 - d,
        {
            if self.has_digit(d) {
                c = c + 1;
            }
            d = d + 1;
        }
        proof {
            lemma_mask_count_below_all(self.data);
        }
        c
    }

    /// A singleton subset of a non-empty set, chosen at random.
    pub fn select_random(&self) -> (r: DigitSet)
        requires
            self.wf(),
            self.size() >= 1,
        ensures
            r.wf(),
            r.size() == 1,
            r.subset_of(*self),
    {
        let mut digits: Vec<u8> = Vec::new();
        let mut d: u8 = 1;
        while d <= 9
            invariant
                1 <= d <= 10,
                digits@.len() == mask_count_below(self.data, d as int),
                forall|j: int|
                    0 <= j < digits@.len() ==> self.has(#[trigger] digits@[j]) && 1 <= digits@[j]
                        <= 9,
            decreases 10 - d,
        {
            if self.has_digit(d) {
                digits.push(d);
            }
            d = d + 1;
        }
        proof {
            lemma_mask_count_below_all(self.data);
        }
        let n = random_below(digits.len());
        let val = digits[n];
        let r = DigitSet::new(val);
        proof {
            assert forall|e: u8| r.has(e) implies self.has(e) by {
                assert(e == val);
            }
        }
        r
    }

    /// Whether the set is disjoint from `rhs`.
    pub fn doesnt_contain(&self, rhs: DigitSet) -> (r: bool)
        requires
            self.wf(),
            rhs.wf(),
        ensures
            r <==> self.disjoint(rhs),
    {
        let r = self.data & rhs.data == 0;
        proof {
            if r {
                assert forall|d: u8| !(self.has(d) && rhs.has(d)) by {
                    lemma_mask_and(self.data, rhs.data, d);
                }
            } else {
                lemma_set_overlap_witness(*self, rhs);
            }
        }
        r
    }

    /// Whether every digit of `rhs` is in the set.
    pub fn contains(&self, rhs: DigitSet) -> (r: bool)
        requires
            self.wf(),
            rhs.wf(),
        ensures
            r <==> rhs.subset_of(*self),
    {
        let r = self.data & rhs.data == rhs.data;
        proof {
            if r {
                assert forall|d: u8| rhs.has(d) implies self.has(d) by {
                    lemma_mask_and(self.data, rhs.data, d);
                    assert(mask_has(self.data & rhs.data, d) == mask_has(rhs.data, d));
                }
            } else {
                lemma_set_missing_witness(*self, rhs);
            }
        }
        r
    }

    /// The set of digits of `self` that are not in `rhs`.
    pub fn sub(&self, rhs: DigitSet) -> (r: DigitSet)
        requires
            self.wf(),
            rhs.wf(),
        ensures
            r.wf(),
            forall|d: u8| r.has(d) <==> (self.has(d) && !rhs.has(d)),
    {
        let r = DigitSet { data: self.data & !rhs.data };
        proof {
            let a = self.data;
            let b = rhs.data;
            assert((a & !b) < 512) by (bit_vector)
                requires
                    a < 512,
            ;
            assert forall|d: u8| r.has(d) <==> (self.has(d) && !rhs.has(d)) by {
                lemma_mask_and_not(a, b, d);
            }
        }
        r
    }
}

/// The full mask holds exactly the digits 1 to 9.
proof fn lemma_mask_full(d: u8)
    by (bit_vector)
    ensures
        mask_has(0x1ffu16, d) <==> 1 <= d <= 9,
{
}

/// A one-bit mask holds exactly its own digit.
proof fn lemma_mask_single(v: u8, d: u8)
    by (bit_vector)
    requires
        1 <= v <= 9,
    ensures
        mask_has(1u16 << ((v - 1) as u16), d) <==> d == v,
{
}

/// Digit membership distributes over bitwise and, and no digit is out of range.
proof fn lemma_mask_and(a: u16, b: u16, d: u8)
    by (bit_vector)
    ensures
        1 <= d <= 9 ==> (mask_has(a & b, d) == (mask_has(a, d) && mask_has(b, d))),
        d < 1 || d > 9 ==> !mask_has(a, d) && !mask_has(b, d),
        !mask_has(0u16, d),
{
}

/// Digit membership distributes over subtraction of masks.
proof fn lemma_mask_and_not(a: u16, b: u16, d: u8)
    by (bit_vector)
    ensures
        mask_has(a & !b, d) == (mask_has(a, d) && !mask_has(b, d)),
{
}

/// Two overlapping masks share some digit.
proof fn lemma_mask_overlap(a: u16, b: u16)
    by (bit_vector)
    requires
        a < 512,
        b < 512,
        a & b != 0,
    ensures
        (mask_has(a, 1) && mask_has(b, 1)) || (mask_has(a, 2) && mask_has(b, 2)) || (mask_has(
            a,
            3,
        ) && mask_has(b, 3)) || (mask_has(a, 4) && mask_has(b, 4)) || (mask_has(a, 5) && mask_has(
            b,
            5,
        )) || (mask_has(a, 6) && mask_has(b, 6)) || (mask_has(a, 7) && mask_has(b, 7)) || (mask_has(
            a,
            8,
        ) && mask_has(b, 8)) || (mask_has(a, 9) && mask_has(b, 9)),
{
}

/// Sets with overlapping masks share some digit.
proof fn lemma_set_overlap_witness(a: DigitSet, b: DigitSet)
    requires
        a.wf(),
        b.wf(),
        a.data & b.data != 0,
    ensures
        exists|d: u8| a.has(d) && b.has(d),
{
    lemma_mask_overlap(a.data, b.data);
    if mask_has(a.data, 1) && mask_has(b.data, 1) {
        assert(a.has(1) && b.has(1));
    } else if mask_has(a.data, 2) && mask_has(b.data, 2) {
        assert(a.has(2) && b.has(2));
    } else if mask_has(a.data, 3) && mask_has(b.data, 3) {
        assert(a.has(3) && b.has(3));
    } else if mask_has(a.data, 4) && mask_has(b.data, 4) {
        assert(a.has(4) && b.has(4));
    } else if mask_has(a.data, 5) && mask_has(b.data, 5) {
        assert(a.has(5) && b.has(5));
    } else if mask_has(a.data, 6) && mask_has(b.data, 6) {
        assert(a.has(6) && b.has(6));
    } else if mask_has(a.data, 7) && mask_has(b.data, 7) {
        assert(a.has(7) && b.has(7));
    } else if mask_has(a.data, 8) && mask_has(b.data, 8) {
        assert(a.has(8) && b.has(8));
    } else {
        assert(a.has(9) && b.has(9));
    }
}

/// If `b` is not covered by `a`, some digit of `b` is missing from `a`.
proof fn lemma_mask_not_superset(a: u16, b: u16)
    by (bit_vector)
    requires
        a < 512,
        b < 512,
        a & b != b,
    ensures
        (mask_has(b, 1) && !mask_has(a, 1)) || (mask_has(b, 2) && !mask_has(a, 2)) || (mask_has(
            b,
            3,
        ) && !mask_has(a, 3)) || (mask_has(b, 4) && !mask_has(a, 4)) || (mask_has(b, 5) && !mask_has(
            a,
            5,
        )) || (mask_has(b, 6) && !mask_has(a, 6)) || (mask_has(b, 7) && !mask_has(a, 7)) || (
        mask_has(b, 8) && !mask_has(a, 8)) || (mask_has(b, 9) && !mask_has(a, 9)),
{
}

/// If the mask of `b` is not covered by that of `a`, `b` has a digit outside `a`.
proof fn lemma_set_missing_witness(a: DigitSet, b: DigitSet)
    requires
        a.wf(),
        b.wf(),
        a.data & b.data != b.data,
    ensures
        exists|d: u8| b.has(d) && !a.has(d),
{
    lemma_mask_not_superset(a.data, b.data);
    if mask_has(b.data, 1) && !mask_has(a.data, 1) {
        assert(b.has(1) && !a.has(1));
    } else if mask_has(b.data, 2) && !mask_has(a.data, 2) {
        assert(b.has(2) && !a.has(2));
    } else if mask_has(b.data, 3) && !mask_has(a.data, 3) {
        assert(b.has(3) && !a.has(3));
    } else if mask_has(b.data, 4) && !mask_has(a.data, 4) {
        assert(b.has(4) && !a.has(4));
    } else if mask_has(b.data, 5) && !mask_has(a.data, 5) {
        assert(b.has(5) && !a.has(5));
    } else if mask_has(b.data, 6) && !mask_has(a.data, 6) {
        assert(b.has(6) && !a.has(6));
    } else if mask_has(b.data, 7) && !mask_has(a.data, 7) {
        assert(b.has(7) && !a.has(7));
    } else if mask_has(b.data, 8) && !mask_has(a.data, 8) {
        assert(b.has(8) && !a.has(8));
    } else {
        assert(b.has(9) && !a.has(9));
    }
}

/// Counting digits below 10 counts all digits.
proof fn lemma_mask_count_below_all(m: u16)
    ensures
        mask_count_below(m, 10) == mask_count(m),
{
    reveal_with_fuel(mask_count_below, 11);
}

/// The size of a set is between 0 and 9.
pub proof fn lemma_size_bounds(s: DigitSet)
    ensures
        0 <= s.size() <= 9,
{
}

/// A subset never has more digits, and a proper subset has strictly fewer.
pub proof fn lemma_subset_size(a: DigitSet, b: DigitSet)
    requires
        a.wf(),
        b.wf(),
        a.subset_of(b),
    ensures
        a.size() <= b.size(),
        a != b ==> a.size() < b.size(),
{
    let x = a.data;
    let y = b.data;
    if x & !y != 0 {
        lemma_not_sub_witness(a, b);
        assert(false);
    }
    assert(mask_count(x) <= mask_count(y) && (x != y ==> mask_count(x) < mask_count(y)))
        by (bit_vector)
        requires
            x < 512 && y < 512 && x & !y == 0,
    ;
}

/// If subtracting the mask of `b` from that of `a` leaves something, `a` has a
/// digit outside `b`.
proof fn lemma_not_sub_witness(a: DigitSet, b: DigitSet)
    requires
        a.wf(),
        a.data & !b.data != 0,
    ensures
        exists|d: u8| a.has(d) && !b.has(d),
{
    let x = a.data;
    let y = b.data;
    assert((mask_has(x, 1) && !mask_has(y, 1)) || (mask_has(x, 2) && !mask_has(y, 2)) || (mask_has(
        x,
        3,
    ) && !mask_has(y, 3)) || (mask_has(x, 4) && !mask_has(y, 4)) || (mask_has(x, 5) && !mask_has(
        y,
        5,
    )) || (mask_has(x, 6) && !mask_has(y, 6)) || (mask_has(x, 7) && !mask_has(y, 7)) || (mask_has(
        x,
        8,
    ) && !mask_has(y, 8)) || (mask_has(x, 9) && !mask_has(y, 9))) by (bit_vector)
        requires
            x < 512 && x & !y != 0,
    ;
    if mask_has(x, 1) && !mask_has(y, 1) {
        assert(a.has(1) && !b.has(1));
    } else if mask_has(x, 2) && !mask_has(y, 2) {
        assert(a.has(2) && !b.has(2));
    } else if mask_has(x, 3) && !mask_has(y, 3) {
        assert(a.has(3) && !b.has(3));
    } else if mask_has(x, 4) && !mask_has(y, 4) {
        assert(a.has(4) && !b.has(4));
    } else if mask_has(x, 5) && !mask_has(y, 5) {
        assert(a.has(5) && !b.has(5));
    } else if mask_has(x, 6) && !mask_has(y, 6) {
        assert(a.has(6) && !b.has(6));
    } else if mask_has(x, 7) && !mask_has(y, 7) {
        assert(a.has(7) && !b.has(7));
    } else if mask_has(x, 8) && !mask_has(y, 8) {
        assert(a.has(8) && !b.has(8));
    } else {
        assert(a.has(9) && !b.has(9));
    }
}

/// Well-formed sets with the same digits are the same set.
pub proof fn lemma_ext_eq(a: DigitSet, b: DigitSet)
    requires
        a.wf(),
        b.wf(),
        forall|d: u8| a.has(d) == b.has(d),
    ensures
        a == b,
{
    if a.data != b.data {
        if a.data & !b.data != 0 {
            lemma_not_sub_witness(a, b);
        } else {
            let x = a.data;
            let y = b.data;
            assert(y & !x != 0) by (bit_vector)
                requires
                    x != y && x & !y == 0,
            ;
            lemma_not_sub_witness(b, a);
        }
        assert(false);
    }
}

/// A singleton set has exactly one digit.
pub proof fn lemma_singleton_unique(s: DigitSet, d1: u8, d2: u8)
    requires
        s.size() == 1,
        s.has(d1),
        s.has(d2),
    ensures
        d1 == d2,
{
    let m = s.data;
    assert(mask_count(m) == 1 && mask_has(m, d1) && mask_has(m, d2) ==> d1 == d2) by (bit_vector);
}

/// Only digits 1 to 9 can be members of a set.
pub proof fn lemma_has_range(s: DigitSet, d: u8)
    requires
        s.has(d),
    ensures
        1 <= d <= 9,
{
}

/// A set with a member is not empty.
pub proof fn lemma_has_size_pos(s: DigitSet, d: u8)
    requires
        s.has(d),
    ensures
        s.size() >= 1,
{
    let m = s.data;
    assert(mask_has(m, d) ==> mask_count(m) >= 1) by (bit_vector);
}

/// Sets that are not disjoint share some digit.
pub proof fn lemma_overlap_nonempty(a: DigitSet, b: DigitSet)
    requires
        !a.disjoint(b),
    ensures
        exists|d: u8| a.has(d) && b.has(d),
{
}

/// A non-empty set has some digit.
pub proof fn lemma_nonempty_witness(s: DigitSet)
    requires
        s.size() >= 1,
    ensures
        exists|d: u8| s.has(d),
{
    if s.has(1) {
    } else if s.has(2) {
    } else if s.has(3) {
    } else if s.has(4) {
    } else if s.has(5) {
    } else if s.has(6) {
    } else if s.has(7) {
    } else if s.has(8) {
    } else if s.has(9) {
    } else {
        assert(s.size() == 0);
        assert(false);
    }
}

} // verus!
