//! Sets of candidate digits 1..=9, stored as a bitmask.

use vstd::prelude::*;
use vstd::set_lib::lemma_int_range;
use vstd::set_lib::lemma_len_subset;
use vstd::set_lib::lemma_set_disjoint_lens;
use vstd::set_lib::set_int_range;

verus! {

/// The nine Sudoku digits, as a mathematical set.
pub open spec fn all_digits() -> Set<int> {
    Set::new(|d: int| 1 <= d <= 9)
}

/// A set of candidate digits. Bit `d` of `mask` is set exactly when digit
/// `d` (for `1 <= d <= 9`) is still a candidate; all other bits stay clear.
#[derive(Clone, Copy, PartialEq, Eq, Structural)]
pub struct DigitSet {
    mask: u16,
}

impl View for DigitSet {
    type V = Set<int>;

    closed spec fn view(&self) -> Set<int> {
        Set::new(|d: int| 1 <= d <= 9 && self.mask & (1u16 << (d as u16)) != 0)
    }
}

impl DigitSet {
    /// Only bits 1..=9 are ever set.
    pub closed spec fn wf(self) -> bool {
        self.mask & 0xfc01u16 == 0
    }

    /// The set with no candidates.
    pub fn empty() -> (r: DigitSet)
        ensures
            r.wf(),
            r@ == Set::<int>::empty(),
    {
        let r = DigitSet { mask: 0 };
        proof {
            assert(forall|d: u16| 1 <= d <= 9 ==> (0u16 & (1u16 << d)) == 0u16) by (bit_vector);
            assert(0u16 & 0xfc01u16 == 0) by (bit_vector);
            assert(r@ =~= Set::<int>::empty());
        }
        r
    }

    /// The set holding every digit 1..=9.
    pub fn full() -> (r: DigitSet)
        ensures
            r.wf(),
            r@ == all_digits(),
    {
        let r = DigitSet { mask: 0x03feu16 };
        proof {
            assert(0x03feu16 & 0xfc01u16 == 0) by (bit_vector);
            assert(forall|d: u16| 1 <= d <= 9 ==> (0x03feu16 & (1u16 << d)) != 0u16) by (bit_vector);
            assert(r@ =~= all_digits());
        }
        r
    }

    /// Whether `d` is still a candidate.
    pub fn contains(self, d: u8) -> (r: bool)
        requires
            1 <= d <= 9,
        ensures
            r == self@.contains(d as int),
    {
        self.mask & (1u16 << (d as u16)) != 0
    }

    /// Add the digit `d`.
    pub fn insert(self, d: u8) -> (r: DigitSet)
        requires
            self.wf(),
            1 <= d <= 9,
        ensures
            r.wf(),
            r@ == self@.insert(d as int),
    {
        let r = DigitSet { mask: self.mask | (1u16 << (d as u16)) };
        proof {
            let m = self.mask;
            let dd = d as u16;
            assert(m & 0xfc01u16 == 0 && 1 <= dd <= 9 ==> (m | (1u16 << dd)) & 0xfc01u16
                == 0) by (bit_vector);
            assert(forall|e: u16|
                1 <= e <= 9 && 1 <= dd <= 9 ==> (((m | (1u16 << dd)) & (1u16 << e) != 0) <==> ((m
                    & (1u16 << e) != 0) || e == dd))) by (bit_vector);
            assert(r@ =~= self@.insert(d as int));
        }
        r
    }

    /// Drop the digit `d`.
    pub fn remove(self, d: u8) -> (r: DigitSet)
        requires
            self.wf(),
            1 <= d <= 9,
        ensures
            r.wf(),
            r@ == self@.remove(d as int),
    {
        let r = DigitSet { mask: self.mask & !(1u16 << (d as u16)) };
        proof {
            let m = self.mask;
            let dd = d as u16;
            assert(m & 0xfc01u16 == 0 ==> (m & !(1u16 << dd)) & 0xfc01u16 == 0) by (bit_vector);
            assert(forall|e: u16|
                1 <= e <= 9 && 1 <= dd <= 9 ==> (((m & !(1u16 << dd)) & (1u16 << e) != 0) <==> ((m
                    & (1u16 << e) != 0) && e != dd))) by (bit_vector);
            assert(r@ =~= self@.remove(d as int));
        }
        r
    }

    /// All candidates of `self` together with those of `other`.
    pub fn union(self, other: DigitSet) -> (r: DigitSet)
        requires
            self.wf(),
            other.wf(),
        ensures
            r.wf(),
            r@ == self@.union(other@),
    {
        let r = DigitSet { mask: self.mask | other.mask };
        proof {
            let m = self.mask;
            let n = other.mask;
            assert(m & 0xfc01u16 == 0 && n & 0xfc01u16 == 0 ==> (m | n) & 0xfc01u16
                == 0) by (bit_vector);
            assert(forall|e: u16|
                1 <= e <= 9 ==> (((m | n) & (1u16 << e) != 0) <==> ((m & (1u16 << e) != 0) || (n & (
                1u16 << e) != 0)))) by (bit_vector);
            assert(r@ =~= self@.union(other@));
        }
        r
    }

    /// The candidates of `self` that are not in `other`.
    pub fn difference(self, other: DigitSet) -> (r: DigitSet)
        requires
            self.wf(),
        ensures
            r.wf(),
            r@ == self@.difference(other@),
    {
        let r = DigitSet { mask: self.mask & !other.mask };
        proof {
            let m = self.mask;
            let n = other.mask;
            assert(m & 0xfc01u16 == 0 ==> (m & !n) & 0xfc01u16 == 0) by (bit_vector);
            assert(forall|e: u16|
                1 <= e <= 9 ==> (((m & !n) & (1u16 << e) != 0) <==> ((m & (1u16 << e) != 0) && !(n
                    & (1u16 << e) != 0)))) by (bit_vector);
            assert(r@ =~= self@.difference(other@));
        }
        r
    }

    /// How many candidates are left.
    pub fn count(self) -> (n: usize)
        requires
            self.wf(),
        ensures
            n == self@.len(),
            n <= 9,
    {
        proof {
            lemma_digit_set_bounds(self);
            assert(counted_below(self@, 1) =~= Set::<int>::empty());
        }
        let mut n: usize = 0;
        let mut d: u8 = 1;
        while d <= 9
            invariant
                1 <= d <= 10,
                self.wf(),
                n == counted_below(self@, d as int).len(),
                n <= 9,
                counted_below(self@, d as int).finite(),
            decreases 10 - d,
        {
            proof {
                lemma_digit_set_bounds(self);
                lemma_len_subset(counted_below(self@, d as int + 1), self@);
            }
            if self.contains(d) {
                proof {
                    assert(counted_below(self@, d as int + 1) =~= counted_below(
                        self@,
                        d as int,
                    ).insert(d as int));
                }
                n = n + 1;
            } else {
                proof {
                    assert(counted_below(self@, d as int + 1) =~= counted_below(self@, d as int));
                }
            }
            d = d + 1;
        }
        proof {
            assert(counted_below(self@, 10) =~= self@);
        }
        n
    }

    /// The least candidate; meaningful only when the set is not empty.
    pub fn smallest(self) -> (d: u8)
        requires
            self.wf(),
            self@.len() >= 1,
        ensures
            1 <= d <= 9,
            self@.contains(d as int),
    {
        let mut d: u8 = 1;
        while d <= 9
            invariant
                1 <= d <= 10,
                self.wf(),
                self@.len() >= 1,
                forall|e: int| 1 <= e < d ==> !self@.contains(e),
            decreases 10 - d,
        {
            if self.contains(d) {
                return d;
            }
            d = d + 1;
        }
        proof {
            lemma_digit_set_bounds(self);
            assert(self@ =~= Set::<int>::empty());
            assert(false);
        }
        1
    }
}

/// Candidates of `s` below the bound `d`.
pub open spec fn counted_below(s: Set<int>, d: int) -> Set<int> {
    Set::new(|e: int| 1 <= e < d && s.contains(e))
}

/// A well-formed digit set is a finite subset of the nine digits.
pub proof fn lemma_digit_set_bounds(s: DigitSet)
    ensures
        s@.subset_of(all_digits()),
        s@.finite(),
        s@.len() <= 9,
{
    lemma_all_digits_len();
    lemma_len_subset(s@, all_digits());
}

/// The nine digits form a finite set of size 9.
pub proof fn lemma_all_digits_len()
    ensures
        all_digits().finite(),
        all_digits().len() == 9,
{
    lemma_int_range(1, 10);
    assert(all_digits() =~= set_int_range(1, 10));
}

/// Two well-formed digit sets are equal as values exactly when they hold the
/// same digits.
pub proof fn lemma_digit_set_eq(a: DigitSet, b: DigitSet)
    requires
        a.wf(),
        b.wf(),
    ensures
        (a == b) <==> (a@ == b@),
{
    if a@ == b@ {
        let m = a.mask;
        let n = b.mask;
        assert forall|e: u16| 1 <= e <= 9 implies ((m & (1u16 << e) != 0) <==> (n & (1u16 << e)
            != 0)) by {
            assert(a@.contains(e as int) == b@.contains(e as int));
        }
        let e1 = (m & (1u16 << 1u16) != 0) <==> (n & (1u16 << 1u16) != 0);
        let e2 = (m & (1u16 << 2u16) != 0) <==> (n & (1u16 << 2u16) != 0);
        let e3 = (m & (1u16 << 3u16) != 0) <==> (n & (1u16 << 3u16) != 0);
        let e4 = (m & (1u16 << 4u16) != 0) <==> (n & (1u16 << 4u16) != 0);
        let e5 = (m & (1u16 << 5u16) != 0) <==> (n & (1u16 << 5u16) != 0);
        let e6 = (m & (1u16 << 6u16) != 0) <==> (n & (1u16 << 6u16) != 0);
        let e7 = (m & (1u16 << 7u16) != 0) <==> (n & (1u16 << 7u16) != 0);
        let e8 = (m & (1u16 << 8u16) != 0) <==> (n & (1u16 << 8u16) != 0);
        let e9 = (m & (1u16 << 9u16) != 0) <==> (n & (1u16 << 9u16) != 0);
        assert(e1 && e2 && e3 && e4 && e5 && e6 && e7 && e8 && e9);
        assert(m & 0xfc01u16 == 0 && n & 0xfc01u16 == 0 && ((m & (1u16 << 1u16) != 0) <==> (n & (
        1u16 << 1u16) != 0)) && ((m & (1u16 << 2u16) != 0) <==> (n & (1u16 << 2u16) != 0)) && ((m
            & (1u16 << 3u16) != 0) <==> (n & (1u16 << 3u16) != 0)) && ((m & (1u16 << 4u16) != 0)
            <==> (n & (1u16 << 4u16) != 0)) && ((m & (1u16 << 5u16) != 0) <==> (n & (1u16 << 5u16)
            != 0)) && ((m & (1u16 << 6u16) != 0) <==> (n & (1u16 << 6u16) != 0)) && ((m & (1u16
            << 7u16) != 0) <==> (n & (1u16 << 7u16) != 0)) && ((m & (1u16 << 8u16) != 0) <==> (n & (
        1u16 << 8u16) != 0)) && ((m & (1u16 << 9u16) != 0) <==> (n & (1u16 << 9u16) != 0)) ==> m
            == n) by (bit_vector);
    }
}

/// A finite set with a single element has no second one.
pub proof fn lemma_len1_elements_equal<A>(s: Set<A>, x: A, y: A)
    requires
        s.finite(),
        s.len() == 1,
        s.contains(x),
        s.contains(y),
    ensures
        x == y,
{
    if x != y {
        let r = s.remove(x);
        assert(r.len() == 0);
        r.lemma_len0_is_empty();
        assert(r.contains(y));
    }
}

/// A subset of a finite set with the same size is that set.
pub proof fn lemma_subset_same_len<A>(a: Set<A>, b: Set<A>)
    requires
        b.finite(),
        a.subset_of(b),
        a.len() == b.len(),
    ensures
        a == b,
{
    lemma_len_subset(a, b);
    let rest = b.difference(a);
    assert(b =~= a + rest);
    lemma_len_subset(rest, b);
    lemma_set_disjoint_lens(a, rest);
    assert(a.disjoint(rest));
    assert(rest.len() == 0);
    rest.lemma_len0_is_empty();
    assert(a =~= b);
}

} // verus!
