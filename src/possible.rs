//! The set of digits (1 to 9) still possible for one cell, as a 9-bit mask.
use vstd::prelude::*;

verus! {

/// Bit `d - 1` of the mask is set when digit `d` is still a candidate.
#[derive(Copy, Clone, Debug, PartialEq, Eq, Structural)]
pub struct Possible(pub u16);

proof fn lemma_clear_bit(m: u16, a: u16, b: u16)
    requires
        a < 9,
        b < 9,
    ensures
        ((m & !(1u16 << a)) & (1u16 << b) != 0) == (m & (1u16 << b) != 0 && a != b),
        m < 0x200 ==> (m & !(1u16 << a)) < 0x200,
{
    assert(((m & !(1u16 << a)) & (1u16 << b) != 0) == (m & (1u16 << b) != 0 && a != b))
        by (bit_vector)
        requires
            a < 9,
            b < 9,
    ;
    assert(m < 0x200 ==> (m & !(1u16 << a)) < 0x200) by (bit_vector);
}

proof fn lemma_full_bit(b: u16)
    requires
        b < 9,
    ensures
        0x1FFu16 & (1u16 << b) != 0,
{
    assert(0x1FFu16 & (1u16 << b) != 0) by (bit_vector)
        requires
            b < 9,
    ;
}

proof fn lemma_empty_mask(m: u16)
    requires
        m < 0x200,
    ensures
        (m == 0) <==> (m & (1u16 << 0u16) == 0 && m & (1u16 << 1u16) == 0 && m & (1u16 << 2u16)
            == 0 && m & (1u16 << 3u16) == 0 && m & (1u16 << 4u16) == 0 && m & (1u16 << 5u16) == 0
            && m & (1u16 << 6u16) == 0 && m & (1u16 << 7u16) == 0 && m & (1u16 << 8u16) == 0),
{
    assert((m == 0) <==> (m & (1u16 << 0u16) == 0 && m & (1u16 << 1u16) == 0 && m & (1u16
        << 2u16) == 0 && m & (1u16 << 3u16) == 0 && m & (1u16 << 4u16) == 0 && m & (1u16 << 5u16)
        == 0 && m & (1u16 << 6u16) == 0 && m & (1u16 << 7u16) == 0 && m & (1u16 << 8u16) == 0))
        by (bit_vector)
        requires
            m < 0x200,
    ;
}

impl Possible {
    /// The mask uses only its low nine bits.
    pub open spec fn wf(self) -> bool {
        self.0 < 0x200
    }

    /// Whether digit `d` is a candidate.
    pub open spec fn has(self, d: int) -> bool {
        1 <= d <= 9 && self.0 & (1u16 << ((d - 1) as u16)) != 0
    }

    /// How many of the digits `1..=k` are candidates.
    pub open spec fn count_upto(self, k: int) -> nat
        decreases k,
    {
        if k <= 0 {
            0
        } else {
            self.count_upto(k - 1) + if self.has(k) {
                1nat
            } else {
                0nat
            }
        }
    }

    /// The number of candidates.
    pub open spec fn size(self) -> nat {
        self.count_upto(9)
    }

    /// The candidates among `1..=k`, ascending.
    pub open spec fn digits_upto(self, k: int) -> Seq<u8>
        decreases k,
    {
        if k <= 0 {
            Seq::empty()
        } else if self.has(k) {
            self.digits_upto(k - 1).push(k as u8)
        } else {
            self.digits_upto(k - 1)
        }
    }

    /// All candidates, ascending.
    pub open spec fn digits(self) -> Seq<u8> {
        self.digits_upto(9)
    }

    /// Every candidate of `self` is a candidate of `other`.
    pub open spec fn subset_of(self, other: Possible) -> bool {
        forall|d: int| #[trigger] self.has(d) ==> other.has(d)
    }

    pub proof fn lemma_digits_upto(self, k: int)
        requires
            0 <= k <= 9,
        ensures
            self.digits_upto(k).len() == self.count_upto(k),
            forall|i: int|
                0 <= i < self.digits_upto(k).len() ==> 1 <= #[trigger] self.digits_upto(k)[i] <= k
                    && self.has(self.digits_upto(k)[i] as int),
            forall|i: int, j: int|
                0 <= i < j < self.digits_upto(k).len() ==> self.digits_upto(k)[i]
                    < self.digits_upto(k)[j],
            forall|d: int|
                1 <= d <= k && #[trigger] self.has(d) ==> self.digits_upto(k).contains(d as u8),
        decreases k,
    {
        if k > 0 {
            self.lemma_digits_upto(k - 1);
            let s = self.digits_upto(k - 1);
            if self.has(k) {
                assert forall|d: int| 1 <= d <= k && #[trigger] self.has(d) implies self.digits_upto(
                    k,
                ).contains(d as u8) by {
                    if d < k {
                        let i = choose|i: int| 0 <= i < s.len() && s[i] == d as u8;
                        assert(self.digits_upto(k)[i] == d as u8);
                    } else {
                        assert(self.digits_upto(k)[s.len() as int] == d as u8);
                    }
                }
            }
        }
    }

    /// At most `k` of the digits `1..=k`.
    pub proof fn lemma_count_bound(self, k: int)
        requires
            k >= 0,
        ensures
            self.count_upto(k) <= k,
        decreases k,
    {
        if k > 0 {
            self.lemma_count_bound(k - 1);
        }
    }

    /// All of the digits `1..=k`.
    pub proof fn lemma_count_full(self, k: int)
        requires
            k >= 0,
            forall|d: int| 1 <= d <= k ==> #[trigger] self.has(d),
        ensures
            self.count_upto(k) == k,
        decreases k,
    {
        if k > 0 {
            self.lemma_count_full(k - 1);
        }
    }

    /// A set with fewer candidates holds no more of them.
    pub proof fn lemma_count_subset(self, other: Possible, k: int)
        requires
            self.subset_of(other),
        ensures
            self.count_upto(k) <= other.count_upto(k),
        decreases k,
    {
        if k > 0 {
            self.lemma_count_subset(other, k - 1);
        }
    }

    /// Removing a candidate that is present lowers the count by one.
    pub proof fn lemma_count_strict(self, other: Possible, d: int, k: int)
        requires
            self.subset_of(other),
            other.has(d),
            !self.has(d),
            d <= k,
        ensures
            self.count_upto(k) < other.count_upto(k),
        decreases k,
    {
        if k > d {
            self.lemma_count_strict(other, d, k - 1);
        } else {
            self.lemma_count_subset(other, k - 1);
        }
    }

    /// One candidate at most: a set that holds `d` and nothing else but `d`.
    pub proof fn lemma_count_single(self, d: int, k: int)
        requires
            forall|e: int| #[trigger] self.has(e) ==> e == d,
        ensures
            self.count_upto(k) <= 1,
            self.count_upto(k) == 1 <==> (self.has(d) && d <= k),
        decreases k,
    {
        if k > 0 {
            self.lemma_count_single(d, k - 1);
        }
    }

    /// A set of exactly one candidate holds that candidate alone.
    pub proof fn lemma_count_one(self, k: int)
        requires
            self.count_upto(k) == 1,
            k <= 9,
        ensures
            exists|d: int| 1 <= d <= k && #[trigger] self.has(d),
            forall|d: int, e: int|
                #[trigger] self.has(d) && #[trigger] self.has(e) && d <= k && e <= k ==> d == e,
        decreases k,
    {
        if k > 0 {
            if self.has(k) {
                self.lemma_count_zero(k - 1);
            } else {
                self.lemma_count_one(k - 1);
            }
        }
    }

    /// A set with no candidates among `1..=k`.
    pub proof fn lemma_count_zero(self, k: int)
        ensures
            self.count_upto(k) == 0 <==> forall|d: int| 1 <= d <= k ==> !#[trigger] self.has(d),
        decreases k,
    {
        if k > 0 {
            self.lemma_count_zero(k - 1);
            if self.count_upto(k) == 0 {
                assert forall|d: int| 1 <= d <= k implies !#[trigger] self.has(d) by {
                    if d < k {
                    }
                }
            }
        }
    }

    /// All nine digits.
    pub fn new() -> (r: Self)
        ensures
            r.0 == 0x1FF,
            r.wf(),
            forall|d: int| 1 <= d <= 9 ==> #[trigger] r.has(d),
    {
        proof {
            assert forall|d: int| 1 <= d <= 9 implies #[trigger] Possible(0x1FF).has(d) by {
                lemma_full_bit((d - 1) as u16);
            }
        }
        Possible(0x1FF)
    }

    /// The number of candidates.
    pub fn len(&self) -> (r: u32)
        ensures
            r == self.size(),
    {
        let mut n: u32 = 0;
        let mut d: u8 = 1;
        while d <= 9
            invariant
                1 <= d <= 10,
                n == self.count_upto(d - 1),
                n <= d - 1,
            decreases 10 - d,
        {
            if self.contains(d) {
                n = n + 1;
            }
            d = d + 1;
        }
        n
    }

    /// Whether digit `pos` is a candidate.
    pub fn contains(&self, pos: u8) -> (r: bool)
        requires
            1 <= pos <= 9,
        ensures
            r == self.has(pos as int),
    {
        self.0 & (1u16 << ((pos - 1) as u16)) != 0
    }

    /// The same set without digit `pos`; unchanged when `pos` is absent.
    pub fn remove(&self, pos: u8) -> (r: Self)
        requires
            1 <= pos <= 9,
        ensures
            r.0 == self.0 & !(1u16 << ((pos - 1) as u16)),
            forall|d: int| #[trigger] r.has(d) == (self.has(d) && d != pos),
            self.wf() ==> r.wf(),
    {
        let r = Possible(self.0 & !(1u16 << ((pos - 1) as u16)));
        proof {
            assert forall|d: int| #[trigger] r.has(d) == (self.has(d) && d != pos) by {
                if 1 <= d <= 9 {
                    lemma_clear_bit(self.0, (pos - 1) as u16, (d - 1) as u16);
                }
            }
            lemma_clear_bit(self.0, (pos - 1) as u16, 0);
        }
        r
    }

    /// The candidates in ascending order.
    pub fn values(&self) -> (r: Vec<u8>)
        ensures
            r@ == self.digits(),
    {
        let mut r: Vec<u8> = Vec::new();
        let mut d: u8 = 1;
        while d <= 9
            invariant
                1 <= d <= 10,
                r@ == self.digits_upto(d - 1),
            decreases 10 - d,
        {
            if self.contains(d) {
                r.push(d);
            }
            d = d + 1;
        }
        r
    }

    /// The one candidate of a solved cell; 0 when the cell has none or
    /// more than one.
    pub fn n(&self) -> (r: u8)
        ensures
            r != 0 <==> self.size() == 1,
            r != 0 ==> self.has(r as int),
    {
        if self.len() != 1 {
            return 0;
        }
        proof {
            self.lemma_count_one(9);
        }
        let mut d: u8 = 1;
        while d <= 9
            invariant
                1 <= d <= 10,
                self.size() == 1,
                forall|e: int| 1 <= e < d ==> !#[trigger] self.has(e),
            decreases 10 - d,
        {
            if self.contains(d) {
                return d;
            }
            d = d + 1;
        }
        proof {
            let w = choose|w: int| 1 <= w <= 9 && #[trigger] self.has(w);
        }
        0
    }

    /// Whether no digit is a candidate.
    pub fn is_empty(&self) -> (r: bool)
        requires
            self.wf(),
        ensures
            r == (self.size() == 0),
    {
        proof {
            lemma_empty_mask(self.0);
            self.lemma_count_zero(9);
            if self.0 != 0 {
                if !self.has(1) && !self.has(2) && !self.has(3) && !self.has(4) && !self.has(5)
                    && !self.has(6) && !self.has(7) && !self.has(8) && !self.has(9) {
                    assert(false);
                }
            }
        }
        self.0 == 0
    }
}

} // verus!
