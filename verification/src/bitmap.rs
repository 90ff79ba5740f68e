//! Validity and filter bitmaps: a growable sequence of bits together with the
//! counting functions that the decoder's contracts are stated over.

use vstd::prelude::*;

verus! {

/// Number of set bits in a boolean sequence.
pub open spec fn count_ones(s: Seq<bool>) -> nat
    decreases s.len(),
{
    if s.len() == 0 {
        0
    } else {
        count_ones(s.drop_last()) + if s.last() {
            1nat
        } else {
            0nat
        }
    }
}

/// A sequence of `n` set bits.
pub open spec fn all_set(n: nat) -> Seq<bool> {
    Seq::new(n, |i: int| true)
}

/// The elements of `s` at the positions where `m` is set, in order.
pub open spec fn mask_select<A>(s: Seq<A>, m: Seq<bool>) -> Seq<A>
    recommends
        s.len() == m.len(),
    decreases m.len(),
{
    if m.len() == 0 {
        Seq::empty()
    } else {
        let prev = mask_select(s, m.drop_last());
        if m.last() {
            prev.push(s[m.len() - 1])
        } else {
            prev
        }
    }
}

pub proof fn lemma_count_ones_le_len(s: Seq<bool>)
    ensures
        count_ones(s) <= s.len(),
    decreases s.len(),
{
    if s.len() > 0 {
        lemma_count_ones_le_len(s.drop_last());
    }
}

/// Counting over a prefix grows one set bit at a time.
pub proof fn lemma_count_ones_take_step(s: Seq<bool>, j: int)
    requires
        0 <= j < s.len(),
    ensures
        count_ones(s.take(j + 1)) == count_ones(s.take(j)) + if s[j] {
            1nat
        } else {
            0nat
        },
{
    assert(s.take(j + 1).drop_last() =~= s.take(j));
    assert(s.take(j + 1).last() == s[j]);
}

pub proof fn lemma_count_ones_take_mono(s: Seq<bool>, j1: int, j2: int)
    requires
        0 <= j1 <= j2 <= s.len(),
    ensures
        count_ones(s.take(j1)) <= count_ones(s.take(j2)),
    decreases j2 - j1,
{
    if j1 < j2 {
        lemma_count_ones_take_step(s, j2 - 1);
        lemma_count_ones_take_mono(s, j1, j2 - 1);
    }
}

pub proof fn lemma_count_ones_take_full(s: Seq<bool>)
    ensures
        count_ones(s.take(s.len() as int)) == count_ones(s),
{
    assert(s.take(s.len() as int) =~= s);
}

pub proof fn lemma_count_all_set(n: nat)
    ensures
        count_ones(all_set(n)) == n,
    decreases n,
{
    if n > 0 {
        assert(all_set(n).drop_last() =~= all_set((n - 1) as nat));
        lemma_count_all_set((n - 1) as nat);
    }
}

/// A sequence whose set bits exhaust its length is all set.
pub proof fn lemma_full_count_is_all_set(s: Seq<bool>)
    requires
        count_ones(s) == s.len(),
    ensures
        s =~= all_set(s.len()),
    decreases s.len(),
{
    if s.len() > 0 {
        lemma_count_ones_le_len(s.drop_last());
        lemma_full_count_is_all_set(s.drop_last());
        assert forall|i: int| 0 <= i < s.len() implies s[i] == true by {
            if i < s.len() - 1 {
                assert(s.drop_last()[i] == true);
            }
        }
    }
}

/// The position of the `r`-th set bit of `m` (for `r < count_ones(m)`).
pub open spec fn nth_set_pos(m: Seq<bool>, r: int) -> int
    recommends
        0 <= r < count_ones(m),
    decreases m.len(),
{
    if m.len() == 0 {
        0
    } else if r < count_ones(m.drop_last()) {
        nth_set_pos(m.drop_last(), r)
    } else {
        m.len() - 1
    }
}

pub proof fn lemma_nth_set_pos(m: Seq<bool>, r: int)
    requires
        0 <= r < count_ones(m),
    ensures
        0 <= nth_set_pos(m, r) < m.len(),
        m[nth_set_pos(m, r)],
        count_ones(m.take(nth_set_pos(m, r))) == r,
    decreases m.len(),
{
    let prev = m.drop_last();
    if r < count_ones(prev) {
        lemma_nth_set_pos(prev, r);
        let p = nth_set_pos(prev, r);
        assert(m[p] == prev[p]);
        assert(prev.take(p) =~= m.take(p));
    } else {
        assert(r == count_ones(prev));
        assert(m.last());
        assert(m.take(m.len() - 1) =~= prev);
    }
}

/// A packed bitmap: the page-validity and mask-filter representation, and the
/// buffer that output validity is appended to.
pub struct Bitmap {
    bits: Vec<bool>,
}

impl View for Bitmap {
    type V = Seq<bool>;

    closed spec fn view(&self) -> Seq<bool> {
        self.bits@
    }
}

impl Bitmap {
    pub fn new() -> (r: Bitmap)
        ensures
            r@ =~= Seq::<bool>::empty(),
    {
        Bitmap { bits: Vec::new() }
    }

    pub fn from_bools(bits: Vec<bool>) -> (r: Bitmap)
        ensures
            r@ == bits@,
    {
        Bitmap { bits }
    }

    pub fn len(&self) -> (r: usize)
        ensures
            r == self@.len(),
    {
        self.bits.len()
    }

    pub fn is_empty(&self) -> (r: bool)
        ensures
            r == (self@.len() == 0),
    {
        self.bits.len() == 0
    }

    pub fn get(&self, i: usize) -> (r: bool)
        requires
            i < self@.len(),
        ensures
            r == self@[i as int],
    {
        self.bits[i]
    }

    /// The number of set bits.
    pub fn set_bits(&self) -> (r: usize)
        ensures
            r == count_ones(self@),
    {
        let n = self.bits.len();
        let mut acc: usize = 0;
        let mut i: usize = 0;
        while i < n
            invariant
                0 <= i <= n,
                n == self@.len(),
                acc == count_ones(self@.take(i as int)),
                acc <= i,
            decreases n - i,
        {
            proof {
                lemma_count_ones_take_step(self@, i as int);
            }
            if self.bits[i] {
                acc = acc + 1;
            }
            i = i + 1;
        }
        proof {
            lemma_count_ones_take_full(self@);
        }
        acc
    }

    pub fn push(&mut self, b: bool)
        ensures
            final(self)@ == old(self)@.push(b),
    {
        self.bits.push(b);
    }

    /// Append `n` copies of `b`.
    pub fn extend_constant(&mut self, n: usize, b: bool)
        ensures
            final(self)@ == old(self)@ + Seq::new(n as nat, |i: int| b),
    {
        let mut i: usize = 0;
        while i < n
            invariant
                0 <= i <= n,
                self@ == old(self)@ + Seq::new(i as nat, |k: int| b),
            decreases n - i,
        {
            proof {
                assert(Seq::new((i + 1) as nat, |k: int| b) =~= Seq::new(i as nat, |k: int| b).push(
                    b));
            }
            self.bits.push(b);
            i = i + 1;
        }
    }

    /// Append every bit of `other`.
    pub fn extend_from_bitmap(&mut self, other: &Bitmap)
        ensures
            final(self)@ == old(self)@ + other@,
    {
        let n = other.bits.len();
        let mut i: usize = 0;
        while i < n
            invariant
                0 <= i <= n,
                n == other@.len(),
                self@ == old(self)@ + other@.take(i as int),
            decreases n - i,
        {
            proof {
                assert(other@.take(i + 1) =~= other@.take(i as int).push(other@[i as int]));
            }
            self.bits.push(other.bits[i]);
            i = i + 1;
        }
        proof {
            assert(other@.take(n as int) =~= other@);
        }
    }

    /// The bits `[offset, offset + length)` as a new bitmap.
    pub fn sliced(&self, offset: usize, length: usize) -> (r: Bitmap)
        requires
            offset + length <= self@.len(),
        ensures
            r@ == self@.subrange(offset as int, offset + length),
    {
        let n = self.bits.len();
        let mut bits: Vec<bool> = Vec::new();
        let mut i: usize = 0;
        while i < length
            invariant
                0 <= i <= length,
                n == self@.len(),
                offset + length <= n,
                bits@ == self@.subrange(offset as int, offset + i),
            decreases length - i,
        {
            proof {
                assert(self@.subrange(offset as int, offset + i + 1) =~= self@.subrange(
                    offset as int,
                    offset + i,
                ).push(self@[offset + i]));
            }
            bits.push(self.bits[offset + i]);
            i = i + 1;
        }
        Bitmap { bits }
    }
}

/// Keep the bits of `values` at the positions where `mask` is set: the
/// boolean filter kernel that gates page validity by a mask filter.
pub fn filter_bitmap(values: &Bitmap, mask: &Bitmap) -> (r: Bitmap)
    requires
        values@.len() == mask@.len(),
    ensures
        r@ == mask_select(values@, mask@),
{
    let n = mask.len();
    let mut bits: Vec<bool> = Vec::new();
    let mut i: usize = 0;
    while i < n
        invariant
            0 <= i <= n,
            n == mask@.len(),
            values@.len() == mask@.len(),
            bits@ == mask_select(values@, mask@.take(i as int)),
        decreases n - i,
    {
        proof {
            assert(mask@.take(i + 1).drop_last() =~= mask@.take(i as int));
            assert(mask@.take(i + 1).last() == mask@[i as int]);
        }
        if mask.get(i) {
            bits.push(values.get(i));
        }
        i = i + 1;
    }
    proof {
        assert(mask@.take(n as int) =~= mask@);
    }
    Bitmap { bits }
}

} // verus!
