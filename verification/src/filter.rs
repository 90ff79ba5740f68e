//! Row filters: either a contiguous half-open row range or an arbitrary
//! boolean mask over rows.

use vstd::prelude::*;

use crate::bitmap::Bitmap;
use crate::bitmap::count_ones;

verus! {

/// A caller-supplied row selection.
pub enum Filter {
    /// Select the rows `[start, end)`.
    Range { start: usize, end: usize },
    /// Select the rows at set bits.
    Mask(Bitmap),
}

/// The range `[start, end)` spelled out as a mask over the rows `[0, end)`.
pub open spec fn range_mask(start: nat, end: nat) -> Seq<bool> {
    Seq::new(end, |i: int| start <= i)
}

impl Filter {
    pub open spec fn wf(&self) -> bool {
        match self {
            Filter::Range { start, end } => *start <= *end,
            Filter::Mask(_) => true,
        }
    }

    pub open spec fn spec_num_rows(&self) -> nat {
        match self {
            Filter::Range { start, end } => (*end - *start) as nat,
            Filter::Mask(m) => count_ones(m@),
        }
    }

    pub open spec fn spec_max_offset(&self) -> nat {
        match self {
            Filter::Range { start, end } => *end as nat,
            Filter::Mask(m) => m@.len(),
        }
    }

    /// The filter spelled out as a mask over the rows `[0, max_offset)`.
    pub open spec fn spec_mask(&self) -> Seq<bool> {
        match self {
            Filter::Range { start, end } => range_mask(*start as nat, *end as nat),
            Filter::Mask(m) => m@,
        }
    }

    /// How many rows this filter selects.
    pub fn num_rows(&self) -> (r: usize)
        requires
            self.wf(),
        ensures
            r == self.spec_num_rows(),
    {
        match self {
            Filter::Range { start, end } => *end - *start,
            Filter::Mask(m) => m.set_bits(),
        }
    }

    /// One past the last row this filter can touch.
    pub fn max_offset(&self) -> (r: usize)
        ensures
            r == self.spec_max_offset(),
    {
        match self {
            Filter::Range { start, end } => *end,
            Filter::Mask(m) => m.len(),
        }
    }
}

/// Build the mask bitmap that selects exactly the rows `[start, end)`.
pub fn filter_from_range(start: usize, end: usize) -> (r: Bitmap)
    requires
        start <= end,
    ensures
        r@ == range_mask(start as nat, end as nat),
{
    let mut bits: Vec<bool> = Vec::new();
    let mut i: usize = 0;
    while i < end
        invariant
            0 <= i <= end,
            bits@ == range_mask(start as nat, end as nat).take(i as int),
        decreases end - i,
    {
        proof {
            assert(range_mask(start as nat, end as nat).take(i + 1) =~= range_mask(
                start as nat,
                end as nat,
            ).take(i as int).push(start <= i));
        }
        bits.push(start <= i);
        i = i + 1;
    }
    proof {
        assert(range_mask(start as nat, end as nat).take(end as int) =~= range_mask(
            start as nat,
            end as nat,
        ));
    }
    Bitmap::from_bools(bits)
}

/// A range mask selects exactly the rows of the range.
pub proof fn lemma_count_range_mask(start: nat, end: nat)
    ensures
        count_ones(range_mask(start, end)) == if start <= end {
            (end - start) as nat
        } else {
            0nat
        },
    decreases end,
{
    if end > 0 {
        assert(range_mask(start, end).drop_last() =~= range_mask(start, (end - 1) as nat));
        assert(range_mask(start, end).last() == (start <= end - 1));
        lemma_count_range_mask(start, (end - 1) as nat);
    }
}

} // verus!
