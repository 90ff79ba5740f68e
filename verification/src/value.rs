//! The fixed-width values a dictionary holds. A value is moved by bitwise
//! copy and has a designated all-zero bit pattern that pads the output slots
//! of null or filtered-out rows.

use vstd::prelude::*;

verus! {

/// A fixed-width dictionary value: copyable, with a zeroed padding value.
pub trait DictValue: Sized + Copy {
    /// The padding value, as the contracts speak of it.
    spec fn spec_zeroed() -> Self;

    /// The padding value written into null or filtered-out output slots.
    fn zeroed() -> (r: Self)
        ensures
            r == Self::spec_zeroed(),
    ;
}

impl DictValue for u8 {
    open spec fn spec_zeroed() -> u8 {
        0
    }

    fn zeroed() -> u8 {
        0
    }
}

impl DictValue for u16 {
    open spec fn spec_zeroed() -> u16 {
        0
    }

    fn zeroed() -> u16 {
        0
    }
}

impl DictValue for u32 {
    open spec fn spec_zeroed() -> u32 {
        0
    }

    fn zeroed() -> u32 {
        0
    }
}

impl DictValue for u64 {
    open spec fn spec_zeroed() -> u64 {
        0
    }

    fn zeroed() -> u64 {
        0
    }
}

impl DictValue for u128 {
    open spec fn spec_zeroed() -> u128 {
        0
    }

    fn zeroed() -> u128 {
        0
    }
}

impl DictValue for i32 {
    open spec fn spec_zeroed() -> i32 {
        0
    }

    fn zeroed() -> i32 {
        0
    }
}

impl DictValue for i64 {
    open spec fn spec_zeroed() -> i64 {
        0
    }

    fn zeroed() -> i64 {
        0
    }
}

} // verus!
