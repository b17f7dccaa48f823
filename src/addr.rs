//! Page-granular address helpers.
use vstd::prelude::*;
use crate::config::{PAGE_SIZE, MAXVA, MAX_VPN};

verus! {

/// Page number that holds byte address `va`.
pub open spec fn vpn_of(va: int) -> int {
    va / (PAGE_SIZE as int)
}

/// Page number one past the last page that holds any byte below `va`.
pub open spec fn vpn_ceil(va: int) -> int {
    (va + PAGE_SIZE - 1) / (PAGE_SIZE as int)
}

/// Whether `va` lies on a page boundary.
pub open spec fn is_aligned(va: int) -> bool {
    va % (PAGE_SIZE as int) == 0
}

/// Whether `va` lies on a page boundary.
pub fn aligned(va: usize) -> (r: bool)
    ensures
        r == is_aligned(va as int),
{
    va % PAGE_SIZE == 0
}

/// Page that holds `va`.
pub fn floor(va: usize) -> (r: usize)
    ensures
        r == vpn_of(va as int),
{
    va / PAGE_SIZE
}

/// First page above every byte below `va`.
pub fn ceil(va: usize) -> (r: usize)
    requires
        va <= MAXVA,
    ensures
        r == vpn_ceil(va as int),
        r <= MAX_VPN,
{
    if va == 0 {
        0
    } else {
        (va - 1) / PAGE_SIZE + 1
    }
}

/// The page range `[floor(start), ceil(start + len))` that covers the bytes
/// `[start, start + len)`.
pub fn area_range(start: usize, len: usize) -> (r: (usize, usize))
    requires
        start as int + len as int <= MAXVA,
    ensures
        r.0 == vpn_of(start as int),
        r.1 == vpn_ceil(start + len),
        r.0 <= r.1 <= MAX_VPN,
{
    (floor(start), ceil(start + len))
}

} // verus!
