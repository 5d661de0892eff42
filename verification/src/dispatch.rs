//! Sizing of GPU compute dispatches.

use vstd::prelude::*;

verus! {

/// The number of threads in one compute workgroup.
pub const WORKGROUP_SIZE: u32 = 256;

/// The number of workgroups a compute dispatch over `entity_count` entities
/// needs: `entity_count / 256` rounded up. `entity_count + 255` must fit in a
/// `u32` (the sum overflows otherwise).
pub fn workgroup_count(entity_count: u32) -> (groups: u32)
    requires
        entity_count + 255 <= u32::MAX,
    ensures
        groups == (entity_count + 255) / 256,
        groups * 256 >= entity_count,
        groups * 256 < entity_count + 256,
{
    (entity_count + 255) / WORKGROUP_SIZE
}

} // verus!
