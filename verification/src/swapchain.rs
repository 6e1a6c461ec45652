use vstd::prelude::*;

verus! {

/// The extent a surface reports when it leaves the size to the swapchain.
pub const UNDEFINED_EXTENT: u32 = 0xFFFF_FFFF;

/// The size a swapchain is created with when neither a size was asked for
/// nor the surface has one.
pub const DEFAULT_SWAPCHAIN_SIZE: i32 = 1024;

/// The size a swapchain is created with: the size asked for, else the
/// surface's current extent when it has one, else the default size.
pub open spec fn chosen_size(size_requested: Option<[i32; 2]>, current_extent: [u32; 2]) -> [i32; 2] {
    match size_requested {
        Some(size) => size,
        None => if current_extent[0] != UNDEFINED_EXTENT && current_extent[1] != UNDEFINED_EXTENT {
            [current_extent[0] as i32, current_extent[1] as i32]
        } else {
            [DEFAULT_SWAPCHAIN_SIZE, DEFAULT_SWAPCHAIN_SIZE]
        },
    }
}

/// Chooses the swapchain size.
pub fn swapchain_size(size_requested: Option<[i32; 2]>, current_extent: [u32; 2]) -> (r: [i32; 2])
    ensures
        r == chosen_size(size_requested, current_extent),
{
    match size_requested {
        Some(size) => size,
        None => {
            if current_extent[0] != UNDEFINED_EXTENT && current_extent[1] != UNDEFINED_EXTENT {
                [current_extent[0] as i32, current_extent[1] as i32]
            } else {
                [DEFAULT_SWAPCHAIN_SIZE, DEFAULT_SWAPCHAIN_SIZE]
            }
        },
    }
}

/// The number of images to ask the swapchain for: one more than the
/// surface's minimum, within its maximum (0 means no maximum).
pub fn swapchain_image_count(min_image_count: u32, max_image_count: u32) -> (r: u32)
    requires
        min_image_count < u32::MAX,
    ensures
        r == if max_image_count == 0 || min_image_count + 1 <= max_image_count {
            min_image_count + 1
        } else {
            max_image_count as int
        },
{
    let max_count = if max_image_count == 0 {
        u32::MAX
    } else {
        max_image_count
    };
    let wanted = min_image_count + 1;
    if wanted < max_count {
        wanted
    } else {
        max_count
    }
}

} // verus!
