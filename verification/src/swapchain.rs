//! The choices made when a swapchain is created for a window surface: its
//! pixel format, its extent and how many images it asks for.
use vstd::prelude::*;

verus! {

/// `VK_FORMAT_B8G8R8A8_SRGB`.
pub const FORMAT_B8G8R8A8_SRGB: i32 = 50;

/// `VK_COLOR_SPACE_SRGB_NONLINEAR_KHR`.
pub const COLOR_SPACE_SRGB_NONLINEAR: i32 = 0;

/// A surface format: a `VkFormat` and a `VkColorSpaceKHR`, by their numbers.
#[derive(Debug, Clone, Copy, PartialEq, Eq)]
pub struct SurfaceFormat {
    pub format: i32,
    pub color_space: i32,
}

/// A width and a height in pixels.
#[derive(Debug, Clone, Copy, PartialEq, Eq)]
pub struct Extent2 {
    pub width: u32,
    pub height: u32,
}

/// What a surface allows, as `VkSurfaceCapabilitiesKHR` reports it.
#[derive(Debug, Clone, Copy)]
pub struct SurfaceLimits {
    /// The surface's extent, or `u32::MAX` wide when the swapchain decides.
    pub current_extent: Extent2,
    pub min_image_extent: Extent2,
    pub max_image_extent: Extent2,
    pub min_image_count: u32,
    /// The largest image count, or 0 for no limit.
    pub max_image_count: u32,
}

pub open spec fn is_preferred_format(f: SurfaceFormat) -> bool {
    f.format == FORMAT_B8G8R8A8_SRGB && f.color_space == COLOR_SPACE_SRGB_NONLINEAR
}

/// The first format that is 8-bit BGRA sRGB in the sRGB colour space; failing
/// that the first format offered; and with none offered, that preferred one.
pub open spec fn pick_format_spec(formats: Seq<SurfaceFormat>) -> SurfaceFormat {
    if exists|i: int| 0 <= i < formats.len() && is_preferred_format(#[trigger] formats[i]) {
        SurfaceFormat { format: FORMAT_B8G8R8A8_SRGB, color_space: COLOR_SPACE_SRGB_NONLINEAR }
    } else if formats.len() > 0 {
        formats[0]
    } else {
        SurfaceFormat { format: FORMAT_B8G8R8A8_SRGB, color_space: COLOR_SPACE_SRGB_NONLINEAR }
    }
}

/// Picks the swapchain's surface format among those the surface offers.
pub fn pick_format(formats: &[SurfaceFormat]) -> (f: SurfaceFormat)
    ensures
        f == pick_format_spec(formats@),
{
    let mut i: usize = 0;
    while i < formats.len()
        invariant
            i <= formats@.len(),
            forall|j: int| 0 <= j < i ==> !is_preferred_format(#[trigger] formats@[j]),
        decreases formats.len() - i,
    {
        let f = formats[i];
        if f.format == FORMAT_B8G8R8A8_SRGB && f.color_space == COLOR_SPACE_SRGB_NONLINEAR {
            return f;
        }
        i = i + 1;
    }
    if formats.len() > 0 {
        formats[0]
    } else {
        SurfaceFormat { format: FORMAT_B8G8R8A8_SRGB, color_space: COLOR_SPACE_SRGB_NONLINEAR }
    }
}

pub open spec fn clamp_spec(v: u32, lo: u32, hi: u32) -> u32 {
    if v < lo {
        lo
    } else if v > hi {
        hi
    } else {
        v
    }
}

/// `v` brought into `lo ..= hi`.
fn clamp(v: u32, lo: u32, hi: u32) -> (c: u32)
    requires
        lo <= hi,
    ensures
        c == clamp_spec(v, lo, hi),
{
    if v < lo {
        lo
    } else if v > hi {
        hi
    } else {
        v
    }
}

/// The surface's own extent when it has one; otherwise the requested size
/// clamped into what the surface allows.
pub open spec fn pick_extent_spec(limits: SurfaceLimits, requested: (u32, u32)) -> Extent2 {
    if limits.current_extent.width != u32::MAX {
        limits.current_extent
    } else {
        Extent2 {
            width: clamp_spec(
                requested.0,
                limits.min_image_extent.width,
                limits.max_image_extent.width,
            ),
            height: clamp_spec(
                requested.1,
                limits.min_image_extent.height,
                limits.max_image_extent.height,
            ),
        }
    }
}

/// The extent of the swapchain images for a window of `requested` size.
pub fn pick_extent(limits: &SurfaceLimits, requested: (u32, u32)) -> (e: Extent2)
    requires
        limits.current_extent.width == u32::MAX ==> limits.min_image_extent.width
            <= limits.max_image_extent.width && limits.min_image_extent.height
            <= limits.max_image_extent.height,
    ensures
        e == pick_extent_spec(*limits, requested),
{
    if limits.current_extent.width != u32::MAX {
        return limits.current_extent;
    }
    Extent2 {
        width: clamp(requested.0, limits.min_image_extent.width, limits.max_image_extent.width),
        height: clamp(
            requested.1,
            limits.min_image_extent.height,
            limits.max_image_extent.height,
        ),
    }
}

/// One image more than the minimum, but no more than the maximum when there
/// is one.
pub open spec fn pick_image_count_spec(limits: SurfaceLimits) -> u32 {
    if limits.max_image_count > 0 && limits.min_image_count + 1 > limits.max_image_count {
        limits.max_image_count
    } else {
        (limits.min_image_count + 1) as u32
    }
}

/// The image count the swapchain would like.
pub fn pick_image_count(limits: &SurfaceLimits) -> (n: u32)
    requires
        limits.min_image_count < u32::MAX,
    ensures
        n == pick_image_count_spec(*limits),
{
    let mut n = limits.min_image_count + 1;
    if limits.max_image_count > 0 && n > limits.max_image_count {
        n = limits.max_image_count;
    }
    n
}

/// The image count asked for when the swapchain is created: the preferred
/// count, raised to the surface's minimum when it falls below it.
pub open spec fn swapchain_image_count_spec(limits: SurfaceLimits) -> u32 {
    let n = pick_image_count_spec(limits);
    if n < limits.min_image_count {
        limits.min_image_count
    } else {
        n
    }
}

/// The minimum image count that the swapchain is created with.
pub fn swapchain_image_count(limits: &SurfaceLimits) -> (n: u32)
    requires
        limits.min_image_count < u32::MAX,
    ensures
        n == swapchain_image_count_spec(*limits),
{
    let mut n = pick_image_count(limits);
    if n < limits.min_image_count {
        n = limits.min_image_count;
    }
    n
}

/// On a surface whose limits are consistent, the swapchain asks for an image
/// count that the surface allows, and for more than the minimum whenever the
/// maximum leaves room.
pub proof fn lemma_image_count_within_limits(limits: SurfaceLimits)
    requires
        limits.min_image_count < u32::MAX,
        limits.max_image_count == 0 || limits.min_image_count <= limits.max_image_count,
    ensures
        limits.min_image_count <= swapchain_image_count_spec(limits),
        limits.max_image_count > 0 ==> swapchain_image_count_spec(limits)
            <= limits.max_image_count,
        (limits.max_image_count == 0 || limits.min_image_count < limits.max_image_count)
            ==> swapchain_image_count_spec(limits) == limits.min_image_count + 1,
{
}

/// When the swapchain decides the extent, it lies within the surface's
/// limits; otherwise it is the surface's own.
pub proof fn lemma_extent_within_limits(limits: SurfaceLimits, requested: (u32, u32))
    requires
        limits.min_image_extent.width <= limits.max_image_extent.width,
        limits.min_image_extent.height <= limits.max_image_extent.height,
    ensures
        limits.current_extent.width == u32::MAX ==> {
            let e = pick_extent_spec(limits, requested);
            &&& limits.min_image_extent.width <= e.width <= limits.max_image_extent.width
            &&& limits.min_image_extent.height <= e.height <= limits.max_image_extent.height
        },
        limits.current_extent.width != u32::MAX ==> pick_extent_spec(limits, requested)
            == limits.current_extent,
{
}

/// The surface reported a maximum extent without pixels.
#[derive(Debug, Clone, Copy, PartialEq, Eq)]
pub struct ZeroSurface;

/// Refuses a surface whose largest extent has no pixels.
pub fn ensure_extent(limits: &SurfaceLimits) -> (r: Result<(), ZeroSurface>)
    ensures
        r is Err <==> (limits.max_image_extent.width == 0 || limits.max_image_extent.height == 0),
{
    if limits.max_image_extent.width == 0 || limits.max_image_extent.height == 0 {
        Err(ZeroSurface)
    } else {
        Ok(())
    }
}

} // verus!
