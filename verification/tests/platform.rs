use lostcoast::frame::{
    acquire_step, present_step, AcquireOutcome, AcquireStep, FramePacer, PresentOutcome,
    PresentStep, FRAMES_IN_FLIGHT,
};
use lostcoast::device::{find_memory_type, pick_queue_family, NoMemoryType, QueueFamilyCaps};
use lostcoast::shader::{spirv_words, NotWordAligned};
use lostcoast::swapchain::{
    ensure_extent, pick_extent, pick_format, pick_image_count, swapchain_image_count, Extent2, SurfaceFormat,
    SurfaceLimits, ZeroSurface, COLOR_SPACE_SRGB_NONLINEAR, FORMAT_B8G8R8A8_SRGB,
};

const DEVICE_LOCAL: u32 = 0x1;
const HOST_VISIBLE: u32 = 0x2;
const HOST_COHERENT: u32 = 0x4;

#[test]
fn memory_type_first_match() {
    let types = [DEVICE_LOCAL, HOST_VISIBLE | HOST_COHERENT, DEVICE_LOCAL | HOST_VISIBLE | HOST_COHERENT];
    assert_eq!(find_memory_type(&types, 0b111, DEVICE_LOCAL), Ok(0));
    assert_eq!(find_memory_type(&types, 0b110, DEVICE_LOCAL), Ok(2));
    assert_eq!(find_memory_type(&types, 0b111, HOST_VISIBLE | HOST_COHERENT), Ok(1));
    assert_eq!(find_memory_type(&types, 0b111, 0), Ok(0));
}

#[test]
fn memory_type_none_fits() {
    let types = [DEVICE_LOCAL, HOST_VISIBLE];
    assert_eq!(
        find_memory_type(&types, 0b01, HOST_VISIBLE),
        Err(NoMemoryType { type_bits: 0b01, flags: HOST_VISIBLE })
    );
    assert!(find_memory_type(&[], 0xffff_ffff, 0).is_err());
}

#[test]
fn memory_type_uses_all_32_bits() {
    let mut types = vec![0u32; 32];
    types[31] = HOST_VISIBLE;
    assert_eq!(find_memory_type(&types, 1 << 31, HOST_VISIBLE), Ok(31));
}

#[test]
fn queue_family_first_usable() {
    let g = QueueFamilyCaps { graphics: true, present: false };
    let gp = QueueFamilyCaps { graphics: true, present: true };
    let c = QueueFamilyCaps { graphics: false, present: true };
    let devices = vec![vec![c], vec![c, g, gp], vec![gp]];
    assert_eq!(pick_queue_family(&devices, false), Some((1, 1)));
    assert_eq!(pick_queue_family(&devices, true), Some((1, 2)));
    assert_eq!(pick_queue_family(&vec![vec![c, g]], true), None);
    assert_eq!(pick_queue_family(&vec![], false), None);
}

fn limits(current: (u32, u32), min: (u32, u32), max: (u32, u32), counts: (u32, u32)) -> SurfaceLimits {
    SurfaceLimits {
        current_extent: Extent2 { width: current.0, height: current.1 },
        min_image_extent: Extent2 { width: min.0, height: min.1 },
        max_image_extent: Extent2 { width: max.0, height: max.1 },
        min_image_count: counts.0,
        max_image_count: counts.1,
    }
}

#[test]
fn extent_from_surface_or_clamped() {
    let fixed = limits((800, 600), (1, 1), (4096, 4096), (2, 3));
    assert_eq!(pick_extent(&fixed, (1280, 720)), Extent2 { width: 800, height: 600 });
    let free = limits((u32::MAX, u32::MAX), (100, 100), (1000, 500), (2, 3));
    assert_eq!(pick_extent(&free, (1280, 720)), Extent2 { width: 1000, height: 500 });
    assert_eq!(pick_extent(&free, (50, 300)), Extent2 { width: 100, height: 300 });
}

#[test]
fn image_count_rules() {
    assert_eq!(pick_image_count(&limits((1, 1), (1, 1), (1, 1), (2, 0))), 3);
    assert_eq!(pick_image_count(&limits((1, 1), (1, 1), (1, 1), (2, 3))), 3);
    assert_eq!(pick_image_count(&limits((1, 1), (1, 1), (1, 1), (3, 3))), 3);
    assert_eq!(swapchain_image_count(&limits((1, 1), (1, 1), (1, 1), (2, 8))), 3);
    assert_eq!(swapchain_image_count(&limits((1, 1), (1, 1), (1, 1), (4, 2))), 4);
}

#[test]
fn format_prefers_bgra_srgb() {
    let rgba = SurfaceFormat { format: 37, color_space: 0 };
    let bgra = SurfaceFormat { format: FORMAT_B8G8R8A8_SRGB, color_space: COLOR_SPACE_SRGB_NONLINEAR };
    let bgra_hdr = SurfaceFormat { format: FORMAT_B8G8R8A8_SRGB, color_space: 1_000_104_002 };
    assert_eq!(pick_format(&[rgba, bgra_hdr, bgra]), bgra);
    assert_eq!(pick_format(&[rgba, bgra_hdr]), rgba);
    assert_eq!(pick_format(&[]), bgra);
}

#[test]
fn spirv_words_little_endian() {
    let bytes = [0x03, 0x02, 0x23, 0x07, 0x00, 0x00, 0x01, 0x00];
    assert_eq!(spirv_words(&bytes), Ok(vec![0x0723_0203, 0x0001_0000]));
    assert_eq!(spirv_words(&[]), Ok(vec![]));
}

#[test]
fn spirv_words_rejects_partial_word() {
    assert_eq!(spirv_words(&[1, 2, 3, 4, 5]), Err(NotWordAligned { len: 5 }));
}

#[test]
fn frame_slots_alternate() {
    let mut pacer = FramePacer::new();
    assert_eq!(FRAMES_IN_FLIGHT, 2);
    assert_eq!(pacer.slot(), 0);
    pacer.advance();
    assert_eq!(pacer.slot(), 1);
    pacer.advance();
    assert_eq!(pacer.slot(), 0);
    pacer.advance();
    assert_eq!(pacer.slot(), 1);
}

#[test]
fn acquire_outcomes() {
    assert_eq!(acquire_step(AcquireOutcome::Image { index: 3 }), AcquireStep::Draw { image: 3 });
    assert_eq!(acquire_step(AcquireOutcome::OutOfDate), AcquireStep::RecreateAndSkip);
    assert_eq!(acquire_step(AcquireOutcome::Failed), AcquireStep::Fail);
}

#[test]
fn present_outcomes() {
    assert_eq!(present_step(PresentOutcome::Presented), PresentStep::Advance);
    assert_eq!(present_step(PresentOutcome::Suboptimal), PresentStep::Advance);
    assert_eq!(present_step(PresentOutcome::OutOfDate), PresentStep::RecreateThenAdvance);
    assert_eq!(present_step(PresentOutcome::Failed), PresentStep::Fail);
}

#[test]
fn zero_surface_refused() {
    assert_eq!(ensure_extent(&limits((0, 0), (1, 1), (0, 600), (2, 3))), Err(ZeroSurface));
    assert_eq!(ensure_extent(&limits((0, 0), (1, 1), (800, 0), (2, 3))), Err(ZeroSurface));
    assert_eq!(ensure_extent(&limits((800, 600), (1, 1), (800, 600), (2, 3))), Ok(()));
}
