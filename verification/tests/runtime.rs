use lostcoast::args::{parse_bake_args, parse_viewer_args, BakeArgsError, BakeSceneKind};
use lostcoast::input::MoveKeys;
use lostcoast::rng::{patch_seed, Rng};
use lostcoast::stats::Stats;
use lostcoast::text::IntErrorKind;
use lostcoast::viewer::{decide, ViewerAction, ViewerKey, WindowInput};

fn strings(a: &[&str]) -> Vec<String> {
    a.iter().map(|s| s.to_string()).collect()
}

#[test]
fn tick_caps_capacity() {
    let mut s = Stats::new(3);
    for _ in 0..5 {
        s.tick(0.016);
    }
    assert_eq!(s.count(), 3);
}

#[test]
fn stats_keep_newest_in_order() {
    let mut s = Stats::new(4);
    for v in [0.010f32, 0.020, 0.030, 0.040, 0.050] {
        s.tick(v);
    }
    let kept: Vec<f32> = s.samples().iter().copied().collect();
    assert_eq!(kept, vec![0.020, 0.030, 0.040, 0.050]);
}

#[test]
fn stats_capacity_zero_keeps_growing() {
    let mut s = Stats::new(0);
    s.tick(1u32);
    s.tick(2u32);
    s.tick(3u32);
    assert_eq!(s.count(), 3);
}

#[test]
fn rng_known_values() {
    let mut r = Rng::new(42);
    assert_eq!(r.next_u64(), 8005273721428600932);
    assert_eq!(r.next_u64(), 13600883902799213159);
    let mut d = Rng::new(0xc0ffee);
    assert_eq!(d.next_unit_bits(), 8716434);
}

#[test]
fn rng_same_seed_same_stream() {
    let mut a = Rng::new(7);
    let mut b = Rng::new(7);
    let mut c = Rng::new(8);
    let xs: Vec<u64> = (0..16).map(|_| a.next_u64()).collect();
    let ys: Vec<u64> = (0..16).map(|_| b.next_u64()).collect();
    let zs: Vec<u64> = (0..16).map(|_| c.next_u64()).collect();
    assert_eq!(xs, ys);
    assert_ne!(xs, zs);
}

#[test]
fn unit_bits_stay_below_2_pow_24() {
    let mut r = Rng::new(1);
    for _ in 0..1000 {
        assert!(r.next_unit_bits() < 1 << 24);
    }
}

#[test]
fn patch_seeds() {
    assert_eq!(patch_seed(0xc0ffee, 3), 7975955737);
    assert_eq!(patch_seed(u64::MAX, 1), 0x9E37_79B8);
}

#[test]
fn move_keys() {
    let mut k = MoveKeys::new();
    k.on_key("KeyW", true);
    k.on_key("ShiftRight", true);
    k.on_key("KeyQ", true);
    assert!(k.forward && k.down && !k.back && !k.left && !k.right && !k.up);
    k.on_key("KeyW", false);
    k.on_key("Space", true);
    k.on_key("KeyA", true);
    assert!(!k.forward && k.up && k.left);
    k.on_key("keyw", true);
    assert!(!k.forward);
}

#[test]
fn bake_args_defaults_and_values() {
    let a = parse_bake_args(&strings(&["--scene", "cornell"])).unwrap();
    assert_eq!((a.scene.as_str(), a.out.as_str(), a.seed), ("cornell", "bake.json", 0xc0ffee));
    let a = parse_bake_args(&strings(&["--seed", "42", "--out", "x.json", "--scene", "flat_plane"]))
        .unwrap();
    assert_eq!((a.scene.as_str(), a.out.as_str(), a.seed), ("flat_plane", "x.json", 42));
    let a = parse_bake_args(&strings(&["--scene", "a", "--scene", "b"])).unwrap();
    assert_eq!(a.scene, "b");
}

#[test]
fn bake_args_errors() {
    assert!(matches!(parse_bake_args(&strings(&[])), Err(BakeArgsError::SceneRequired)));
    assert!(matches!(
        parse_bake_args(&strings(&["--scene", "cornell", "--scene"])),
        Err(BakeArgsError::SceneRequired)
    ));
    assert!(matches!(
        parse_bake_args(&strings(&["--scene", "cornell", "--seed"])),
        Err(BakeArgsError::SeedNeedsValue)
    ));
    assert!(matches!(
        parse_bake_args(&strings(&["--seed", "-3", "--scene", "cornell"])),
        Err(BakeArgsError::BadSeed(IntErrorKind::InvalidDigit))
    ));
    assert!(matches!(
        parse_bake_args(&strings(&["--seed", "18446744073709551616"])),
        Err(BakeArgsError::BadSeed(IntErrorKind::PosOverflow))
    ));
    match parse_bake_args(&strings(&["--scene", "cornell", "--fast"])) {
        Err(BakeArgsError::UnknownArg(a)) => assert_eq!(a, "--fast"),
        _ => panic!("expected an unknown argument"),
    }
}

#[test]
fn bake_seed_max() {
    let a = parse_bake_args(&strings(&["--scene", "x", "--seed", "18446744073709551615"])).unwrap();
    assert_eq!(a.seed, u64::MAX);
}

#[test]
fn bake_scene_names() {
    assert_eq!(BakeSceneKind::from_name("closed_box"), Some(BakeSceneKind::ClosedBox));
    assert_eq!(BakeSceneKind::from_name("cornell"), Some(BakeSceneKind::Cornell));
    assert_eq!(BakeSceneKind::from_name("flat_plane"), Some(BakeSceneKind::FlatPlane));
    assert_eq!(BakeSceneKind::from_name("Cornell"), None);
}

#[test]
fn viewer_args() {
    let v = parse_viewer_args(&strings(&["-v", "--scene", "a.json", "x"]));
    assert_eq!(v.scene.as_deref(), Some("a.json"));
    assert_eq!(v.ignored, strings(&["-v", "x"]));
    let v = parse_viewer_args(&strings(&["--scene", "a.json", "--scene"]));
    assert_eq!(v.scene, None);
    assert!(v.ignored.is_empty());
}

#[test]
fn viewer_decisions() {
    let esc = WindowInput::Key { key: ViewerKey::Escape, pressed: true };
    assert_eq!(decide(true, false, esc), ViewerAction::ReleaseCursor);
    assert_eq!(decide(false, false, esc), ViewerAction::Exit);
    assert_eq!(decide(false, true, esc), ViewerAction::Nothing);
    assert_eq!(decide(true, true, esc), ViewerAction::ReleaseCursor);
    let tab = WindowInput::Key { key: ViewerKey::Tab, pressed: true };
    assert_eq!(decide(false, false, tab), ViewerAction::GrabCursor);
    let w = WindowInput::Key { key: ViewerKey::Other, pressed: false };
    assert_eq!(decide(true, false, w), ViewerAction::CameraKey { pressed: false });
    assert_eq!(decide(false, false, w), ViewerAction::Nothing);
    assert_eq!(
        decide(false, false, WindowInput::Resized { width: 0, height: 600 }),
        ViewerAction::Resize { width: 1, height: 600 }
    );
    assert_eq!(decide(false, false, WindowInput::MousePressed), ViewerAction::GrabCursor);
    assert_eq!(decide(true, false, WindowInput::MousePressed), ViewerAction::Nothing);
    assert_eq!(decide(true, false, WindowInput::RedrawRequested), ViewerAction::Frame);
    assert_eq!(
        decide(false, false, WindowInput::Key { key: ViewerKey::Backquote, pressed: true }),
        ViewerAction::ToggleOverlay
    );
}
