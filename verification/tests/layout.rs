use lostcoast::lightmap_uv::{grid_columns, pack_grid};
use lostcoast::texture::{checkerboard_rgba, mip_chain, mip_level_count};

#[test]
fn pack_grid_nine_charts_three_by_three() {
    let atlas = pack_grid(9, 32, 2);
    assert_eq!(atlas.width, 3 * 36);
    assert_eq!(atlas.height, 3 * 36);
    assert_eq!(atlas.charts.len(), 9);
    let c = atlas.charts[5];
    assert_eq!(c.mesh_index, 5);
    assert_eq!(c.origin, [2 * 36 + 2, 36 + 2]);
    assert_eq!(c.size, [32, 32]);
}

#[test]
fn pack_grid_rounds_columns_up() {
    let atlas = pack_grid(10, 16, 1);
    assert_eq!(atlas.width, 4 * 18);
    assert_eq!(atlas.height, 3 * 18);
    assert_eq!(atlas.charts[9].origin, [18 + 1, 2 * 18 + 1]);
}

#[test]
fn pack_grid_empty_has_one_column() {
    let atlas = pack_grid(0, 8, 4);
    assert_eq!(atlas.width, 16);
    assert_eq!(atlas.height, 0);
    assert!(atlas.charts.is_empty());
}

#[test]
fn pack_grid_charts_inside_and_apart() {
    for n in [1u32, 2, 3, 5, 17, 30] {
        let (size, gutter) = (8u32, 3u32);
        let a = pack_grid(n, size, gutter);
        for (i, c) in a.charts.iter().enumerate() {
            assert_eq!(c.mesh_index as usize, i);
            assert!(c.origin[0] >= gutter && c.origin[1] >= gutter);
            assert!(c.origin[0] + c.size[0] + gutter <= a.width);
            assert!(c.origin[1] + c.size[1] + gutter <= a.height);
            for d in a.charts.iter().skip(i + 1) {
                let apart_x = c.origin[0] + size + 2 * gutter <= d.origin[0]
                    || d.origin[0] + size + 2 * gutter <= c.origin[0];
                let apart_y = c.origin[1] + size + 2 * gutter <= d.origin[1]
                    || d.origin[1] + size + 2 * gutter <= c.origin[1];
                assert!(apart_x || apart_y);
            }
        }
    }
}

#[test]
fn grid_columns_matches_float_ceil_sqrt() {
    for n in 0u32..2000 {
        let expected = (n as f32).sqrt().ceil().max(1.0) as u32;
        assert_eq!(grid_columns(n), expected, "n={n}");
    }
    assert_eq!(grid_columns(u32::MAX), 65536);
    assert_eq!(grid_columns(16_777_216), 4096);
}

#[test]
fn checkerboard_layout() {
    let px = checkerboard_rgba(4, 2);
    assert_eq!(px.len(), 4 * 4 * 4);
    let at = |x: usize, y: usize| &px[(y * 4 + x) * 4..(y * 4 + x) * 4 + 4];
    assert_eq!(at(0, 0), &[50, 50, 60, 255]);
    assert_eq!(at(1, 1), &[50, 50, 60, 255]);
    assert_eq!(at(2, 0), &[210, 210, 220, 255]);
    assert_eq!(at(0, 2), &[210, 210, 220, 255]);
    assert_eq!(at(3, 3), &[50, 50, 60, 255]);
}

#[test]
fn checkerboard_of_the_world_texture() {
    let px = checkerboard_rgba(256, 32);
    assert_eq!(px.len(), 256 * 256 * 4);
    let dark = px.chunks(4).filter(|p| p[0] == 50).count();
    assert_eq!(dark, 256 * 256 / 2);
}

#[test]
fn checkerboard_empty() {
    assert!(checkerboard_rgba(0, 0).is_empty());
}

#[test]
fn mip_levels_of_common_sizes() {
    assert_eq!(mip_level_count(256, 256), 9);
    assert_eq!(mip_level_count(1, 1), 1);
    assert_eq!(mip_level_count(0, 0), 1);
    assert_eq!(mip_level_count(1280, 720), 11);
    assert_eq!(mip_level_count(3, 17), 5);
    assert_eq!(mip_level_count(u32::MAX, 1), 32);
}

#[test]
fn mip_levels_match_float_log2() {
    for w in 0u32..5000 {
        let h = w / 3;
        let expected = ((w.max(h) as f32).log2().floor() as u32) + 1;
        assert_eq!(mip_level_count(w, h), expected, "w={w}");
    }
}

#[test]
fn mip_chain_ends_at_one() {
    let levels = mip_level_count(256, 64);
    let chain = mip_chain(256, 64, levels);
    assert_eq!(chain.len(), 9);
    assert_eq!(chain[0], (256, 64));
    assert_eq!(chain[1], (128, 32));
    assert_eq!(chain[6], (4, 1));
    assert_eq!(chain[8], (1, 1));
}

#[test]
fn mip_chain_odd_sizes() {
    let chain = mip_chain(5, 3, mip_level_count(5, 3));
    assert_eq!(chain, vec![(5, 3), (2, 1), (1, 1)]);
}
