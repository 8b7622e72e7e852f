use lostcoast::ambient_cube::probe_index;
use lostcoast::bvh::{max_leaf_size, partition_range, split_node, BvhBuild, NodeRange};
use lostcoast::readback::{check_render_size, readback_pixel, ZeroSizedRender};
use lostcoast::mesh::{quad_indices, sphere_indices, Winding};

#[test]
fn unit_cube_indices() {
    let idx = quad_indices(6, Winding::Forward);
    assert_eq!(idx.len(), 36);
    assert_eq!(&idx[0..6], &[0, 1, 2, 0, 2, 3]);
    assert_eq!(&idx[30..36], &[20, 21, 22, 20, 22, 23]);
    assert!(idx.iter().all(|&i| i < 24));
}

#[test]
fn single_quad_indices() {
    assert_eq!(quad_indices(1, Winding::Forward), vec![0, 1, 2, 0, 2, 3]);
}

#[test]
fn box_faces_are_reversed() {
    let idx = quad_indices(6, Winding::Reversed);
    assert_eq!(&idx[0..6], &[0, 2, 1, 0, 3, 2]);
    assert_eq!(&idx[6..12], &[4, 6, 5, 4, 7, 6]);
}

#[test]
fn sphere_cells() {
    let idx = sphere_indices(32, 24);
    assert_eq!(idx.len(), 32 * 24 * 6);
    assert_eq!(&idx[0..6], &[0, 34, 1, 0, 33, 34]);
    let last = idx.len() - 6;
    let (r, s) = (23u16, 31u16);
    let a = r * 33 + s;
    let c = (r + 1) * 33 + s + 1;
    assert_eq!(&idx[last..], &[a, c, a + 1, a, c - 1, c]);
    assert!(idx.iter().all(|&i| (i as u32) < 33 * 25));
}

#[test]
fn sphere_without_cells() {
    assert!(sphere_indices(0, 5).is_empty());
    assert!(sphere_indices(5, 0).is_empty());
}

#[test]
fn sphere_indices_wrap_at_16_bits() {
    let idx = sphere_indices(300, 300);
    let r = 299u32;
    let s = 299u32;
    let p = ((r * 300 + s) * 6) as usize;
    assert_eq!(idx[p] as u32, (r * 301 + s) % 65536);
}

#[test]
fn probe_index_is_x_fastest() {
    let dims = [4, 3, 2];
    assert_eq!(probe_index(dims, 0, 0, 0), 0);
    assert_eq!(probe_index(dims, 3, 0, 0), 3);
    assert_eq!(probe_index(dims, 0, 1, 0), 4);
    assert_eq!(probe_index(dims, 3, 2, 1), 23);
    let mut seen = vec![false; 24];
    for k in 0..2 {
        for j in 0..3 {
            for i in 0..4 {
                let p = probe_index(dims, i, j, k);
                assert!(!seen[p]);
                seen[p] = true;
            }
        }
    }
}

#[test]
fn partition_moves_left_first() {
    let mut indices: Vec<u32> = vec![9, 0, 1, 2, 3, 4, 5, 9];
    let goes_left = vec![false, true, false, true, true, false, false, false, false, false];
    let left = partition_range(&mut indices, 1, 6, &goes_left);
    assert_eq!(left, 3);
    assert_eq!(indices[0], 9);
    assert_eq!(indices[7], 9);
    assert!(indices[1..4].iter().all(|&t| goes_left[t as usize]));
    assert!(indices[4..7].iter().all(|&t| !goes_left[t as usize]));
    let mut mid = indices[1..7].to_vec();
    mid.sort();
    assert_eq!(mid, vec![0, 1, 2, 3, 4, 5]);
}

#[test]
fn partition_all_one_side() {
    let mut indices: Vec<u32> = vec![0, 1, 2];
    assert_eq!(partition_range(&mut indices, 0, 3, &vec![true; 3]), 3);
    assert_eq!(indices, vec![0, 1, 2]);
    assert_eq!(partition_range(&mut indices, 0, 3, &vec![false; 3]), 0);
    let mut sorted = indices.clone();
    sorted.sort();
    assert_eq!(sorted, vec![0, 1, 2]);
}

#[test]
fn split_appends_two_leaves() {
    let mut nodes = vec![NodeRange::leaf(0, 10)];
    assert_eq!(split_node(&mut nodes, 0, 4), Some((1, 2)));
    assert_eq!(nodes[0], NodeRange { left: 1, right: 2, first: 0, count: 0 });
    assert_eq!(nodes[1], NodeRange::leaf(0, 4));
    assert_eq!(nodes[2], NodeRange::leaf(4, 6));
    assert_eq!(split_node(&mut nodes, 2, 1), Some((3, 4)));
    assert_eq!(nodes[4], NodeRange { left: u32::MAX, right: u32::MAX, first: 5, count: 5 });
}

#[test]
fn split_keeps_leaf_when_one_sided() {
    let mut nodes = vec![NodeRange::leaf(3, 7)];
    assert_eq!(split_node(&mut nodes, 0, 0), None);
    assert_eq!(split_node(&mut nodes, 0, 7), None);
    assert_eq!(nodes, vec![NodeRange::leaf(3, 7)]);
    assert_eq!(max_leaf_size(), 4);
}

#[test]
fn partition_scan_order() {
    let mut indices = vec![0, 1, 2, 3];
    assert_eq!(partition_range(&mut indices, 0, 4, &vec![false; 4]), 0);
    assert_eq!(indices, vec![1, 2, 3, 0]);

    let mut indices = vec![9, 0, 1, 2, 3, 4, 5, 9];
    let mut goes_left = vec![true, false, true, false, true, false];
    goes_left.extend([false; 4]);
    assert_eq!(partition_range(&mut indices, 1, 6, &goes_left), 3);
    assert_eq!(indices, vec![9, 0, 4, 2, 3, 5, 1, 9]);
}

fn leaf(first: u32, count: u32) -> NodeRange {
    NodeRange::leaf(first, count)
}

#[test]
fn bvh_build_depth_first() {
    let mut build = BvhBuild::new(10);
    let low: Vec<bool> = (0..10).map(|t| t < 5).collect();
    let even: Vec<bool> = (0..10).map(|t| t % 2 == 0).collect();
    let mut visited = Vec::new();
    while let Some(idx) = build.next_node() {
        visited.push(idx);
        build.process(if idx == 0 { &low } else { &even });
    }
    assert_eq!(visited, vec![0, 1, 3, 4, 2, 5, 6]);
    let (nodes, ids) = build.into_parts();
    assert_eq!(
        nodes,
        vec![
            NodeRange { left: 1, right: 2, first: 0, count: 0 },
            NodeRange { left: 3, right: 4, first: 0, count: 0 },
            NodeRange { left: 5, right: 6, first: 5, count: 0 },
            leaf(0, 3),
            leaf(3, 2),
            leaf(5, 2),
            leaf(7, 3),
        ]
    );
    assert_eq!(ids, vec![0, 4, 2, 3, 1, 6, 8, 9, 5, 7]);
}

#[test]
fn bvh_build_keeps_unsplittable_leaf() {
    let mut build = BvhBuild::new(6);
    assert_eq!(build.next_node(), Some(0));
    build.process(&vec![true; 6]);
    assert_eq!(build.next_node(), None);
    assert_eq!(build.node_count(), 1);
    assert_eq!(build.node(0), leaf(0, 6));
    assert_eq!(build.indices(), &vec![0, 1, 2, 3, 4, 5]);
}

#[test]
fn bvh_build_empty() {
    let build = BvhBuild::new(0);
    assert_eq!(build.next_node(), None);
    let (nodes, ids) = build.into_parts();
    assert_eq!(nodes, vec![leaf(0, 0)]);
    assert!(ids.is_empty());
}

#[test]
fn render_size_refuses_zero() {
    assert_eq!(check_render_size(0, 720), Err(ZeroSizedRender { width: 0, height: 720 }));
    assert_eq!(check_render_size(1280, 0), Err(ZeroSizedRender { width: 1280, height: 0 }));
    assert_eq!(check_render_size(1280, 720), Ok((1280, 720)));
}

#[test]
fn readback_is_row_major() {
    let bytes: Vec<u8> = (0..24).collect();
    assert_eq!(readback_pixel(&bytes, 3, 2, 0, 0), [0, 1, 2, 3]);
    assert_eq!(readback_pixel(&bytes, 3, 2, 2, 0), [8, 9, 10, 11]);
    assert_eq!(readback_pixel(&bytes, 3, 2, 0, 1), [12, 13, 14, 15]);
    assert_eq!(readback_pixel(&bytes, 3, 2, 2, 1), [20, 21, 22, 23]);
}
