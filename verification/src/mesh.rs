//! Index buffers of the built-in meshes: lists of quads (the unit cube, the
//! Cornell box walls and boxes) and latitude/longitude spheres.
use vstd::prelude::*;
use vstd::arithmetic::div_mod::{
    lemma_fundamental_div_mod, lemma_fundamental_div_mod_converse, lemma_mod_pos_bound,
};

verus! {

/// The order in which a quad's corners are turned into two triangles.
#[derive(Debug, Clone, Copy, PartialEq, Eq)]
pub enum Winding {
    /// Triangles `(0, 1, 2)` and `(0, 2, 3)`.
    Forward,
    /// Triangles `(0, 2, 1)` and `(0, 3, 2)`.
    Reversed,
}

/// The corner of a quad that index `t` (0 to 5) of its two triangles names.
pub open spec fn quad_corner(t: int, winding: Winding) -> int {
    match winding {
        Winding::Forward => if t == 0 || t == 3 {
            0
        } else if t == 1 {
            1
        } else if t == 2 || t == 4 {
            2
        } else {
            3
        },
        Winding::Reversed => if t == 0 || t == 3 {
            0
        } else if t == 1 || t == 5 {
            2
        } else if t == 2 {
            1
        } else {
            3
        },
    }
}

/// Two triangles for each of `quad_count` quads whose four corners are
/// consecutive vertices: quad `q` uses vertices `4q .. 4q + 4`.
pub fn quad_indices(quad_count: u16, winding: Winding) -> (idx: Vec<u16>)
    requires
        quad_count * 4 <= 65536,
    ensures
        idx@.len() == quad_count * 6,
        forall|q: int, t: int|
            0 <= q < quad_count && 0 <= t < 6 ==> #[trigger] idx@[q * 6 + t] == q * 4
                + quad_corner(t, winding),
{
    let mut idx: Vec<u16> = Vec::with_capacity(quad_count as usize * 6);
    let mut q: u16 = 0;
    while q < quad_count
        invariant
            q <= quad_count,
            quad_count * 4 <= 65536,
            idx@.len() == q * 6,
            forall|p: int, t: int|
                0 <= p < q && 0 <= t < 6 ==> #[trigger] idx@[p * 6 + t] == p * 4 + quad_corner(
                    t,
                    winding,
                ),
        decreases quad_count - q,
    {
        let base = q * 4;
        let ghost before = idx@;
        match winding {
            Winding::Forward => {
                idx.push(base);
                idx.push(base + 1);
                idx.push(base + 2);
                idx.push(base);
                idx.push(base + 2);
                idx.push(base + 3);
            },
            Winding::Reversed => {
                idx.push(base);
                idx.push(base + 2);
                idx.push(base + 1);
                idx.push(base);
                idx.push(base + 3);
                idx.push(base + 2);
            },
        }
        proof {
            assert forall|p: int, t: int|
                0 <= p < q + 1 && 0 <= t < 6 implies #[trigger] idx@[p * 6 + t] == p * 4
                + quad_corner(t, winding) by {
                if p < q {
                    assert(idx@[p * 6 + t] == before[p * 6 + t]);
                }
            }
        }
        q = q + 1;
    }
    idx
}

/// Every index of a quad list names one of the quads' vertices, and the
/// triangles of quad `q` use only its own four.
pub proof fn lemma_quad_indices_in_range(idx: Seq<u16>, quad_count: int, winding: Winding)
    requires
        idx.len() == quad_count * 6,
        forall|q: int, t: int|
            0 <= q < quad_count && 0 <= t < 6 ==> #[trigger] idx[q * 6 + t] == q * 4 + quad_corner(
                t,
                winding,
            ),
    ensures
        forall|i: int| 0 <= i < idx.len() ==> #[trigger] idx[i] < quad_count * 4,
        forall|q: int, t: int|
            0 <= q < quad_count && 0 <= t < 6 ==> q * 4 <= #[trigger] idx[q * 6 + t] < q * 4 + 4,
{
    assert forall|i: int| 0 <= i < idx.len() implies #[trigger] idx[i] < quad_count * 4 by {
        let q = i / 6;
        let t = i % 6;
        lemma_fundamental_div_mod_converse(i, 6, q, t);
        assert(0 <= q < quad_count) by (nonlinear_arith)
            requires
                i == q * 6 + t,
                0 <= t < 6,
                0 <= i < quad_count * 6,
        ;
        assert(idx[q * 6 + t] == q * 4 + quad_corner(t, winding));
    }
}

/// Vertex `(r, s)` of a sphere with `segs` segments per ring: rings of
/// `segs + 1` vertices, one ring after the other.
pub open spec fn sphere_vertex(r: int, s: int, segs: int) -> int {
    r * (segs + 1) + s
}

/// Index `t` (0 to 5) of the two triangles of cell `(r, s)`: with corners
/// `a = (r, s)`, `b = (r, s + 1)`, `c = (r + 1, s + 1)`, `d = (r + 1, s)`,
/// the triangles are `(a, c, b)` and `(a, d, c)`.
pub open spec fn sphere_corner(r: int, s: int, segs: int, t: int) -> int {
    if t == 0 || t == 3 {
        sphere_vertex(r, s, segs)
    } else if t == 1 || t == 5 {
        sphere_vertex(r + 1, s + 1, segs)
    } else if t == 2 {
        sphere_vertex(r, s + 1, segs)
    } else {
        sphere_vertex(r + 1, s, segs)
    }
}

/// The low 16 bits of a vertex number.
fn wrap_u16(x: u32) -> (w: u16)
    ensures
        w == (x % 65536) as u16,
{
    let w = (x % 65536) as u16;
    w
}

/// Two triangles for each of the `rings * segs` cells of a sphere whose
/// vertices form `rings + 1` rings of `segs + 1`; indices are 16-bit, so a
/// vertex number is kept modulo 65536.
pub fn sphere_indices(segs: u32, rings: u32) -> (idx: Vec<u16>)
    requires
        (rings + 1) * (segs + 1) <= u32::MAX,
        rings * segs * 6 <= usize::MAX,
    ensures
        idx@.len() == rings * segs * 6,
        forall|r: int, s: int, t: int|
            0 <= r < rings && 0 <= s < segs && 0 <= t < 6 ==> #[trigger] idx@[(r * segs + s) * 6
                + t] == (sphere_corner(r, s, segs as int, t) % 65536) as u16,
{
    proof {
        assert(segs + 1 <= (rings + 1) * (segs + 1)) by (nonlinear_arith);
    }
    let segs1 = segs + 1;
    let mut idx: Vec<u16> = Vec::new();
    let mut r: u32 = 0;
    while r < rings
        invariant
            r <= rings,
            segs1 == segs + 1,
            (rings + 1) * (segs + 1) <= u32::MAX,
            idx@.len() == r * segs * 6,
            forall|p: int, t: int|
                0 <= p < r * segs && 0 <= t < 6 ==> #[trigger] idx@[p * 6 + t] == (sphere_corner(
                    p / segs as int,
                    p % segs as int,
                    segs as int,
                    t,
                ) % 65536) as u16,
        decreases rings - r,
    {
        let mut s: u32 = 0;
        while s < segs
            invariant
                r < rings,
                s <= segs,
                segs1 == segs + 1,
                (rings + 1) * (segs + 1) <= u32::MAX,
                idx@.len() == (r * segs + s) * 6,
                forall|p: int, t: int|
                    0 <= p < r * segs + s && 0 <= t < 6 ==> #[trigger] idx@[p * 6 + t] == (
                    sphere_corner(p / segs as int, p % segs as int, segs as int, t)
                        % 65536) as u16,
            decreases segs - s,
        {
            proof {
                assert((r + 1) * segs1 + s + 1 <= (rings + 1) * (segs + 1)) by (nonlinear_arith)
                    requires
                        r < rings,
                        s < segs,
                        segs1 == segs + 1,
                ;
                assert(r * segs1 + s + 1 <= (r + 1) * segs1) by (nonlinear_arith)
                    requires
                        s < segs,
                        segs1 == segs + 1,
                ;
            }
            let a = wrap_u16(r * segs1 + s);
            let b = wrap_u16(r * segs1 + s + 1);
            let c = wrap_u16((r + 1) * segs1 + s + 1);
            let d = wrap_u16((r + 1) * segs1 + s);
            let ghost before = idx@;
            idx.push(a);
            idx.push(c);
            idx.push(b);
            idx.push(a);
            idx.push(d);
            idx.push(c);
            proof {
                let p0 = r * segs + s;
                lemma_fundamental_div_mod_converse(p0 as int, segs as int, r as int, s as int);
                assert forall|p: int, t: int|
                    0 <= p < r * segs + s + 1 && 0 <= t < 6 implies #[trigger] idx@[p * 6 + t] == (
                    sphere_corner(p / segs as int, p % segs as int, segs as int, t)
                        % 65536) as u16 by {
                    if p < p0 {
                        assert(idx@[p * 6 + t] == before[p * 6 + t]);
                    } else {
                        assert(p == p0);
                        assert(sphere_vertex(r as int, s as int, segs as int) == r * segs1 + s);
                        assert(sphere_vertex(r as int, s + 1, segs as int) == r * segs1 + s + 1);
                        assert(sphere_vertex(r + 1, s + 1, segs as int) == (r + 1) * segs1 + s
                            + 1);
                        assert(sphere_vertex(r + 1, s as int, segs as int) == (r + 1) * segs1
                            + s);
                    }
                }
            }
            s = s + 1;
        }
        proof {
            assert((r + 1) * segs == r * segs + segs) by (nonlinear_arith);
        }
        r = r + 1;
    }
    proof {
        assert forall|r: int, s: int, t: int|
            0 <= r < rings && 0 <= s < segs && 0 <= t < 6 implies #[trigger] idx@[(r * segs + s)
            * 6 + t] == (sphere_corner(r, s, segs as int, t) % 65536) as u16 by {
            let p = r * segs + s;
            lemma_fundamental_div_mod_converse(p, segs as int, r, s);
            assert(p < rings * segs) by (nonlinear_arith)
                requires
                    r < rings,
                    s < segs,
                    p == r * segs + s,
            ;
        }
    }
    idx
}

/// When a sphere has at most 65536 vertices, no index wraps and every index
/// names one of its vertices.
pub proof fn lemma_sphere_indices_in_range(idx: Seq<u16>, segs: u32, rings: u32)
    requires
        (rings + 1) * (segs + 1) <= 65536,
        idx.len() == rings * segs * 6,
        forall|r: int, s: int, t: int|
            0 <= r < rings && 0 <= s < segs && 0 <= t < 6 ==> #[trigger] idx[(r * segs + s) * 6
                + t] == (sphere_corner(r, s, segs as int, t) % 65536) as u16,
    ensures
        forall|r: int, s: int, t: int|
            0 <= r < rings && 0 <= s < segs && 0 <= t < 6 ==> #[trigger] idx[(r * segs + s) * 6
                + t] == sphere_corner(r, s, segs as int, t),
        forall|i: int| 0 <= i < idx.len() ==> #[trigger] idx[i] < (rings + 1) * (segs + 1),
{
    assert forall|r: int, s: int, t: int|
        0 <= r < rings && 0 <= s < segs && 0 <= t < 6 implies #[trigger] idx[(r * segs + s) * 6
        + t] == sphere_corner(r, s, segs as int, t) && sphere_corner(r, s, segs as int, t) < (
    rings + 1) * (segs + 1) by {
        assert(sphere_vertex(r + 1, s + 1, segs as int) < (rings + 1) * (segs + 1))
            by (nonlinear_arith)
            requires
                0 <= r < rings,
                0 <= s < segs,
        ;
        assert(0 <= sphere_vertex(r, s, segs as int)) by (nonlinear_arith)
            requires
                0 <= r,
                0 <= s,
                segs >= 0,
        ;
        assert(sphere_vertex(r, s, segs as int) <= sphere_vertex(r, s + 1, segs as int));
        assert(sphere_vertex(r, s + 1, segs as int) <= sphere_vertex(r + 1, s, segs as int))
            by (nonlinear_arith)
            requires
                0 <= s < segs,
        ;
        assert(sphere_vertex(r + 1, s, segs as int) <= sphere_vertex(r + 1, s + 1, segs as int));
    }
    assert forall|i: int| 0 <= i < idx.len() implies #[trigger] idx[i] < (rings + 1) * (segs + 1) by {
        let p = i / 6;
        let t = i % 6;
        lemma_fundamental_div_mod_converse(i, 6, p, t);
        let r = p / segs as int;
        let s = p % segs as int;
        assert(segs > 0) by (nonlinear_arith)
            requires
                0 <= i < rings * segs * 6,
        ;
        lemma_fundamental_div_mod(p, segs as int);
        lemma_mod_pos_bound(p, segs as int);
        assert(0 <= r < rings) by (nonlinear_arith)
            requires
                p == r * segs + s,
                0 <= s < segs,
                0 <= p,
                p * 6 + t < rings * segs * 6,
                0 <= t,
        ;
        assert(idx[(r * segs + s) * 6 + t] == sphere_corner(r, s, segs as int, t));
    }
}

/// Every cell of a sphere is wound the same way. With the cell's corners
/// `a = (r, s)`, `b = (r, s + 1)`, `c = (r + 1, s + 1)` and `d = (r + 1, s)`
/// numbered ring by ring, its two triangles are `(a, c, b)` and `(a, d, c)`,
/// whatever the cell; and the next cell along a ring, or the same cell on the
/// next ring, is the same pattern moved by one vertex, or by one ring.
pub proof fn lemma_sphere_cells_share_winding(r: int, s: int, segs: int)
    ensures
        sphere_corner(r, s, segs, 0) == r * (segs + 1) + s,
        sphere_corner(r, s, segs, 1) == (r + 1) * (segs + 1) + s + 1,
        sphere_corner(r, s, segs, 2) == r * (segs + 1) + s + 1,
        sphere_corner(r, s, segs, 3) == r * (segs + 1) + s,
        sphere_corner(r, s, segs, 4) == (r + 1) * (segs + 1) + s,
        sphere_corner(r, s, segs, 5) == (r + 1) * (segs + 1) + s + 1,
        forall|t: int|
            0 <= t < 6 ==> #[trigger] sphere_corner(r, s + 1, segs, t) == sphere_corner(
                r,
                s,
                segs,
                t,
            ) + 1,
        forall|t: int|
            0 <= t < 6 ==> #[trigger] sphere_corner(r + 1, s, segs, t) == sphere_corner(
                r,
                s,
                segs,
                t,
            ) + segs + 1,
{
    assert((r + 1) * (segs + 1) == r * (segs + 1) + segs + 1) by (nonlinear_arith);
    assert((r + 2) * (segs + 1) == (r + 1) * (segs + 1) + segs + 1) by (nonlinear_arith);
}

/// Every quad of a quad list is wound the same way: quad `q` uses its own
/// four vertices `4q .. 4q + 3`, as triangles `(0, 1, 2)` and `(0, 2, 3)`
/// forward, or `(0, 2, 1)` and `(0, 3, 2)` reversed.
pub proof fn lemma_quads_share_winding(winding: Winding)
    ensures
        winding == Winding::Forward ==> {
            &&& quad_corner(0, winding) == 0
            &&& quad_corner(1, winding) == 1
            &&& quad_corner(2, winding) == 2
            &&& quad_corner(3, winding) == 0
            &&& quad_corner(4, winding) == 2
            &&& quad_corner(5, winding) == 3
        },
        winding == Winding::Reversed ==> {
            &&& quad_corner(0, winding) == 0
            &&& quad_corner(1, winding) == 2
            &&& quad_corner(2, winding) == 1
            &&& quad_corner(3, winding) == 0
            &&& quad_corner(4, winding) == 3
            &&& quad_corner(5, winding) == 2
        },
{
}

} // verus!
