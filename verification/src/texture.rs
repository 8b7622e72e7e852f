//! Texture data that the renderer uploads: the procedural checkerboard and
//! the extents of a full mip chain.
use vstd::prelude::*;
use vstd::arithmetic::div_mod::lemma_fundamental_div_mod_converse;
use vstd::arithmetic::power2::{lemma2_to64, lemma_pow2_unfold, pow2};

verus! {

/// The square containing luxel `(x, y)` is a dark one: the square's column
/// and row have the same parity.
pub open spec fn checker_is_dark(x: int, y: int, square: int) -> bool {
    (x / square) % 2 == (y / square) % 2
}

/// Channel `c` (red, green, blue, alpha) of luxel `(x, y)`: dark squares are
/// `(50, 50, 60)`, light ones `(210, 210, 220)`, both opaque.
pub open spec fn checker_channel(x: int, y: int, square: int, c: int) -> u8 {
    if c == 3 {
        255
    } else if checker_is_dark(x, y, square) {
        if c == 2 {
            60
        } else {
            50
        }
    } else {
        if c == 2 {
            220
        } else {
            210
        }
    }
}

/// An RGBA8 checkerboard of `side * side` luxels, row-major, with squares of
/// `square` luxels.
pub fn checkerboard_rgba(side: u32, square: u32) -> (out: Vec<u8>)
    requires
        side * side * 4 <= u32::MAX,
        side > 0 ==> square > 0,
    ensures
        out@.len() == side * side * 4,
        forall|x: int, y: int, c: int|
            0 <= x < side && 0 <= y < side && 0 <= c < 4 ==> #[trigger] out@[(y * side + x) * 4
                + c] == checker_channel(x, y, square as int, c),
{
    let mut out: Vec<u8> = Vec::with_capacity((side * side * 4) as usize);
    let mut y: u32 = 0;
    while y < side
        invariant
            y <= side,
            side > 0 ==> square > 0,
            side * side * 4 <= u32::MAX,
            out@.len() == y * side * 4,
            forall|p: int, c: int|
                0 <= p < y * side && 0 <= c < 4 ==> #[trigger] out@[p * 4 + c] == checker_channel(
                    p % side as int,
                    p / side as int,
                    square as int,
                    c,
                ),
        decreases side - y,
    {
        let mut x: u32 = 0;
        while x < side
            invariant
                x <= side,
                y < side,
                square > 0,
                side * side * 4 <= u32::MAX,
                out@.len() == (y * side + x) * 4,
                forall|p: int, c: int|
                    0 <= p < y * side + x && 0 <= c < 4 ==> #[trigger] out@[p * 4 + c]
                        == checker_channel(p % side as int, p / side as int, square as int, c),
            decreases side - x,
        {
            let cx = (x / square) & 1;
            let cy = (y / square) & 1;
            let dark = (cx ^ cy) == 0;
            let (r, g, b): (u8, u8, u8) = if dark {
                (50, 50, 60)
            } else {
                (210, 210, 220)
            };
            proof {
                let qx = x / square;
                let qy = y / square;
                assert(qx & 1 == qx % 2) by (bit_vector);
                assert(qy & 1 == qy % 2) by (bit_vector);
                assert((qx & 1) ^ (qy & 1) == 0 <==> qx & 1 == qy & 1) by (bit_vector);
                let p = y * side + x;
                lemma_fundamental_div_mod_converse(p as int, side as int, y as int, x as int);
                assert(dark == checker_is_dark(x as int, y as int, square as int));
                assert((y * side + x + 1) * 4 <= side * side * 4) by (nonlinear_arith)
                    requires
                        x < side,
                        y < side,
                ;
            }
            let ghost before = out@;
            out.push(r);
            out.push(g);
            out.push(b);
            out.push(255);
            proof {
                let p = (y * side + x) as int;
                assert forall|q: int, c: int|
                    0 <= q < y * side + x + 1 && 0 <= c < 4 implies #[trigger] out@[q * 4 + c]
                    == checker_channel(q % side as int, q / side as int, square as int, c) by {
                    if q < p {
                        assert(out@[q * 4 + c] == before[q * 4 + c]);
                    } else {
                        assert(q == p);
                    }
                }
            }
            x = x + 1;
        }
        proof {
            assert((y + 1) * side == y * side + side) by (nonlinear_arith);
        }
        y = y + 1;
    }
    proof {
        assert forall|x: int, y: int, c: int|
            0 <= x < side && 0 <= y < side && 0 <= c < 4 implies #[trigger] out@[(y * side + x) * 4
            + c] == checker_channel(x, y, square as int, c) by {
            let p = y * side + x;
            lemma_fundamental_div_mod_converse(p, side as int, y, x);
            assert(p < side * side) by (nonlinear_arith)
                requires
                    x < side,
                    y < side,
                    p == y * side + x,
            ;
            assert((y * side + x) * 4 + c == p * 4 + c);
        }
    }
    out
}

/// `floor(log2(v))` for `v >= 1`, and 0 for `v == 0`.
pub open spec fn floor_log2(v: int) -> int
    decreases v,
{
    if v < 2 {
        0
    } else {
        1 + floor_log2(v / 2)
    }
}

/// One mip step: half the extent, rounded down, but at least 1.
pub open spec fn halve(v: int) -> int {
    if v / 2 >= 1 {
        v / 2
    } else {
        1
    }
}

/// The extent after `k` mip steps.
pub open spec fn halvings(v: int, k: nat) -> int
    decreases k,
{
    if k == 0 {
        v
    } else {
        halve(halvings(v, (k - 1) as nat))
    }
}

/// The number of levels in a full mip chain of a `width` x `height` image:
/// `floor(log2(max(width, height))) + 1`, and 1 for an empty image.
pub open spec fn mip_level_count_spec(width: int, height: int) -> int {
    floor_log2(if width >= height {
        width
    } else {
        height
    }) + 1
}

/// The number of levels in a full mip chain of a `width` x `height` image.
pub fn mip_level_count(width: u32, height: u32) -> (levels: u32)
    ensures
        levels == mip_level_count_spec(width as int, height as int),
        1 <= levels <= 32,
{
    let m = if width >= height {
        width
    } else {
        height
    };
    proof {
        lemma2_to64();
        lemma_floor_log2_below_pow2(m as int, 32);
    }
    let mut v = m;
    let mut bits: u32 = 0;
    while v >= 2
        invariant
            bits + floor_log2(v as int) == floor_log2(m as int),
            floor_log2(m as int) <= 31,
        decreases v,
    {
        proof {
            lemma_floor_log2_nonneg(v as int / 2);
        }
        v = v / 2;
        bits = bits + 1;
    }
    bits + 1
}

proof fn lemma_floor_log2_nonneg(v: int)
    ensures
        floor_log2(v) >= 0,
    decreases v,
{
    if v >= 2 {
        lemma_floor_log2_nonneg(v / 2);
    }
}

/// A value below `2^k` has a floor logarithm below `k`.
proof fn lemma_floor_log2_below_pow2(v: int, k: nat)
    requires
        0 <= v < pow2(k),
        k >= 1,
    ensures
        floor_log2(v) < k,
    decreases k,
{
    if v >= 2 {
        lemma_pow2_unfold(k);
        if k == 1 {
            assert(pow2(0) == 1) by {
                lemma2_to64();
            }
        } else {
            lemma_floor_log2_below_pow2(v / 2, (k - 1) as nat);
        }
    }
}

/// The extents `(width, height)` of levels `0 .. levels` of a mip chain: the
/// base level is the image, and each next level is one mip step smaller.
pub fn mip_chain(width: u32, height: u32, levels: u32) -> (chain: Vec<(u32, u32)>)
    ensures
        chain@.len() == levels,
        forall|k: int|
            0 <= k < levels ==> #[trigger] chain@[k] == (
                halvings(width as int, k as nat) as u32,
                halvings(height as int, k as nat) as u32,
            ),
{
    let mut chain: Vec<(u32, u32)> = Vec::with_capacity(levels as usize);
    let mut w = width;
    let mut h = height;
    let mut k: u32 = 0;
    while k < levels
        invariant
            k <= levels,
            chain@.len() == k,
            w == halvings(width as int, k as nat),
            h == halvings(height as int, k as nat),
            forall|j: int|
                0 <= j < k ==> #[trigger] chain@[j] == (
                    halvings(width as int, j as nat) as u32,
                    halvings(height as int, j as nat) as u32,
                ),
        decreases levels - k,
    {
        chain.push((w, h));
        w = if w / 2 >= 1 {
            w / 2
        } else {
            1
        };
        h = if h / 2 >= 1 {
            h / 2
        } else {
            1
        };
        k = k + 1;
    }
    chain
}

/// Taking the first mip step first gives the same extent.
proof fn lemma_halvings_first_step(v: int, k: nat)
    ensures
        halvings(v, k + 1) == halvings(halve(v), k),
    decreases k,
{
    if k > 0 {
        lemma_halvings_first_step(v, (k - 1) as nat);
        assert(halvings(v, k + 1) == halve(halvings(v, k)));
        assert(halvings(halve(v), k) == halve(halvings(halve(v), (k - 1) as nat)));
    } else {
        assert(halvings(v, 1) == halve(halvings(v, 0)));
    }
}

/// Once `k` reaches the floor logarithm, the extent has come down to 1.
proof fn lemma_halvings_reach_one(v: int, k: nat)
    requires
        v >= 1,
        k >= floor_log2(v),
    ensures
        halvings(v, k) == 1,
    decreases k,
{
    if k == 0 {
        if v >= 2 {
            lemma_floor_log2_nonneg(v / 2);
        }
    } else {
        lemma_halvings_first_step(v, (k - 1) as nat);
        if v >= 2 {
            lemma_halvings_reach_one(v / 2, (k - 1) as nat);
        } else {
            lemma_floor_log2_nonneg(1);
            lemma_halvings_reach_one(1, (k - 1) as nat);
        }
    }
}

proof fn lemma_floor_log2_monotone(a: int, b: int)
    requires
        0 <= a <= b,
    ensures
        floor_log2(a) <= floor_log2(b),
    decreases b,
{
    if a < 2 {
        lemma_floor_log2_nonneg(b);
    } else {
        lemma_floor_log2_monotone(a / 2, b / 2);
    }
}

/// Every level of a mip chain is at least 1 x 1.
proof fn lemma_halvings_positive(v: int, k: nat)
    requires
        v >= 1,
    ensures
        halvings(v, k) >= 1,
        halvings(v, k) <= v,
    decreases k,
{
    if k > 0 {
        lemma_halvings_positive(v, (k - 1) as nat);
    }
}

/// A full mip chain of a non-empty image ends at exactly 1 x 1, and no level
/// is empty or larger than the image.
pub proof fn lemma_full_mip_chain_ends_at_one(width: u32, height: u32)
    requires
        width >= 1,
        height >= 1,
    ensures
        ({
            let last = (mip_level_count_spec(width as int, height as int) - 1) as nat;
            &&& halvings(width as int, last) == 1
            &&& halvings(height as int, last) == 1
        }),
        forall|k: nat| 1 <= #[trigger] halvings(width as int, k) <= width,
        forall|k: nat| 1 <= #[trigger] halvings(height as int, k) <= height,
{
    let m: int = if width >= height {
        width as int
    } else {
        height as int
    };
    let last = floor_log2(m);
    lemma_floor_log2_nonneg(m);
    lemma_floor_log2_monotone(width as int, m);
    lemma_floor_log2_monotone(height as int, m);
    lemma_halvings_reach_one(width as int, last as nat);
    lemma_halvings_reach_one(height as int, last as nat);
    assert forall|k: nat| 1 <= #[trigger] halvings(width as int, k) <= width by {
        lemma_halvings_positive(width as int, k);
    }
    assert forall|k: nat| 1 <= #[trigger] halvings(height as int, k) <= height by {
        lemma_halvings_positive(height as int, k);
    }
}

} // verus!
