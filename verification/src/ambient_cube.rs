//! Addressing the probes of an ambient-cube probe volume: a grid of
//! `dims[0] x dims[1] x dims[2]` probes stored x fastest, then y, then z.
use vstd::prelude::*;

verus! {

/// The storage position of probe `(i, j, k)`.
pub open spec fn probe_index_spec(dims: [u32; 3], i: int, j: int, k: int) -> int {
    k * dims[1] * dims[0] + j * dims[0] + i
}

/// The storage position of probe `(i, j, k)` in a volume of `dims` probes.
pub fn probe_index(dims: [u32; 3], i: u32, j: u32, k: u32) -> (idx: usize)
    requires
        k * dims[1] <= u32::MAX,
        probe_index_spec(dims, i as int, j as int, k as int) <= u32::MAX,
    ensures
        idx == probe_index_spec(dims, i as int, j as int, k as int),
{
    let x = dims[0];
    let y = dims[1];
    proof {
        assert(k * y * x >= 0 && j * x >= 0) by (nonlinear_arith)
            requires
                x >= 0,
                k >= 0,
                y >= 0,
                j >= 0,
        ;
    }
    (k * y * x + j * x + i) as usize
}

/// Every probe inside the volume has its own storage position, and that
/// position lies within the `dims[0] * dims[1] * dims[2]` probes stored.
pub proof fn lemma_probe_index_in_range_and_unique(dims: [u32; 3])
    ensures
        forall|i: int, j: int, k: int|
            0 <= i < dims[0] && 0 <= j < dims[1] && 0 <= k < dims[2] ==> 0 <= #[trigger] probe_index_spec(
                dims,
                i,
                j,
                k,
            ) < dims[0] * dims[1] * dims[2],
        forall|i1: int, j1: int, k1: int, i2: int, j2: int, k2: int|
            0 <= i1 < dims[0] && 0 <= j1 < dims[1] && 0 <= k1 < dims[2] && 0 <= i2 < dims[0] && 0
                <= j2 < dims[1] && 0 <= k2 < dims[2] && #[trigger] probe_index_spec(dims, i1, j1, k1)
                == #[trigger] probe_index_spec(dims, i2, j2, k2) ==> i1 == i2 && j1 == j2 && k1
                == k2,
{
    let x = dims[0] as int;
    let y = dims[1] as int;
    let z = dims[2] as int;
    assert forall|i: int, j: int, k: int|
        0 <= i < x && 0 <= j < y && 0 <= k < z implies 0 <= #[trigger] probe_index_spec(
        dims,
        i,
        j,
        k,
    ) < x * y * z by {
        assert(0 <= k * y * x + j * x + i < x * y * z) by (nonlinear_arith)
            requires
                0 <= i < x,
                0 <= j < y,
                0 <= k < z,
        ;
    }
    assert forall|i1: int, j1: int, k1: int, i2: int, j2: int, k2: int|
        0 <= i1 < x && 0 <= j1 < y && 0 <= k1 < z && 0 <= i2 < x && 0 <= j2 < y && 0 <= k2 < z
            && #[trigger] probe_index_spec(dims, i1, j1, k1) == #[trigger] probe_index_spec(
            dims,
            i2,
            j2,
            k2,
        ) implies i1 == i2 && j1 == j2 && k1 == k2 by {
        let a = j1 + k1 * y;
        let b = j2 + k2 * y;
        assert(a * x + i1 == b * x + i2) by (nonlinear_arith)
            requires
                k1 * y * x + j1 * x + i1 == k2 * y * x + j2 * x + i2,
                a == j1 + k1 * y,
                b == j2 + k2 * y,
        ;
        vstd::arithmetic::div_mod::lemma_fundamental_div_mod_converse(a * x + i1, x, a, i1);
        vstd::arithmetic::div_mod::lemma_fundamental_div_mod_converse(b * x + i2, x, b, i2);
        vstd::arithmetic::div_mod::lemma_fundamental_div_mod_converse(a, y, k1, j1);
        vstd::arithmetic::div_mod::lemma_fundamental_div_mod_converse(b, y, k2, j2);
    }
}

} // verus!
