//! Pencil decomposition of a three-dimensional grid: an x-, a y- and a
//! z-pencil (axes 0, 1 and 2 contiguous) over the same grid and the same
//! two-dimensional process grid, with the pack/unpack routines of the four
//! supported transposes (x↔y and y↔z).
//!
//! Local arrays are flat row-major buffers: element `(i, j, k)` of a local
//! array with shape `[s0, s1, s2]` lives at position
//! `i * (s1 * s2) + j * s2 + k`.  Transposes between pencils whose
//! contiguous axes are not adjacent would need the fully general exchange
//! pattern; the design deliberately rejects that configuration.

use vstd::prelude::*;

use crate::distribution::Distribution;
use crate::distribution::chunk_size;
use crate::distribution::lemma_table_disjoint;
use crate::math::lemma_index2_injective;
use crate::math::lemma_index3_bounds;
use crate::math::seq_prod;
use crate::pencil::Pencil;
use crate::pencil::copy_bools;
use crate::pencil::copy_usizes;
use crate::pencil::lemma_contig_size;
use crate::pencil::lemma_len3;
use crate::pencil::lemma_pencil_dist_wf;
use crate::pencil::lemma_pencil_size_bounds;
use crate::pencil::lemma_table_row_bounds;
use crate::pencil::transpose_compatible;

verus! {

/// Three pencils over the same three-dimensional grid and the same process
/// grid, contiguous on axes 0, 1 and 2 respectively.
pub open spec fn xyz_triple(x: Pencil, y: Pencil, z: Pencil) -> bool {
    &&& x.wf()
    &&& y.wf()
    &&& z.wf()
    &&& x.ndim() == 3
    &&& y.ndim() == 3
    &&& z.ndim() == 3
    &&& x.axis_contig == 0
    &&& y.axis_contig == 1
    &&& z.axis_contig == 2
    &&& x.n_global@ == y.n_global@
    &&& x.n_global@ == z.n_global@
    &&& x.comm.dims@ == y.comm.dims@
    &&& x.comm.dims@ == z.comm.dims@
    &&& x.comm.coords@ == y.comm.coords@
    &&& x.comm.coords@ == z.comm.coords@
    &&& x.comm.periodic@ == y.comm.periodic@
    &&& x.comm.periodic@ == z.comm.periodic@
}

/// Two distributions of the same axis over the same process count, seen
/// from the same coordinate, have equal chunk tables: both are the balanced
/// partition.
pub proof fn lemma_same_split(a: Distribution, b: Distribution, n: int, p: int, rank: int)
    requires
        a.is_for(n, p, rank),
        b.is_for(n, p, rank),
        a.balanced(n),
        b.balanced(n),
    ensures
        a.sz == b.sz,
{
    assert(a.sz_procs@[rank] as int == chunk_size(n, p, rank));
    assert(b.sz_procs@[rank] as int == chunk_size(n, p, rank));
}

/// Adjacent pencils of a triple admit the variable-count all-to-all
/// transpose in both directions: the axis split in both pencils is split
/// identically, because both carry the balanced partition over the same
/// process-grid dimension.
pub proof fn lemma_xyz_compatible(x: Pencil, y: Pencil, z: Pencil)
    requires
        xyz_triple(x, y, z),
    ensures
        transpose_compatible(x, y),
        transpose_compatible(y, x),
        transpose_compatible(y, z),
        transpose_compatible(z, y),
{
    let n0 = x.n_global@[0] as int;
    let n1 = x.n_global@[1] as int;
    let n2 = x.n_global@[2] as int;
    let d0 = x.comm.dims@[0] as int;
    let d1 = x.comm.dims@[1] as int;
    let c0 = x.comm.coords@[0] as int;
    let c1 = x.comm.coords@[1] as int;
    assert(x.dists@[1].is_for(n1, d0, c0));
    assert(x.dists@[2].is_for(n2, d1, c1));
    assert(y.dists@[0].is_for(n0, d0, c0));
    assert(y.dists@[2].is_for(n2, d1, c1));
    assert(z.dists@[0].is_for(n0, d0, c0));
    assert(z.dists@[1].is_for(n1, d1, c1));
    lemma_same_split(x.dists@[2], y.dists@[2], n2, d1, c1);
    lemma_same_split(y.dists@[0], z.dists@[0], n0, d0, c0);
}

/// Pencil decomposition of a three-dimensional grid.
pub struct Decomp3 {
    /// Global number of grid points along each axis.
    pub n_global: Vec<usize>,
    /// Pencil with axis 0 contiguous.
    pub x_pencil: Pencil,
    /// Pencil with axis 1 contiguous.
    pub y_pencil: Pencil,
    /// Pencil with axis 2 contiguous.
    pub z_pencil: Pencil,
}

impl Decomp3 {
    /// Well-formed decomposition: all three pencils over this grid,
    /// contiguous on pairwise different axes.
    pub open spec fn wf(self) -> bool {
        &&& self.n_global@.len() == 3
        &&& xyz_triple(self.x_pencil, self.y_pencil, self.z_pencil)
        &&& self.x_pencil.n_global@ == self.n_global@
    }

    /// Construct the three pencils from the global shape and the Cartesian
    /// topology values reported by the communication layer.
    pub fn new(
        n_global: Vec<usize>,
        cart_dims: Vec<usize>,
        cart_coords: Vec<usize>,
        cart_periodic: Vec<bool>,
    ) -> (r: Decomp3)
        requires
            n_global@.len() == 3,
            cart_dims@.len() == 2,
            cart_coords@.len() == 2,
            cart_periodic@.len() == 2,
            forall|d: int| 0 <= d < 2 ==> 1 <= #[trigger] cart_dims@[d],
            forall|d: int| 0 <= d < 2 ==> #[trigger] cart_coords@[d] < cart_dims@[d],
            forall|i: int| 0 <= i < 3 ==> 1 <= #[trigger] n_global@[i],
            cart_dims@[0] <= n_global@[0],
            cart_dims@[0] <= n_global@[1],
            cart_dims@[1] <= n_global@[1],
            cart_dims@[1] <= n_global@[2],
            seq_prod(n_global@) <= usize::MAX,
        ensures
            r.wf(),
            r.n_global@ == n_global@,
            r.x_pencil.comm.dims@ == cart_dims@,
            r.x_pencil.comm.coords@ == cart_coords@,
            r.x_pencil.comm.periodic@ == cart_periodic@,
            transpose_compatible(r.x_pencil, r.y_pencil),
            transpose_compatible(r.y_pencil, r.x_pencil),
            transpose_compatible(r.y_pencil, r.z_pencil),
            transpose_compatible(r.z_pencil, r.y_pencil),
    {
        let x_pencil = Pencil::new(
            copy_usizes(&n_global),
            0,
            copy_usizes(&cart_dims),
            copy_usizes(&cart_coords),
            copy_bools(&cart_periodic),
        );
        let y_pencil = Pencil::new(
            copy_usizes(&n_global),
            1,
            copy_usizes(&cart_dims),
            copy_usizes(&cart_coords),
            copy_bools(&cart_periodic),
        );
        let z_pencil = Pencil::new(
            copy_usizes(&n_global),
            2,
            copy_usizes(&cart_dims),
            copy_usizes(&cart_coords),
            copy_bools(&cart_periodic),
        );
        let r = Decomp3 { n_global, x_pencil, y_pencil, z_pencil };
        proof {
            lemma_xyz_compatible(r.x_pencil, r.y_pencil, r.z_pencil);
        }
        r
    }
}

/// Row-major copy of a three-dimensional buffer with axes 0 and 1 swapped:
/// the result, read with shape `[s1, s0, s2]`, holds element `(j, i, k)` of
/// the input at position `(i, j, k)`.
#[verifier::loop_isolation(false)]
pub(crate) fn transpose_copy_3d_01<T: Copy>(
    data: &Vec<T>,
    s0: usize,
    s1: usize,
    s2: usize,
) -> (buf: Vec<T>)
    requires
        1 <= s0,
        1 <= s1,
        1 <= s2,
        data@.len() == (s0 as int) * ((s1 as int) * (s2 as int)),
    ensures
        buf@.len() == data@.len(),
        forall|i: int, j: int, k: int|
            0 <= i < s0 && 0 <= j < s1 && 0 <= k < s2 ==> #[trigger] buf@[j * ((s0 as int) * (
            s2 as int)) + i * (s2 as int) + k] == data@[i * ((s1 as int) * (s2 as int)) + j * (
            s2 as int) + k],
{
    let total = data.len();
    assert(total as int == (s0 as int) * ((s1 as int) * (s2 as int)));
    proof {
        assert((s1 as int) * (s2 as int) <= (s0 as int) * ((s1 as int) * (
        s2 as int))) by (nonlinear_arith)
            requires
                1 <= s0,
                0 <= s1,
                0 <= s2,
        ;
    }
    let mut buf: Vec<T> = Vec::new();
    let mut j: usize = 0;
    while j < s1
        invariant
            j <= s1,
            buf@.len() == (j as int) * ((s0 as int) * (s2 as int)),
            forall|jj: int, ii: int, kk: int|
                0 <= jj < j && 0 <= ii < s0 && 0 <= kk < s2 ==> #[trigger] buf@[jj * ((s0 as int)
                    * (s2 as int)) + ii * (s2 as int) + kk] == data@[ii * ((s1 as int) * (
                s2 as int)) + jj * (s2 as int) + kk],
        decreases s1 - j,
    {
        let mut i: usize = 0;
        while i < s0
            invariant
                i <= s0,
                j < s1,
                buf@.len() == (j as int) * ((s0 as int) * (s2 as int)) + (i as int) * (s2 as int),
                forall|jj: int, ii: int, kk: int|
                    0 <= jj < j && 0 <= ii < s0 && 0 <= kk < s2 ==> #[trigger] buf@[jj * ((
                    s0 as int) * (s2 as int)) + ii * (s2 as int) + kk] == data@[ii * ((s1 as int)
                        * (s2 as int)) + jj * (s2 as int) + kk],
                forall|ii: int, kk: int|
                    0 <= ii < i && 0 <= kk < s2 ==> #[trigger] buf@[j as int * ((s0 as int) * (
                    s2 as int)) + ii * (s2 as int) + kk] == data@[ii * ((s1 as int) * (s2 as int))
                        + j as int * (s2 as int) + kk],
            decreases s0 - i,
        {
            let mut k: usize = 0;
            while k < s2
                invariant
                    k <= s2,
                    i < s0,
                    j < s1,
                    buf@.len() == (j as int) * ((s0 as int) * (s2 as int)) + (i as int) * (
                    s2 as int) + k as int,
                    forall|jj: int, ii: int, kk: int|
                        0 <= jj < j && 0 <= ii < s0 && 0 <= kk < s2 ==> #[trigger] buf@[jj * ((
                        s0 as int) * (s2 as int)) + ii * (s2 as int) + kk] == data@[ii * ((
                        s1 as int) * (s2 as int)) + jj * (s2 as int) + kk],
                    forall|ii: int, kk: int|
                        0 <= ii < i && 0 <= kk < s2 ==> #[trigger] buf@[j as int * ((s0 as int) * (
                        s2 as int)) + ii * (s2 as int) + kk] == data@[ii * ((s1 as int) * (
                        s2 as int)) + j as int * (s2 as int) + kk],
                    forall|kk: int|
                        0 <= kk < k ==> #[trigger] buf@[j as int * ((s0 as int) * (s2 as int))
                            + i as int * (s2 as int) + kk] == data@[i as int * ((s1 as int) * (
                        s2 as int)) + j as int * (s2 as int) + kk],
                decreases s2 - k,
            {
                proof {
                    lemma_index3_bounds(
                        s0 as int,
                        s1 as int,
                        s2 as int,
                        i as int,
                        j as int,
                        k as int,
                    );
                    lemma_index3_bounds(
                        s1 as int,
                        s0 as int,
                        s2 as int,
                        j as int,
                        i as int,
                        k as int,
                    );
                    assert((j as int) * ((s0 as int) * (s2 as int)) + (i as int) * (s2 as int)
                        + k as int == (j as int) * ((s0 as int) * (s2 as int)) + (i as int) * (
                    s2 as int) + (k as int)) by (nonlinear_arith);
                }
                let v = data[i * (s1 * s2) + j * s2 + k];
                buf.push(v);
                proof {
                    assert forall|jj: int, ii: int, kk: int|
                        0 <= jj < j && 0 <= ii < s0 && 0 <= kk < s2 implies #[trigger] buf@[jj * ((
                    s0 as int) * (s2 as int)) + ii * (s2 as int) + kk] == data@[ii * ((s1 as int)
                        * (s2 as int)) + jj * (s2 as int) + kk] by {
                        assert(0 <= jj * ((s0 as int) * (s2 as int)) + ii * (s2 as int) + kk && jj
                            * ((s0 as int) * (s2 as int)) + ii * (s2 as int) + kk < (j as int) * ((
                        s0 as int) * (s2 as int)) + (i as int) * (s2 as int)
                            + k as int) by (nonlinear_arith)
                            requires
                                0 <= jj < j as int,
                                0 <= ii < s0 as int,
                                0 <= kk < s2 as int,
                                0 <= i as int,
                                0 <= k as int,
                                1 <= s0,
                                1 <= s2,
                        ;
                    }
                    assert forall|ii: int, kk: int|
                        0 <= ii < i && 0 <= kk < s2 implies #[trigger] buf@[j as int * ((s0 as int)
                        * (s2 as int)) + ii * (s2 as int) + kk] == data@[ii * ((s1 as int) * (
                    s2 as int)) + j as int * (s2 as int) + kk] by {
                        assert(0 <= j as int * ((s0 as int) * (s2 as int)) + ii * (s2 as int) + kk
                            && j as int * ((s0 as int) * (s2 as int)) + ii * (s2 as int) + kk < (
                        j as int) * ((s0 as int) * (s2 as int)) + (i as int) * (s2 as int)
                            + k as int) by (nonlinear_arith)
                            requires
                                0 <= ii < i as int,
                                0 <= kk < s2 as int,
                                0 <= j as int,
                                0 <= k as int,
                                1 <= s2,
                                0 <= s0,
                        ;
                    }
                }
                k += 1;
            }
            proof {
                assert((i as int) * (s2 as int) + (s2 as int) == (i as int + 1) * (
                s2 as int)) by (nonlinear_arith);
            }
            i += 1;
        }
        proof {
            assert((j as int) * ((s0 as int) * (s2 as int)) + (s0 as int) * (s2 as int) == (j as int
                + 1) * ((s0 as int) * (s2 as int))) by (nonlinear_arith);
        }
        j += 1;
    }
    proof {
        assert((s1 as int) * ((s0 as int) * (s2 as int)) == (s0 as int) * ((s1 as int) * (
        s2 as int))) by (nonlinear_arith);
    }
    buf
}

/// Row-major copy of a three-dimensional buffer with axes 0 and 2 swapped:
/// the result, read with shape `[s2, s1, s0]`, holds element `(k, j, i)` of
/// the input at position `(i, j, k)`.
#[verifier::loop_isolation(false)]
pub(crate) fn transpose_copy_3d_02<T: Copy>(
    data: &Vec<T>,
    s0: usize,
    s1: usize,
    s2: usize,
) -> (buf: Vec<T>)
    requires
        1 <= s0,
        1 <= s1,
        1 <= s2,
        data@.len() == (s0 as int) * ((s1 as int) * (s2 as int)),
    ensures
        buf@.len() == data@.len(),
        forall|i: int, j: int, k: int|
            0 <= i < s0 && 0 <= j < s1 && 0 <= k < s2 ==> #[trigger] buf@[k * ((s1 as int) * (
            s0 as int)) + j * (s0 as int) + i] == data@[i * ((s1 as int) * (s2 as int)) + j * (
            s2 as int) + k],
{
    let total = data.len();
    assert(total as int == (s0 as int) * ((s1 as int) * (s2 as int)));
    proof {
        assert((s1 as int) * (s2 as int) <= (s0 as int) * ((s1 as int) * (
        s2 as int))) by (nonlinear_arith)
            requires
                1 <= s0,
                0 <= s1,
                0 <= s2,
        ;
        assert((s2 as int) * ((s1 as int) * (s0 as int)) == (s0 as int) * ((s1 as int) * (
        s2 as int))) by (nonlinear_arith);
    }
    let mut buf: Vec<T> = Vec::new();
    let mut k: usize = 0;
    while k < s2
        invariant
            k <= s2,
            buf@.len() == (k as int) * ((s1 as int) * (s0 as int)),
            forall|kk: int, jj: int, ii: int|
                0 <= kk < k && 0 <= jj < s1 && 0 <= ii < s0 ==> #[trigger] buf@[kk * ((s1 as int)
                    * (s0 as int)) + jj * (s0 as int) + ii] == data@[ii * ((s1 as int) * (
                s2 as int)) + jj * (s2 as int) + kk],
        decreases s2 - k,
    {
        let mut j: usize = 0;
        while j < s1
            invariant
                j <= s1,
                k < s2,
                buf@.len() == (k as int) * ((s1 as int) * (s0 as int)) + (j as int) * (s0 as int),
                forall|kk: int, jj: int, ii: int|
                    0 <= kk < k && 0 <= jj < s1 && 0 <= ii < s0 ==> #[trigger] buf@[kk * ((
                    s1 as int) * (s0 as int)) + jj * (s0 as int) + ii] == data@[ii * ((s1 as int)
                        * (s2 as int)) + jj * (s2 as int) + kk],
                forall|jj: int, ii: int|
                    0 <= jj < j && 0 <= ii < s0 ==> #[trigger] buf@[k as int * ((s1 as int) * (
                    s0 as int)) + jj * (s0 as int) + ii] == data@[ii * ((s1 as int) * (s2 as int))
                        + jj * (s2 as int) + k as int],
            decreases s1 - j,
        {
            let mut i: usize = 0;
            while i < s0
                invariant
                    i <= s0,
                    j < s1,
                    k < s2,
                    buf@.len() == (k as int) * ((s1 as int) * (s0 as int)) + (j as int) * (
                    s0 as int) + i as int,
                    forall|kk: int, jj: int, ii: int|
                        0 <= kk < k && 0 <= jj < s1 && 0 <= ii < s0 ==> #[trigger] buf@[kk * ((
                        s1 as int) * (s0 as int)) + jj * (s0 as int) + ii] == data@[ii * ((
                        s1 as int) * (s2 as int)) + jj * (s2 as int) + kk],
                    forall|jj: int, ii: int|
                        0 <= jj < j && 0 <= ii < s0 ==> #[trigger] buf@[k as int * ((s1 as int) * (
                        s0 as int)) + jj * (s0 as int) + ii] == data@[ii * ((s1 as int) * (
                        s2 as int)) + jj * (s2 as int) + k as int],
                    forall|ii: int|
                        0 <= ii < i ==> #[trigger] buf@[k as int * ((s1 as int) * (s0 as int))
                            + j as int * (s0 as int) + ii] == data@[ii * ((s1 as int) * (s2 as int))
                            + j as int * (s2 as int) + k as int],
                decreases s0 - i,
            {
                proof {
                    lemma_index3_bounds(
                        s0 as int,
                        s1 as int,
                        s2 as int,
                        i as int,
                        j as int,
                        k as int,
                    );
                    lemma_index3_bounds(
                        s2 as int,
                        s1 as int,
                        s0 as int,
                        k as int,
                        j as int,
                        i as int,
                    );
                }
                let v = data[i * (s1 * s2) + j * s2 + k];
                buf.push(v);
                proof {
                    assert forall|kk: int, jj: int, ii: int|
                        0 <= kk < k && 0 <= jj < s1 && 0 <= ii < s0 implies #[trigger] buf@[kk * ((
                    s1 as int) * (s0 as int)) + jj * (s0 as int) + ii] == data@[ii * ((s1 as int)
                        * (s2 as int)) + jj * (s2 as int) + kk] by {
                        assert(0 <= kk * ((s1 as int) * (s0 as int)) + jj * (s0 as int) + ii && kk
                            * ((s1 as int) * (s0 as int)) + jj * (s0 as int) + ii < (k as int) * ((
                        s1 as int) * (s0 as int)) + (j as int) * (s0 as int)
                            + i as int) by (nonlinear_arith)
                            requires
                                0 <= kk < k as int,
                                0 <= jj < s1 as int,
                                0 <= ii < s0 as int,
                                0 <= j as int,
                                0 <= i as int,
                                1 <= s0,
                                1 <= s1,
                        ;
                    }
                    assert forall|jj: int, ii: int|
                        0 <= jj < j && 0 <= ii < s0 implies #[trigger] buf@[k as int * ((s1 as int)
                        * (s0 as int)) + jj * (s0 as int) + ii] == data@[ii * ((s1 as int) * (
                    s2 as int)) + jj * (s2 as int) + k as int] by {
                        assert(0 <= k as int * ((s1 as int) * (s0 as int)) + jj * (s0 as int) + ii
                            && k as int * ((s1 as int) * (s0 as int)) + jj * (s0 as int) + ii < (
                        k as int) * ((s1 as int) * (s0 as int)) + (j as int) * (s0 as int)
                            + i as int) by (nonlinear_arith)
                            requires
                                0 <= jj < j as int,
                                0 <= ii < s0 as int,
                                0 <= k as int,
                                0 <= i as int,
                                1 <= s0,
                        ;
                    }
                }
                i += 1;
            }
            proof {
                assert((j as int) * (s0 as int) + (s0 as int) == (j as int + 1) * (
                s0 as int)) by (nonlinear_arith);
            }
            j += 1;
        }
        proof {
            assert((k as int) * ((s1 as int) * (s0 as int)) + (s1 as int) * (s0 as int) == (
            k as int + 1) * ((s1 as int) * (s0 as int))) by (nonlinear_arith);
        }
        k += 1;
    }
    buf
}

/// Copy `count` elements, read from `buf` starting at `src` with step
/// `stride`, into the contiguous destination range starting at `dst`.
/// Everything outside that range is untouched.
#[verifier::loop_isolation(false)]
fn copy_strided<T: Copy>(
    buf: &Vec<T>,
    src: usize,
    stride: usize,
    data: &mut Vec<T>,
    dst: usize,
    count: usize,
)
    requires
        1 <= stride,
        1 <= count,
        src + (count - 1) * stride < buf@.len(),
        dst + count <= old(data)@.len(),
    ensures
        final(data)@.len() == old(data)@.len(),
        forall|u: int| 0 <= u < count ==> #[trigger] final(data)@[dst + u] == buf@[src + u * stride],
        forall|p: int|
            0 <= p < old(data)@.len() && (p < dst || dst + count <= p)
                ==> #[trigger] final(data)@[p] == old(data)@[p],
{
    let total = buf.len();
    let dtotal = data.len();
    let mut u: usize = 0;
    while u < count
        invariant
            u <= count,
            data@.len() == old(data)@.len(),
            forall|v: int| 0 <= v < u ==> #[trigger] data@[dst + v] == buf@[src + v * stride],
            forall|p: int|
                0 <= p < data@.len() && (p < dst || dst + count <= p) ==> #[trigger] data@[p]
                    == old(data)@[p],
            total == buf@.len(),
            dtotal == data@.len(),
        decreases count - u,
    {
        proof {
            assert(0 <= u as int * stride as int && u as int * stride as int <= (count as int - 1)
                * stride as int) by (nonlinear_arith)
                requires
                    0 <= u as int <= count as int - 1,
                    0 <= stride as int,
            ;
        }
        let v = buf[src + u * stride];
        data[dst + u] = v;
        u += 1;
    }
}

/// Rows of a common length `s` occupy disjoint position ranges: a position
/// inside a different row lies outside this row's range.
proof fn lemma_rows_disjoint(s: int, a: int, a2: int, k2: int)
    by (nonlinear_arith)
    requires
        a != a2,
        0 <= k2 < s,
    ensures
        a2 * s + k2 < a * s || a * s + s <= a2 * s + k2,
{
}

/// One destination slot of the unpack of a transpose from the x-pencil to
/// the y-pencil: peer `q` of the sub-group along axis 1, local row `i`,
/// global column `j` inside peer `q`'s chunk of axis 1, local depth `k`.
pub open spec fn xy_slot(x: Pencil, y: Pencil, q: int, i: int, j: int, k: int) -> bool {
    &&& 0 <= q < x.dists@[1].nprocs()
    &&& 0 <= i < y.spec_size(0)
    &&& x.dists@[1].st_procs@[q] <= j <= x.dists@[1].en_procs@[q]
    &&& 0 <= k < y.spec_size(2)
}

/// Position inside the receive buffer that feeds slot `(q, i, j, k)` of the
/// x-to-y unpack.
pub open spec fn xy_src(x: Pencil, y: Pencil, q: int, i: int, j: int, k: int) -> int {
    let st = x.dists@[1].st_procs@[q] as int;
    let sz = x.dists@[1].sz_procs@[q] as int;
    y.spec_size(0) * y.spec_size(2) * st + i * (sz * y.spec_size(2)) + (j - st) * y.spec_size(2)
        + k
}

/// The facts about a pencil pair that the x-to-y unpack relies on: both
/// well-formed over the same grid, and the sender's chunk table along
/// axis 1 well-formed.
pub open spec fn xy3_tables(x: Pencil, y: Pencil) -> bool {
    &&& x.wf()
    &&& y.wf()
    &&& x.ndim() == 3
    &&& y.ndim() == 3
    &&& x.axis_contig == 0
    &&& y.axis_contig == 1
    &&& x.n_global@ == y.n_global@
    &&& x.comm.dims@ == y.comm.dims@
    &&& x.comm.coords@ == y.comm.coords@
}

/// One copied row of the x-to-y unpack, accounted for: the freshly copied
/// row holds its receive-buffer segment, and every slot written before it
/// is untouched, because distinct slots sit in distinct rows.
proof fn lemma_merge_xy_row<T>(
    x: Pencil,
    y: Pencil,
    buf: Seq<T>,
    prev: Seq<T>,
    cur: Seq<T>,
    q: int,
    i: int,
    j: int,
    pos: int,
    base: int,
)
    requires
        xy3_tables(x, y),
        prev.len() == y.spec_len(),
        cur.len() == prev.len(),
        0 <= q < x.dists@[1].nprocs(),
        0 <= i < y.spec_size(0),
        x.dists@[1].st_procs@[q] <= j <= x.dists@[1].en_procs@[q],
        pos == y.spec_size(0) * y.spec_size(2) * x.dists@[1].st_procs@[q] + i * (
        x.dists@[1].sz_procs@[q] * y.spec_size(2)) + (j - x.dists@[1].st_procs@[q])
            * y.spec_size(2),
        base == i * (y.spec_size(1) * y.spec_size(2)) + j * y.spec_size(2),
        forall|u: int| 0 <= u < y.spec_size(2) ==> #[trigger] cur[base + u] == buf[pos + u],
        forall|p: int|
            0 <= p < prev.len() && (p < base || base + y.spec_size(2) <= p) ==> #[trigger] cur[p]
                == prev[p],
        forall|q2: int, i2: int, j2: int, k2: int|
            #[trigger] xy_slot(x, y, q2, i2, j2, k2) && (q2 < q || (q2 == q && i2 < i) || (q2 == q
                && i2 == i && j2 < j)) ==> prev[i2 * (y.spec_size(1) * y.spec_size(2)) + j2
                * y.spec_size(2) + k2] == buf[xy_src(x, y, q2, i2, j2, k2)],
    ensures
        forall|q2: int, i2: int, j2: int, k2: int|
            #[trigger] xy_slot(x, y, q2, i2, j2, k2) && (q2 < q || (q2 == q && i2 < i) || (q2 == q
                && i2 == i && j2 <= j)) ==> cur[i2 * (y.spec_size(1) * y.spec_size(2)) + j2
                * y.spec_size(2) + k2] == buf[xy_src(x, y, q2, i2, j2, k2)],
{
    let t1 = x.dists@[1];
    let s0 = y.spec_size(0);
    let n1 = y.spec_size(1);
    let s2 = y.spec_size(2);
    let n1g = x.n_global@[1] as int;
    lemma_pencil_dist_wf(x, 1);
    lemma_contig_size(y);
    lemma_len3(y);
    lemma_table_row_bounds(t1, n1g, q);
    assert forall|q2: int, i2: int, j2: int, k2: int|
        #[trigger] xy_slot(x, y, q2, i2, j2, k2) && (q2 < q || (q2 == q && i2 < i) || (q2 == q
            && i2 == i && j2 <= j)) implies cur[i2 * (n1 * s2) + j2 * s2 + k2] == buf[xy_src(
        x,
        y,
        q2,
        i2,
        j2,
        k2,
    )] by {
        lemma_table_row_bounds(t1, n1g, q2);
        if q2 == q && i2 == i && j2 == j {
            assert(cur[base + k2] == buf[pos + k2]);
            assert(xy_src(x, y, q, i, j, k2) == pos + k2);
            assert(i2 * (n1 * s2) + j2 * s2 + k2 == base + k2);
        } else {
            if q2 < q {
                lemma_table_disjoint(t1, n1g, q2, q);
            }
            assert(i2 != i || j2 != j);
            assert(i2 * (n1 * s2) + j2 * s2 + k2 == (i2 * n1 + j2) * s2 + k2) by (nonlinear_arith);
            assert(base == (i * n1 + j) * s2) by (nonlinear_arith)
                requires
                    base == i * (n1 * s2) + j * s2,
            ;
            lemma_index2_injective(n1, i2, j2, i, j);
            lemma_rows_disjoint(s2, i * n1 + j, i2 * n1 + j2, k2);
            lemma_index3_bounds(s0, n1, s2, i2, j2, k2);
            assert(cur[i2 * (n1 * s2) + j2 * s2 + k2] == prev[i2 * (n1 * s2) + j2 * s2 + k2]);
        }
    }
}

/// Unpack the receive buffer of a transpose from the x-pencil to the
/// y-pencil into the destination array in y-pencil layout.
pub fn merge_xy<T: Copy>(buf: &Vec<T>, data: &mut Vec<T>, x_pencil: &Pencil, y_pencil: &Pencil)
    requires
        xy3_tables(*x_pencil, *y_pencil),
        buf@.len() == y_pencil.spec_len(),
        old(data)@.len() == y_pencil.spec_len(),
    ensures
        final(data)@.len() == y_pencil.spec_len(),
        forall|q: int, i: int, j: int, k: int|
            #[trigger] xy_slot(*x_pencil, *y_pencil, q, i, j, k) ==> final(data)@[i * (
            y_pencil.spec_size(1) * y_pencil.spec_size(2)) + j * y_pencil.spec_size(2) + k]
                == buf@[xy_src(*x_pencil, *y_pencil, q, i, j, k)],
{
    let ghost x = *x_pencil;
    let ghost y = *y_pencil;
    proof {
        lemma_len3(y);
        lemma_contig_size(y);
        lemma_pencil_dist_wf(x, 1);
        lemma_pencil_dist_wf(y, 0);
        lemma_pencil_dist_wf(y, 2);
        lemma_pencil_size_bounds(y);
    }
    let s0 = y_pencil.dists[0].sz;
    let n1 = y_pencil.dists[1].sz;
    let s2 = y_pencil.dists[2].sz;
    let nprocs = x_pencil.nprocs_along_axis(1);
    proof {
        assert(x.dists@[1].nprocs() == nprocs as int);
        assert((s0 as int) * ((n1 as int) * (s2 as int)) == (s0 as int) * (s2 as int) * (
        n1 as int)) by (nonlinear_arith);
    }
    let mut pos: usize = 0;
    let mut q: usize = 0;
    while q < nprocs
        invariant
            xy3_tables(x, y),
            x == *x_pencil,
            y == *y_pencil,
            s0 as int == y.spec_size(0),
            n1 as int == y.spec_size(1),
            s2 as int == y.spec_size(2),
            n1 as int == x.n_global@[1] as int,
            1 <= s0,
            1 <= n1,
            1 <= s2,
            buf@.len() == y.spec_len(),
            data@.len() == y.spec_len(),
            y.spec_len() == (s0 as int) * ((n1 as int) * (s2 as int)),
            y.spec_len() == (s0 as int) * (s2 as int) * (n1 as int),
            y.spec_len() <= usize::MAX,
            nprocs as int == x.dists@[1].nprocs(),
            q <= nprocs,
            pos as int == (s0 as int) * (s2 as int) * (if (q as int) < x.dists@[1].nprocs() {
                x.dists@[1].st_procs@[q as int] as int
            } else {
                n1 as int
            }),
            forall|q2: int, i2: int, j2: int, k2: int|
                #[trigger] xy_slot(x, y, q2, i2, j2, k2) && q2 < q ==> data@[i2 * ((n1 as int) * (
                s2 as int)) + j2 * (s2 as int) + k2] == buf@[xy_src(x, y, q2, i2, j2, k2)],
        decreases nprocs - q,
    {
        proof {
            lemma_pencil_dist_wf(x, 1);
            lemma_table_row_bounds(x.dists@[1], n1 as int, q as int);
        }
        let j1 = x_pencil.dists[1].st_procs[q];
        let j2e = x_pencil.dists[1].en_procs[q];
        let szq = x_pencil.dists[1].sz_procs[q];
        let mut i: usize = 0;
        while i < s0
            invariant
                xy3_tables(x, y),
                x == *x_pencil,
                y == *y_pencil,
                s0 as int == y.spec_size(0),
                n1 as int == y.spec_size(1),
                s2 as int == y.spec_size(2),
                n1 as int == x.n_global@[1] as int,
                1 <= s0,
                1 <= n1,
                1 <= s2,
                buf@.len() == y.spec_len(),
                data@.len() == y.spec_len(),
                y.spec_len() == (s0 as int) * ((n1 as int) * (s2 as int)),
                y.spec_len() <= usize::MAX,
                (q as int) < x.dists@[1].nprocs(),
                j1 == x.dists@[1].st_procs@[q as int],
                j2e == x.dists@[1].en_procs@[q as int],
                szq == x.dists@[1].sz_procs@[q as int],
                j2e as int == j1 as int + szq as int - 1,
                (j2e as int) < (n1 as int),
                1 <= szq,
                i <= s0,
                pos as int == (s0 as int) * (s2 as int) * (j1 as int) + (i as int) * ((szq as int)
                    * (s2 as int)),
                forall|q2: int, i2: int, j2: int, k2: int|
                    #[trigger] xy_slot(x, y, q2, i2, j2, k2) && q2 < q ==> data@[i2 * ((n1 as int)
                        * (s2 as int)) + j2 * (s2 as int) + k2] == buf@[xy_src(x, y, q2, i2, j2, k2)],
                forall|i2: int, j2: int, k2: int|
                    #[trigger] xy_slot(x, y, q as int, i2, j2, k2) && i2 < i ==> data@[i2 * ((
                    n1 as int) * (s2 as int)) + j2 * (s2 as int) + k2] == buf@[xy_src(
                        x,
                        y,
                        q as int,
                        i2,
                        j2,
                        k2,
                    )],
            decreases s0 - i,
        {
            let mut j: usize = j1;
            while j <= j2e
                invariant
                    xy3_tables(x, y),
                    x == *x_pencil,
                    y == *y_pencil,
                    s0 as int == y.spec_size(0),
                    n1 as int == y.spec_size(1),
                    s2 as int == y.spec_size(2),
                    n1 as int == x.n_global@[1] as int,
                    1 <= s0,
                    1 <= n1,
                    1 <= s2,
                    buf@.len() == y.spec_len(),
                    data@.len() == y.spec_len(),
                    y.spec_len() == (s0 as int) * ((n1 as int) * (s2 as int)),
                    y.spec_len() <= usize::MAX,
                    (q as int) < x.dists@[1].nprocs(),
                    j1 == x.dists@[1].st_procs@[q as int],
                    j2e == x.dists@[1].en_procs@[q as int],
                    szq == x.dists@[1].sz_procs@[q as int],
                    j2e as int == j1 as int + szq as int - 1,
                    (j2e as int) < (n1 as int),
                    1 <= szq,
                    i < s0,
                    j1 <= j <= j2e + 1,
                    pos as int == (s0 as int) * (s2 as int) * (j1 as int) + (i as int) * ((
                    szq as int) * (s2 as int)) + (j as int - j1 as int) * (s2 as int),
                    forall|q2: int, i2: int, j2: int, k2: int|
                        #[trigger] xy_slot(x, y, q2, i2, j2, k2) && q2 < q ==> data@[i2 * ((
                        n1 as int) * (s2 as int)) + j2 * (s2 as int) + k2] == buf@[xy_src(
                            x,
                            y,
                            q2,
                            i2,
                            j2,
                            k2,
                        )],
                    forall|i2: int, j2: int, k2: int|
                        #[trigger] xy_slot(x, y, q as int, i2, j2, k2) && i2 < i ==> data@[i2 * ((
                        n1 as int) * (s2 as int)) + j2 * (s2 as int) + k2] == buf@[xy_src(
                            x,
                            y,
                            q as int,
                            i2,
                            j2,
                            k2,
                        )],
                    forall|j2: int, k2: int|
                        #[trigger] xy_slot(x, y, q as int, i as int, j2, k2) && j2 < j ==> data@[
                        i as int * ((n1 as int) * (s2 as int)) + j2 * (s2 as int) + k2] == buf@[
                        xy_src(x, y, q as int, i as int, j2, k2)],
                decreases j2e + 1 - j,
            {
                proof {
                    assert((pos as int) + (s2 as int) <= (s0 as int) * ((n1 as int) * (
                    s2 as int))) by (nonlinear_arith)
                        requires
                            pos as int == (s0 as int) * (s2 as int) * (j1 as int) + (i as int) * ((
                            szq as int) * (s2 as int)) + (j as int - j1 as int) * (s2 as int),
                            0 <= i as int,
                            (i as int) < (s0 as int),
                            j1 as int <= j as int <= j2e as int,
                            j2e as int == j1 as int + szq as int - 1,
                            (j2e as int) < (n1 as int),
                            1 <= szq as int,
                            1 <= s2 as int,
                    ;
                    assert((i as int) * ((n1 as int) * (s2 as int)) + (j as int) * (s2 as int) + (
                    s2 as int) <= (s0 as int) * ((n1 as int) * (s2 as int))
                        && (n1 as int) * (s2 as int) <= (s0 as int) * ((n1 as int) * (
                    s2 as int))) by (nonlinear_arith)
                        requires
                            0 <= i as int,
                            (i as int) < (s0 as int),
                            0 <= j as int,
                            (j as int) < (n1 as int),
                            1 <= s2 as int,
                            1 <= n1 as int,
                            1 <= s0 as int,
                    ;
                }
                let base = i * (n1 * s2) + j * s2;
                let ghost prev = data@;
                copy_strided(buf, pos, 1, data, base, s2);
                proof {
                    lemma_merge_xy_row(
                        x,
                        y,
                        buf@,
                        prev,
                        data@,
                        q as int,
                        i as int,
                        j as int,
                        pos as int,
                        base as int,
                    );
                    assert((j as int - j1 as int) * (s2 as int) + (s2 as int) == (j as int
                        - j1 as int + 1) * (s2 as int)) by (nonlinear_arith);
                }
                pos = pos + s2;
                j = j + 1;
            }
            proof {
                assert((i as int) * ((szq as int) * (s2 as int)) + (szq as int) * (s2 as int) == (
                i as int + 1) * ((szq as int) * (s2 as int))) by (nonlinear_arith);
            }
            i += 1;
        }
        proof {
            assert((s0 as int) * (s2 as int) * (j1 as int) + (s0 as int) * ((szq as int) * (
            s2 as int)) == (s0 as int) * (s2 as int) * (j1 as int + szq as int)) by (nonlinear_arith);
            if (q as int + 1) < x.dists@[1].nprocs() {
                assert(x.dists@[1].st_procs@[q as int + 1] == x.dists@[1].en_procs@[q as int] + 1);
            } else {
                assert(x.dists@[1].en_procs@[q as int] == n1 as int - 1);
            }
        }
        q += 1;
    }
}

/// One destination slot of the unpack of a transpose from the y-pencil to
/// the x-pencil: peer `q` of the sub-group along axis 0, local column `j`,
/// global row `i` inside peer `q`'s chunk of axis 0, local depth `k`.
pub open spec fn yx_slot(y: Pencil, x: Pencil, q: int, j: int, i: int, k: int) -> bool {
    &&& 0 <= q < y.dists@[0].nprocs()
    &&& 0 <= j < x.spec_size(1)
    &&& y.dists@[0].st_procs@[q] <= i <= y.dists@[0].en_procs@[q]
    &&& 0 <= k < x.spec_size(2)
}

/// Position inside the receive buffer that feeds slot `(q, j, i, k)` of the
/// y-to-x unpack.
pub open spec fn yx_src(y: Pencil, x: Pencil, q: int, j: int, i: int, k: int) -> int {
    let st = y.dists@[0].st_procs@[q] as int;
    let sz = y.dists@[0].sz_procs@[q] as int;
    x.spec_size(1) * x.spec_size(2) * st + j * (sz * x.spec_size(2)) + (i - st) * x.spec_size(2)
        + k
}

/// One copied row of the y-to-x unpack, accounted for.
proof fn lemma_merge_yx_row<T>(
    y: Pencil,
    x: Pencil,
    buf: Seq<T>,
    prev: Seq<T>,
    cur: Seq<T>,
    q: int,
    j: int,
    i: int,
    pos: int,
    base: int,
)
    requires
        xy3_tables(x, y),
        prev.len() == x.spec_len(),
        cur.len() == prev.len(),
        0 <= q < y.dists@[0].nprocs(),
        0 <= j < x.spec_size(1),
        y.dists@[0].st_procs@[q] <= i <= y.dists@[0].en_procs@[q],
        pos == x.spec_size(1) * x.spec_size(2) * y.dists@[0].st_procs@[q] + j * (
        y.dists@[0].sz_procs@[q] * x.spec_size(2)) + (i - y.dists@[0].st_procs@[q])
            * x.spec_size(2),
        base == i * (x.spec_size(1) * x.spec_size(2)) + j * x.spec_size(2),
        forall|u: int| 0 <= u < x.spec_size(2) ==> #[trigger] cur[base + u] == buf[pos + u],
        forall|p: int|
            0 <= p < prev.len() && (p < base || base + x.spec_size(2) <= p) ==> #[trigger] cur[p]
                == prev[p],
        forall|q2: int, j2: int, i2: int, k2: int|
            #[trigger] yx_slot(y, x, q2, j2, i2, k2) && (q2 < q || (q2 == q && j2 < j) || (q2 == q
                && j2 == j && i2 < i)) ==> prev[i2 * (x.spec_size(1) * x.spec_size(2)) + j2
                * x.spec_size(2) + k2] == buf[yx_src(y, x, q2, j2, i2, k2)],
    ensures
        forall|q2: int, j2: int, i2: int, k2: int|
            #[trigger] yx_slot(y, x, q2, j2, i2, k2) && (q2 < q || (q2 == q && j2 < j) || (q2 == q
                && j2 == j && i2 <= i)) ==> cur[i2 * (x.spec_size(1) * x.spec_size(2)) + j2
                * x.spec_size(2) + k2] == buf[yx_src(y, x, q2, j2, i2, k2)],
{
    let t0 = y.dists@[0];
    let n0 = x.spec_size(0);
    let s1 = x.spec_size(1);
    let s2 = x.spec_size(2);
    let n0g = y.n_global@[0] as int;
    lemma_pencil_dist_wf(y, 0);
    lemma_contig_size(x);
    lemma_len3(x);
    lemma_table_row_bounds(t0, n0g, q);
    assert forall|q2: int, j2: int, i2: int, k2: int|
        #[trigger] yx_slot(y, x, q2, j2, i2, k2) && (q2 < q || (q2 == q && j2 < j) || (q2 == q
            && j2 == j && i2 <= i)) implies cur[i2 * (s1 * s2) + j2 * s2 + k2] == buf[yx_src(
        y,
        x,
        q2,
        j2,
        i2,
        k2,
    )] by {
        lemma_table_row_bounds(t0, n0g, q2);
        if q2 == q && j2 == j && i2 == i {
            assert(cur[base + k2] == buf[pos + k2]);
            assert(yx_src(y, x, q, j, i, k2) == pos + k2);
            assert(i2 * (s1 * s2) + j2 * s2 + k2 == base + k2);
        } else {
            if q2 < q {
                lemma_table_disjoint(t0, n0g, q2, q);
            }
            assert(i2 != i || j2 != j);
            assert(i2 * (s1 * s2) + j2 * s2 + k2 == (i2 * s1 + j2) * s2 + k2) by (nonlinear_arith);
            assert(base == (i * s1 + j) * s2) by (nonlinear_arith)
                requires
                    base == i * (s1 * s2) + j * s2,
            ;
            lemma_index2_injective(s1, i2, j2, i, j);
            lemma_rows_disjoint(s2, i * s1 + j, i2 * s1 + j2, k2);
            lemma_index3_bounds(n0, s1, s2, i2, j2, k2);
            assert(cur[i2 * (s1 * s2) + j2 * s2 + k2] == prev[i2 * (s1 * s2) + j2 * s2 + k2]);
        }
    }
}

/// Unpack the receive buffer of a transpose from the y-pencil to the
/// x-pencil into the destination array in x-pencil layout.
pub fn merge_yx<T: Copy>(buf: &Vec<T>, data: &mut Vec<T>, y_pencil: &Pencil, x_pencil: &Pencil)
    requires
        xy3_tables(*x_pencil, *y_pencil),
        buf@.len() == x_pencil.spec_len(),
        old(data)@.len() == x_pencil.spec_len(),
    ensures
        final(data)@.len() == x_pencil.spec_len(),
        forall|q: int, j: int, i: int, k: int|
            #[trigger] yx_slot(*y_pencil, *x_pencil, q, j, i, k) ==> final(data)@[i * (
            x_pencil.spec_size(1) * x_pencil.spec_size(2)) + j * x_pencil.spec_size(2) + k]
                == buf@[yx_src(*y_pencil, *x_pencil, q, j, i, k)],
{
    let ghost x = *x_pencil;
    let ghost y = *y_pencil;
    proof {
        lemma_len3(x);
        lemma_contig_size(x);
        lemma_pencil_dist_wf(y, 0);
        lemma_pencil_dist_wf(x, 1);
        lemma_pencil_dist_wf(x, 2);
        lemma_pencil_size_bounds(x);
    }
    let n0 = x_pencil.dists[0].sz;
    let s1 = x_pencil.dists[1].sz;
    let s2 = x_pencil.dists[2].sz;
    let nprocs = y_pencil.nprocs_along_axis(0);
    proof {
        assert(y.dists@[0].nprocs() == nprocs as int);
        assert((n0 as int) * ((s1 as int) * (s2 as int)) == (s1 as int) * (s2 as int) * (
        n0 as int)) by (nonlinear_arith);
    }
    let mut pos: usize = 0;
    let mut q: usize = 0;
    while q < nprocs
        invariant
            xy3_tables(x, y),
            x == *x_pencil,
            y == *y_pencil,
            n0 as int == x.spec_size(0),
            s1 as int == x.spec_size(1),
            s2 as int == x.spec_size(2),
            n0 as int == y.n_global@[0] as int,
            1 <= n0,
            1 <= s1,
            1 <= s2,
            buf@.len() == x.spec_len(),
            data@.len() == x.spec_len(),
            x.spec_len() == (n0 as int) * ((s1 as int) * (s2 as int)),
            x.spec_len() == (s1 as int) * (s2 as int) * (n0 as int),
            x.spec_len() <= usize::MAX,
            nprocs as int == y.dists@[0].nprocs(),
            q <= nprocs,
            pos as int == (s1 as int) * (s2 as int) * (if (q as int) < y.dists@[0].nprocs() {
                y.dists@[0].st_procs@[q as int] as int
            } else {
                n0 as int
            }),
            forall|q2: int, j2: int, i2: int, k2: int|
                #[trigger] yx_slot(y, x, q2, j2, i2, k2) && q2 < q ==> data@[i2 * ((s1 as int) * (
                s2 as int)) + j2 * (s2 as int) + k2] == buf@[yx_src(y, x, q2, j2, i2, k2)],
        decreases nprocs - q,
    {
        proof {
            lemma_pencil_dist_wf(y, 0);
            lemma_table_row_bounds(y.dists@[0], n0 as int, q as int);
        }
        let i1 = y_pencil.dists[0].st_procs[q];
        let i2e = y_pencil.dists[0].en_procs[q];
        let szq = y_pencil.dists[0].sz_procs[q];
        let mut j: usize = 0;
        while j < s1
            invariant
                xy3_tables(x, y),
                x == *x_pencil,
                y == *y_pencil,
                n0 as int == x.spec_size(0),
                s1 as int == x.spec_size(1),
                s2 as int == x.spec_size(2),
                n0 as int == y.n_global@[0] as int,
                1 <= n0,
                1 <= s1,
                1 <= s2,
                buf@.len() == x.spec_len(),
                data@.len() == x.spec_len(),
                x.spec_len() == (n0 as int) * ((s1 as int) * (s2 as int)),
                x.spec_len() <= usize::MAX,
                (q as int) < y.dists@[0].nprocs(),
                i1 == y.dists@[0].st_procs@[q as int],
                i2e == y.dists@[0].en_procs@[q as int],
                szq == y.dists@[0].sz_procs@[q as int],
                i2e as int == i1 as int + szq as int - 1,
                (i2e as int) < (n0 as int),
                1 <= szq,
                j <= s1,
                pos as int == (s1 as int) * (s2 as int) * (i1 as int) + (j as int) * ((szq as int)
                    * (s2 as int)),
                forall|q2: int, j2: int, i2: int, k2: int|
                    #[trigger] yx_slot(y, x, q2, j2, i2, k2) && q2 < q ==> data@[i2 * ((s1 as int)
                        * (s2 as int)) + j2 * (s2 as int) + k2] == buf@[yx_src(y, x, q2, j2, i2, k2)],
                forall|j2: int, i2: int, k2: int|
                    #[trigger] yx_slot(y, x, q as int, j2, i2, k2) && j2 < j ==> data@[i2 * ((
                    s1 as int) * (s2 as int)) + j2 * (s2 as int) + k2] == buf@[yx_src(
                        y,
                        x,
                        q as int,
                        j2,
                        i2,
                        k2,
                    )],
            decreases s1 - j,
        {
            let mut i: usize = i1;
            while i <= i2e
                invariant
                    xy3_tables(x, y),
                    x == *x_pencil,
                    y == *y_pencil,
                    n0 as int == x.spec_size(0),
                    s1 as int == x.spec_size(1),
                    s2 as int == x.spec_size(2),
                    n0 as int == y.n_global@[0] as int,
                    1 <= n0,
                    1 <= s1,
                    1 <= s2,
                    buf@.len() == x.spec_len(),
                    data@.len() == x.spec_len(),
                    x.spec_len() == (n0 as int) * ((s1 as int) * (s2 as int)),
                    x.spec_len() <= usize::MAX,
                    (q as int) < y.dists@[0].nprocs(),
                    i1 == y.dists@[0].st_procs@[q as int],
                    i2e == y.dists@[0].en_procs@[q as int],
                    szq == y.dists@[0].sz_procs@[q as int],
                    i2e as int == i1 as int + szq as int - 1,
                    (i2e as int) < (n0 as int),
                    1 <= szq,
                    j < s1,
                    i1 <= i <= i2e + 1,
                    pos as int == (s1 as int) * (s2 as int) * (i1 as int) + (j as int) * ((
                    szq as int) * (s2 as int)) + (i as int - i1 as int) * (s2 as int),
                    forall|q2: int, j2: int, i2: int, k2: int|
                        #[trigger] yx_slot(y, x, q2, j2, i2, k2) && q2 < q ==> data@[i2 * ((
                        s1 as int) * (s2 as int)) + j2 * (s2 as int) + k2] == buf@[yx_src(
                            y,
                            x,
                            q2,
                            j2,
                            i2,
                            k2,
                        )],
                    forall|j2: int, i2: int, k2: int|
                        #[trigger] yx_slot(y, x, q as int, j2, i2, k2) && j2 < j ==> data@[i2 * ((
                        s1 as int) * (s2 as int)) + j2 * (s2 as int) + k2] == buf@[yx_src(
                            y,
                            x,
                            q as int,
                            j2,
                            i2,
                            k2,
                        )],
                    forall|i2: int, k2: int|
                        #[trigger] yx_slot(y, x, q as int, j as int, i2, k2) && i2 < i ==> data@[i2
                            * ((s1 as int) * (s2 as int)) + j as int * (s2 as int) + k2] == buf@[
                        yx_src(y, x, q as int, j as int, i2, k2)],
                decreases i2e + 1 - i,
            {
                proof {
                    assert((pos as int) + (s2 as int) <= (n0 as int) * ((s1 as int) * (
                    s2 as int))) by (nonlinear_arith)
                        requires
                            pos as int == (s1 as int) * (s2 as int) * (i1 as int) + (j as int) * ((
                            szq as int) * (s2 as int)) + (i as int - i1 as int) * (s2 as int),
                            0 <= j as int,
                            (j as int) < (s1 as int),
                            i1 as int <= i as int <= i2e as int,
                            i2e as int == i1 as int + szq as int - 1,
                            (i2e as int) < (n0 as int),
                            1 <= szq as int,
                            1 <= s2 as int,
                            1 <= s1 as int,
                    ;
                    assert((i as int) * ((s1 as int) * (s2 as int)) + (j as int) * (s2 as int) + (
                    s2 as int) <= (n0 as int) * ((s1 as int) * (s2 as int)) && (s1 as int) * (
                    s2 as int) <= (n0 as int) * ((s1 as int) * (s2 as int))) by (nonlinear_arith)
                        requires
                            0 <= i as int,
                            (i as int) < (n0 as int),
                            0 <= j as int,
                            (j as int) < (s1 as int),
                            1 <= s2 as int,
                            1 <= s1 as int,
                            1 <= n0 as int,
                    ;
                }
                let base = i * (s1 * s2) + j * s2;
                let ghost prev = data@;
                copy_strided(buf, pos, 1, data, base, s2);
                proof {
                    lemma_merge_yx_row(
                        y,
                        x,
                        buf@,
                        prev,
                        data@,
                        q as int,
                        j as int,
                        i as int,
                        pos as int,
                        base as int,
                    );
                    assert((i as int - i1 as int) * (s2 as int) + (s2 as int) == (i as int
                        - i1 as int + 1) * (s2 as int)) by (nonlinear_arith);
                }
                pos = pos + s2;
                i = i + 1;
            }
            proof {
                assert((j as int) * ((szq as int) * (s2 as int)) + (szq as int) * (s2 as int) == (
                j as int + 1) * ((szq as int) * (s2 as int))) by (nonlinear_arith);
            }
            j += 1;
        }
        proof {
            assert((s1 as int) * (s2 as int) * (i1 as int) + (s1 as int) * ((szq as int) * (
            s2 as int)) == (s1 as int) * (s2 as int) * (i1 as int
                + szq as int)) by (nonlinear_arith);
            if (q as int + 1) < y.dists@[0].nprocs() {
                assert(y.dists@[0].st_procs@[q as int + 1] == y.dists@[0].en_procs@[q as int] + 1);
            } else {
                assert(y.dists@[0].en_procs@[q as int] == n0 as int - 1);
            }
        }
        q += 1;
    }
}

/// The facts about a pencil pair that the y-to-z and z-to-y unpacks rely
/// on: both well-formed over the same grid, contiguous on axes 1 and 2.
pub open spec fn yz3_tables(y: Pencil, z: Pencil) -> bool {
    &&& y.wf()
    &&& z.wf()
    &&& y.ndim() == 3
    &&& z.ndim() == 3
    &&& y.axis_contig == 1
    &&& z.axis_contig == 2
    &&& y.n_global@ == z.n_global@
    &&& y.comm.dims@ == z.comm.dims@
    &&& y.comm.coords@ == z.comm.coords@
}

/// One destination slot of the unpack of a transpose from the y-pencil to
/// the z-pencil: peer `q` of the sub-group along axis 2, local column `j`,
/// local row `i`, global depth `k` inside peer `q`'s chunk of axis 2.
pub open spec fn yz_slot(y: Pencil, z: Pencil, q: int, j: int, i: int, k: int) -> bool {
    &&& 0 <= q < y.dists@[2].nprocs()
    &&& 0 <= j < z.spec_size(1)
    &&& 0 <= i < z.spec_size(0)
    &&& y.dists@[2].st_procs@[q] <= k <= y.dists@[2].en_procs@[q]
}

/// Position inside the receive buffer that feeds slot `(q, j, i, k)` of the
/// y-to-z unpack.
pub open spec fn yz_src(y: Pencil, z: Pencil, q: int, j: int, i: int, k: int) -> int {
    let st = y.dists@[2].st_procs@[q] as int;
    let sz = y.dists@[2].sz_procs@[q] as int;
    z.spec_size(0) * z.spec_size(1) * st + j * (z.spec_size(0) * sz) + i * sz + (k - st)
}

/// One copied segment of the y-to-z unpack, accounted for: the segment is
/// peer `q`'s chunk of axis 2 within one row of the destination.
proof fn lemma_merge_yz_row<T>(
    y: Pencil,
    z: Pencil,
    buf: Seq<T>,
    prev: Seq<T>,
    cur: Seq<T>,
    q: int,
    j: int,
    i: int,
    pos: int,
    base: int,
)
    requires
        yz3_tables(y, z),
        prev.len() == z.spec_len(),
        cur.len() == prev.len(),
        0 <= q < y.dists@[2].nprocs(),
        0 <= j < z.spec_size(1),
        0 <= i < z.spec_size(0),
        pos == z.spec_size(0) * z.spec_size(1) * y.dists@[2].st_procs@[q] + j * (z.spec_size(0)
            * y.dists@[2].sz_procs@[q]) + i * y.dists@[2].sz_procs@[q],
        base == i * (z.spec_size(1) * z.spec_size(2)) + j * z.spec_size(2),
        forall|u: int|
            0 <= u < y.dists@[2].sz_procs@[q] ==> #[trigger] cur[base + y.dists@[2].st_procs@[q]
                + u] == buf[pos + u],
        forall|p: int|
            0 <= p < prev.len() && (p < base + y.dists@[2].st_procs@[q] || base
                + y.dists@[2].st_procs@[q] + y.dists@[2].sz_procs@[q] <= p) ==> #[trigger] cur[p]
                == prev[p],
        forall|q2: int, j2: int, i2: int, k2: int|
            #[trigger] yz_slot(y, z, q2, j2, i2, k2) && (q2 < q || (q2 == q && j2 < j) || (q2 == q
                && j2 == j && i2 < i)) ==> prev[i2 * (z.spec_size(1) * z.spec_size(2)) + j2
                * z.spec_size(2) + k2] == buf[yz_src(y, z, q2, j2, i2, k2)],
    ensures
        forall|q2: int, j2: int, i2: int, k2: int|
            #[trigger] yz_slot(y, z, q2, j2, i2, k2) && (q2 < q || (q2 == q && j2 < j) || (q2 == q
                && j2 == j && i2 <= i)) ==> cur[i2 * (z.spec_size(1) * z.spec_size(2)) + j2
                * z.spec_size(2) + k2] == buf[yz_src(y, z, q2, j2, i2, k2)],
{
    let t2 = y.dists@[2];
    let s0 = z.spec_size(0);
    let s1 = z.spec_size(1);
    let n2 = z.spec_size(2);
    let n2g = y.n_global@[2] as int;
    lemma_pencil_dist_wf(y, 2);
    lemma_contig_size(z);
    lemma_len3(z);
    lemma_table_row_bounds(t2, n2g, q);
    assert forall|q2: int, j2: int, i2: int, k2: int|
        #[trigger] yz_slot(y, z, q2, j2, i2, k2) && (q2 < q || (q2 == q && j2 < j) || (q2 == q
            && j2 == j && i2 <= i)) implies cur[i2 * (s1 * n2) + j2 * n2 + k2] == buf[yz_src(
        y,
        z,
        q2,
        j2,
        i2,
        k2,
    )] by {
        lemma_table_row_bounds(t2, n2g, q2);
        if q2 == q && j2 == j && i2 == i {
            let u = k2 - t2.st_procs@[q];
            assert(cur[base + t2.st_procs@[q] + u] == buf[pos + u]);
            assert(yz_src(y, z, q, j, i, k2) == pos + u);
            assert(i2 * (s1 * n2) + j2 * n2 + k2 == base + t2.st_procs@[q] + u);
        } else {
            assert(i2 * (s1 * n2) + j2 * n2 + k2 == (i2 * s1 + j2) * n2 + k2) by (nonlinear_arith);
            assert(base == (i * s1 + j) * n2) by (nonlinear_arith)
                requires
                    base == i * (s1 * n2) + j * n2,
            ;
            if i2 == i && j2 == j {
                assert(q2 < q);
                lemma_table_disjoint(t2, n2g, q2, q);
                assert(k2 < t2.st_procs@[q]);
            } else {
                lemma_index2_injective(s1, i2, j2, i, j);
                lemma_rows_disjoint(n2, i * s1 + j, i2 * s1 + j2, k2);
            }
            lemma_index3_bounds(s0, s1, n2, i2, j2, k2);
            assert(cur[i2 * (s1 * n2) + j2 * n2 + k2] == prev[i2 * (s1 * n2) + j2 * n2 + k2]);
        }
    }
}

/// Unpack the receive buffer of a transpose from the y-pencil to the
/// z-pencil into the destination array in z-pencil layout.
pub fn merge_yz<T: Copy>(buf: &Vec<T>, data: &mut Vec<T>, y_pencil: &Pencil, z_pencil: &Pencil)
    requires
        yz3_tables(*y_pencil, *z_pencil),
        buf@.len() == z_pencil.spec_len(),
        old(data)@.len() == z_pencil.spec_len(),
    ensures
        final(data)@.len() == z_pencil.spec_len(),
        forall|q: int, j: int, i: int, k: int|
            #[trigger] yz_slot(*y_pencil, *z_pencil, q, j, i, k) ==> final(data)@[i * (
            z_pencil.spec_size(1) * z_pencil.spec_size(2)) + j * z_pencil.spec_size(2) + k]
                == buf@[yz_src(*y_pencil, *z_pencil, q, j, i, k)],
{
    let ghost y = *y_pencil;
    let ghost z = *z_pencil;
    proof {
        lemma_len3(z);
        lemma_contig_size(z);
        lemma_pencil_dist_wf(y, 2);
        lemma_pencil_dist_wf(z, 0);
        lemma_pencil_dist_wf(z, 1);
        lemma_pencil_size_bounds(z);
    }
    let s0 = z_pencil.dists[0].sz;
    let s1 = z_pencil.dists[1].sz;
    let n2 = z_pencil.dists[2].sz;
    let nprocs = y_pencil.nprocs_along_axis(2);
    proof {
        assert(y.dists@[2].nprocs() == nprocs as int);
        assert((s0 as int) * ((s1 as int) * (n2 as int)) == (s0 as int) * (s1 as int) * (
        n2 as int)) by (nonlinear_arith);
    }
    let mut pos: usize = 0;
    let mut q: usize = 0;
    while q < nprocs
        invariant
            yz3_tables(y, z),
            y == *y_pencil,
            z == *z_pencil,
            s0 as int == z.spec_size(0),
            s1 as int == z.spec_size(1),
            n2 as int == z.spec_size(2),
            n2 as int == y.n_global@[2] as int,
            1 <= s0,
            1 <= s1,
            1 <= n2,
            buf@.len() == z.spec_len(),
            data@.len() == z.spec_len(),
            z.spec_len() == (s0 as int) * ((s1 as int) * (n2 as int)),
            z.spec_len() == (s0 as int) * (s1 as int) * (n2 as int),
            z.spec_len() <= usize::MAX,
            nprocs as int == y.dists@[2].nprocs(),
            q <= nprocs,
            pos as int == (s0 as int) * (s1 as int) * (if (q as int) < y.dists@[2].nprocs() {
                y.dists@[2].st_procs@[q as int] as int
            } else {
                n2 as int
            }),
            forall|q2: int, j2: int, i2: int, k2: int|
                #[trigger] yz_slot(y, z, q2, j2, i2, k2) && q2 < q ==> data@[i2 * ((s1 as int) * (
                n2 as int)) + j2 * (n2 as int) + k2] == buf@[yz_src(y, z, q2, j2, i2, k2)],
        decreases nprocs - q,
    {
        proof {
            lemma_pencil_dist_wf(y, 2);
            lemma_table_row_bounds(y.dists@[2], n2 as int, q as int);
        }
        let k1 = y_pencil.dists[2].st_procs[q];
        let k2e = y_pencil.dists[2].en_procs[q];
        let szq = y_pencil.dists[2].sz_procs[q];
        let mut j: usize = 0;
        while j < s1
            invariant
                yz3_tables(y, z),
                y == *y_pencil,
                z == *z_pencil,
                s0 as int == z.spec_size(0),
                s1 as int == z.spec_size(1),
                n2 as int == z.spec_size(2),
                n2 as int == y.n_global@[2] as int,
                1 <= s0,
                1 <= s1,
                1 <= n2,
                buf@.len() == z.spec_len(),
                data@.len() == z.spec_len(),
                z.spec_len() == (s0 as int) * ((s1 as int) * (n2 as int)),
                z.spec_len() <= usize::MAX,
                (q as int) < y.dists@[2].nprocs(),
                k1 == y.dists@[2].st_procs@[q as int],
                k2e == y.dists@[2].en_procs@[q as int],
                szq == y.dists@[2].sz_procs@[q as int],
                k2e as int == k1 as int + szq as int - 1,
                (k2e as int) < (n2 as int),
                1 <= szq,
                j <= s1,
                pos as int == (s0 as int) * (s1 as int) * (k1 as int) + (j as int) * ((s0 as int)
                    * (szq as int)),
                forall|q2: int, j2: int, i2: int, k2: int|
                    #[trigger] yz_slot(y, z, q2, j2, i2, k2) && q2 < q ==> data@[i2 * ((s1 as int)
                        * (n2 as int)) + j2 * (n2 as int) + k2] == buf@[yz_src(y, z, q2, j2, i2, k2)],
                forall|j2: int, i2: int, k2: int|
                    #[trigger] yz_slot(y, z, q as int, j2, i2, k2) && j2 < j ==> data@[i2 * ((
                    s1 as int) * (n2 as int)) + j2 * (n2 as int) + k2] == buf@[yz_src(
                        y,
                        z,
                        q as int,
                        j2,
                        i2,
                        k2,
                    )],
            decreases s1 - j,
        {
            let mut i: usize = 0;
            while i < s0
                invariant
                    yz3_tables(y, z),
                    y == *y_pencil,
                    z == *z_pencil,
                    s0 as int == z.spec_size(0),
                    s1 as int == z.spec_size(1),
                    n2 as int == z.spec_size(2),
                    n2 as int == y.n_global@[2] as int,
                    1 <= s0,
                    1 <= s1,
                    1 <= n2,
                    buf@.len() == z.spec_len(),
                    data@.len() == z.spec_len(),
                    z.spec_len() == (s0 as int) * ((s1 as int) * (n2 as int)),
                    z.spec_len() <= usize::MAX,
                    (q as int) < y.dists@[2].nprocs(),
                    k1 == y.dists@[2].st_procs@[q as int],
                    k2e == y.dists@[2].en_procs@[q as int],
                    szq == y.dists@[2].sz_procs@[q as int],
                    k2e as int == k1 as int + szq as int - 1,
                    (k2e as int) < (n2 as int),
                    1 <= szq,
                    j < s1,
                    i <= s0,
                    pos as int == (s0 as int) * (s1 as int) * (k1 as int) + (j as int) * ((
                    s0 as int) * (szq as int)) + (i as int) * (szq as int),
                    forall|q2: int, j2: int, i2: int, k2: int|
                        #[trigger] yz_slot(y, z, q2, j2, i2, k2) && q2 < q ==> data@[i2 * ((
                        s1 as int) * (n2 as int)) + j2 * (n2 as int) + k2] == buf@[yz_src(
                            y,
                            z,
                            q2,
                            j2,
                            i2,
                            k2,
                        )],
                    forall|j2: int, i2: int, k2: int|
                        #[trigger] yz_slot(y, z, q as int, j2, i2, k2) && j2 < j ==> data@[i2 * ((
                        s1 as int) * (n2 as int)) + j2 * (n2 as int) + k2] == buf@[yz_src(
                            y,
                            z,
                            q as int,
                            j2,
                            i2,
                            k2,
                        )],
                    forall|i2: int, k2: int|
                        #[trigger] yz_slot(y, z, q as int, j as int, i2, k2) && i2 < i ==> data@[i2
                            * ((s1 as int) * (n2 as int)) + j as int * (n2 as int) + k2] == buf@[
                        yz_src(y, z, q as int, j as int, i2, k2)],
                decreases s0 - i,
            {
                proof {
                    assert((pos as int) + (szq as int) <= (s0 as int) * ((s1 as int) * (
                    n2 as int)) && (i as int) * ((s1 as int) * (n2 as int)) + (j as int) * (
                    n2 as int) + (k1 as int) + (szq as int) <= (s0 as int) * ((s1 as int) * (
                    n2 as int)) && (s1 as int) * (n2 as int) <= (s0 as int) * ((s1 as int) * (
                    n2 as int))) by (nonlinear_arith)
                        requires
                            pos as int == (s0 as int) * (s1 as int) * (k1 as int) + (j as int) * ((
                            s0 as int) * (szq as int)) + (i as int) * (szq as int),
                            0 <= j as int,
                            (j as int) < (s1 as int),
                            0 <= i as int,
                            (i as int) < (s0 as int),
                            k2e as int == k1 as int + szq as int - 1,
                            (k2e as int) < (n2 as int),
                            0 <= k1 as int,
                            1 <= szq as int,
                            1 <= s0 as int,
                            1 <= s1 as int,
                    ;
                }
                let dst = i * (s1 * n2) + j * n2 + k1;
                let ghost prev = data@;
                copy_strided(buf, pos, 1, data, dst, szq);
                proof {
                    lemma_merge_yz_row(
                        y,
                        z,
                        buf@,
                        prev,
                        data@,
                        q as int,
                        j as int,
                        i as int,
                        pos as int,
                        dst as int - k1 as int,
                    );
                    assert((i as int) * (szq as int) + (szq as int) == (i as int + 1) * (
                    szq as int)) by (nonlinear_arith);
                }
                pos = pos + szq;
                i = i + 1;
            }
            proof {
                assert((j as int) * ((s0 as int) * (szq as int)) + (s0 as int) * (szq as int) == (
                j as int + 1) * ((s0 as int) * (szq as int))) by (nonlinear_arith);
            }
            j += 1;
        }
        proof {
            assert((s0 as int) * (s1 as int) * (k1 as int) + (s1 as int) * ((s0 as int) * (
            szq as int)) == (s0 as int) * (s1 as int) * (k1 as int
                + szq as int)) by (nonlinear_arith);
            if (q as int + 1) < y.dists@[2].nprocs() {
                assert(y.dists@[2].st_procs@[q as int + 1] == y.dists@[2].en_procs@[q as int] + 1);
            } else {
                assert(y.dists@[2].en_procs@[q as int] == n2 as int - 1);
            }
        }
        q += 1;
    }
}

/// One destination slot of the unpack of a transpose from the z-pencil to
/// the y-pencil: peer `q` of the sub-group along axis 1, local depth `k`,
/// global column `j` inside peer `q`'s chunk of axis 1, local row `i`.
pub open spec fn zy_slot(z: Pencil, y: Pencil, q: int, k: int, j: int, i: int) -> bool {
    &&& 0 <= q < z.dists@[1].nprocs()
    &&& 0 <= k < y.spec_size(2)
    &&& z.dists@[1].st_procs@[q] <= j <= z.dists@[1].en_procs@[q]
    &&& 0 <= i < y.spec_size(0)
}

/// Position inside the receive buffer that feeds slot `(q, k, j, i)` of the
/// z-to-y unpack.
pub open spec fn zy_src(z: Pencil, y: Pencil, q: int, k: int, j: int, i: int) -> int {
    let st = z.dists@[1].st_procs@[q] as int;
    let sz = z.dists@[1].sz_procs@[q] as int;
    y.spec_size(0) * y.spec_size(2) * st + k * (sz * y.spec_size(0)) + (j - st) * y.spec_size(0)
        + i
}

/// One copied row of the z-to-y unpack, accounted for: the destination row
/// gathers its values from the receive buffer with a stride, because the
/// packed segments order the depth axis slowest.
proof fn lemma_merge_zy_row<T>(
    z: Pencil,
    y: Pencil,
    buf: Seq<T>,
    prev: Seq<T>,
    cur: Seq<T>,
    q: int,
    j: int,
    i: int,
    src: int,
    base: int,
)
    requires
        yz3_tables(y, z),
        prev.len() == y.spec_len(),
        cur.len() == prev.len(),
        0 <= q < z.dists@[1].nprocs(),
        z.dists@[1].st_procs@[q] <= j <= z.dists@[1].en_procs@[q],
        0 <= i < y.spec_size(0),
        src == y.spec_size(0) * y.spec_size(2) * z.dists@[1].st_procs@[q] + (j
            - z.dists@[1].st_procs@[q]) * y.spec_size(0) + i,
        base == i * (y.spec_size(1) * y.spec_size(2)) + j * y.spec_size(2),
        forall|u: int|
            0 <= u < y.spec_size(2) ==> #[trigger] cur[base + u] == buf[src + u * (
            z.dists@[1].sz_procs@[q] * y.spec_size(0))],
        forall|p: int|
            0 <= p < prev.len() && (p < base || base + y.spec_size(2) <= p) ==> #[trigger] cur[p]
                == prev[p],
        forall|q2: int, k2: int, j2: int, i2: int|
            #[trigger] zy_slot(z, y, q2, k2, j2, i2) && (q2 < q || (q2 == q && j2 < j) || (q2 == q
                && j2 == j && i2 < i)) ==> prev[i2 * (y.spec_size(1) * y.spec_size(2)) + j2
                * y.spec_size(2) + k2] == buf[zy_src(z, y, q2, k2, j2, i2)],
    ensures
        forall|q2: int, k2: int, j2: int, i2: int|
            #[trigger] zy_slot(z, y, q2, k2, j2, i2) && (q2 < q || (q2 == q && j2 < j) || (q2 == q
                && j2 == j && i2 <= i)) ==> cur[i2 * (y.spec_size(1) * y.spec_size(2)) + j2
                * y.spec_size(2) + k2] == buf[zy_src(z, y, q2, k2, j2, i2)],
{
    let t1 = z.dists@[1];
    let s0 = y.spec_size(0);
    let n1 = y.spec_size(1);
    let s2 = y.spec_size(2);
    let n1g = z.n_global@[1] as int;
    lemma_pencil_dist_wf(z, 1);
    lemma_contig_size(y);
    lemma_len3(y);
    lemma_table_row_bounds(t1, n1g, q);
    assert forall|q2: int, k2: int, j2: int, i2: int|
        #[trigger] zy_slot(z, y, q2, k2, j2, i2) && (q2 < q || (q2 == q && j2 < j) || (q2 == q
            && j2 == j && i2 <= i)) implies cur[i2 * (n1 * s2) + j2 * s2 + k2] == buf[zy_src(
        z,
        y,
        q2,
        k2,
        j2,
        i2,
    )] by {
        lemma_table_row_bounds(t1, n1g, q2);
        if q2 == q && j2 == j && i2 == i {
            assert(cur[base + k2] == buf[src + k2 * (t1.sz_procs@[q] * s0)]);
            assert(zy_src(z, y, q, k2, j, i) == src + k2 * (t1.sz_procs@[q] * s0));
            assert(i2 * (n1 * s2) + j2 * s2 + k2 == base + k2);
        } else {
            if q2 < q {
                lemma_table_disjoint(t1, n1g, q2, q);
            }
            assert(i2 != i || j2 != j);
            assert(i2 * (n1 * s2) + j2 * s2 + k2 == (i2 * n1 + j2) * s2 + k2) by (nonlinear_arith);
            assert(base == (i * n1 + j) * s2) by (nonlinear_arith)
                requires
                    base == i * (n1 * s2) + j * s2,
            ;
            lemma_index2_injective(n1, i2, j2, i, j);
            lemma_rows_disjoint(s2, i * n1 + j, i2 * n1 + j2, k2);
            lemma_index3_bounds(s0, n1, s2, i2, j2, k2);
            assert(cur[i2 * (n1 * s2) + j2 * s2 + k2] == prev[i2 * (n1 * s2) + j2 * s2 + k2]);
        }
    }
}

/// Unpack the receive buffer of a transpose from the z-pencil to the
/// y-pencil into the destination array in y-pencil layout.
pub fn merge_zy<T: Copy>(buf: &Vec<T>, data: &mut Vec<T>, z_pencil: &Pencil, y_pencil: &Pencil)
    requires
        yz3_tables(*y_pencil, *z_pencil),
        buf@.len() == y_pencil.spec_len(),
        old(data)@.len() == y_pencil.spec_len(),
    ensures
        final(data)@.len() == y_pencil.spec_len(),
        forall|q: int, k: int, j: int, i: int|
            #[trigger] zy_slot(*z_pencil, *y_pencil, q, k, j, i) ==> final(data)@[i * (
            y_pencil.spec_size(1) * y_pencil.spec_size(2)) + j * y_pencil.spec_size(2) + k]
                == buf@[zy_src(*z_pencil, *y_pencil, q, k, j, i)],
{
    let ghost y = *y_pencil;
    let ghost z = *z_pencil;
    proof {
        lemma_len3(y);
        lemma_contig_size(y);
        lemma_pencil_dist_wf(z, 1);
        lemma_pencil_dist_wf(y, 0);
        lemma_pencil_dist_wf(y, 2);
        lemma_pencil_size_bounds(y);
    }
    let s0 = y_pencil.dists[0].sz;
    let n1 = y_pencil.dists[1].sz;
    let s2 = y_pencil.dists[2].sz;
    let nprocs = z_pencil.nprocs_along_axis(1);
    proof {
        assert(z.dists@[1].nprocs() == nprocs as int);
        assert((s0 as int) * ((n1 as int) * (s2 as int)) == (s0 as int) * (s2 as int) * (
        n1 as int)) by (nonlinear_arith);
    }
    let mut q: usize = 0;
    while q < nprocs
        invariant
            yz3_tables(y, z),
            y == *y_pencil,
            z == *z_pencil,
            s0 as int == y.spec_size(0),
            n1 as int == y.spec_size(1),
            s2 as int == y.spec_size(2),
            n1 as int == z.n_global@[1] as int,
            1 <= s0,
            1 <= n1,
            1 <= s2,
            buf@.len() == y.spec_len(),
            data@.len() == y.spec_len(),
            y.spec_len() == (s0 as int) * ((n1 as int) * (s2 as int)),
            y.spec_len() == (s0 as int) * (s2 as int) * (n1 as int),
            y.spec_len() <= usize::MAX,
            nprocs as int == z.dists@[1].nprocs(),
            q <= nprocs,
            forall|q2: int, k2: int, j2: int, i2: int|
                #[trigger] zy_slot(z, y, q2, k2, j2, i2) && q2 < q ==> data@[i2 * ((n1 as int) * (
                s2 as int)) + j2 * (s2 as int) + k2] == buf@[zy_src(z, y, q2, k2, j2, i2)],
        decreases nprocs - q,
    {
        proof {
            lemma_pencil_dist_wf(z, 1);
            lemma_table_row_bounds(z.dists@[1], n1 as int, q as int);
            assert(1 <= (z.dists@[1].sz_procs@[q as int] as int) * (s0 as int) && (
            z.dists@[1].sz_procs@[q as int] as int) * (s0 as int) <= (s0 as int) * (s2 as int) * (
            n1 as int)) by (nonlinear_arith)
                requires
                    1 <= z.dists@[1].sz_procs@[q as int] as int,
                    (z.dists@[1].sz_procs@[q as int] as int) <= (n1 as int),
                    1 <= s0 as int,
                    1 <= s2 as int,
                    1 <= n1 as int,
            ;
        }
        let j1 = z_pencil.dists[1].st_procs[q];
        let j2e = z_pencil.dists[1].en_procs[q];
        let szq = z_pencil.dists[1].sz_procs[q];
        let stride = szq * s0;
        let mut j: usize = j1;
        while j <= j2e
            invariant
                yz3_tables(y, z),
                y == *y_pencil,
                z == *z_pencil,
                s0 as int == y.spec_size(0),
                n1 as int == y.spec_size(1),
                s2 as int == y.spec_size(2),
                n1 as int == z.n_global@[1] as int,
                1 <= s0,
                1 <= n1,
                1 <= s2,
                buf@.len() == y.spec_len(),
                data@.len() == y.spec_len(),
                y.spec_len() == (s0 as int) * ((n1 as int) * (s2 as int)),
                y.spec_len() <= usize::MAX,
                (q as int) < z.dists@[1].nprocs(),
                j1 == z.dists@[1].st_procs@[q as int],
                j2e == z.dists@[1].en_procs@[q as int],
                szq == z.dists@[1].sz_procs@[q as int],
                j2e as int == j1 as int + szq as int - 1,
                (j2e as int) < (n1 as int),
                1 <= szq,
                stride as int == (szq as int) * (s0 as int),
                j1 <= j <= j2e + 1,
                forall|q2: int, k2: int, j2: int, i2: int|
                    #[trigger] zy_slot(z, y, q2, k2, j2, i2) && q2 < q ==> data@[i2 * ((n1 as int)
                        * (s2 as int)) + j2 * (s2 as int) + k2] == buf@[zy_src(z, y, q2, k2, j2, i2)],
                forall|k2: int, j2: int, i2: int|
                    #[trigger] zy_slot(z, y, q as int, k2, j2, i2) && j2 < j ==> data@[i2 * ((
                    n1 as int) * (s2 as int)) + j2 * (s2 as int) + k2] == buf@[zy_src(
                        z,
                        y,
                        q as int,
                        k2,
                        j2,
                        i2,
                    )],
            decreases j2e + 1 - j,
        {
            let mut i: usize = 0;
            while i < s0
                invariant
                    yz3_tables(y, z),
                    y == *y_pencil,
                    z == *z_pencil,
                    s0 as int == y.spec_size(0),
                    n1 as int == y.spec_size(1),
                    s2 as int == y.spec_size(2),
                    n1 as int == z.n_global@[1] as int,
                    1 <= s0,
                    1 <= n1,
                    1 <= s2,
                    buf@.len() == y.spec_len(),
                    data@.len() == y.spec_len(),
                    y.spec_len() == (s0 as int) * ((n1 as int) * (s2 as int)),
                    y.spec_len() <= usize::MAX,
                    (q as int) < z.dists@[1].nprocs(),
                    j1 == z.dists@[1].st_procs@[q as int],
                    j2e == z.dists@[1].en_procs@[q as int],
                    szq == z.dists@[1].sz_procs@[q as int],
                    j2e as int == j1 as int + szq as int - 1,
                    (j2e as int) < (n1 as int),
                    1 <= szq,
                    stride as int == (szq as int) * (s0 as int),
                    j1 <= j <= j2e,
                    i <= s0,
                    forall|q2: int, k2: int, j2: int, i2: int|
                        #[trigger] zy_slot(z, y, q2, k2, j2, i2) && q2 < q ==> data@[i2 * ((
                        n1 as int) * (s2 as int)) + j2 * (s2 as int) + k2] == buf@[zy_src(
                            z,
                            y,
                            q2,
                            k2,
                            j2,
                            i2,
                        )],
                    forall|k2: int, j2: int, i2: int|
                        #[trigger] zy_slot(z, y, q as int, k2, j2, i2) && j2 < j ==> data@[i2 * ((
                        n1 as int) * (s2 as int)) + j2 * (s2 as int) + k2] == buf@[zy_src(
                            z,
                            y,
                            q as int,
                            k2,
                            j2,
                            i2,
                        )],
                    forall|k2: int, i2: int|
                        #[trigger] zy_slot(z, y, q as int, k2, j as int, i2) && i2 < i ==> data@[i2
                            * ((n1 as int) * (s2 as int)) + j as int * (s2 as int) + k2] == buf@[
                        zy_src(z, y, q as int, k2, j as int, i2)],
                decreases s0 - i,
            {
                proof {
                    assert((s0 as int) * (s2 as int) * (j1 as int) + (j as int - j1 as int) * (
                    s0 as int) + (i as int) + (s2 as int - 1) * ((szq as int) * (s0 as int)) < (
                    s0 as int) * ((n1 as int) * (s2 as int)) && 0 <= (s0 as int) * (s2 as int) * (
                    j1 as int) + (j as int - j1 as int) * (s0 as int) && (i as int) * ((n1 as int)
                        * (s2 as int)) + (j as int) * (s2 as int) + (s2 as int) <= (s0 as int) * ((
                    n1 as int) * (s2 as int)) && (s0 as int) * (s2 as int) <= (s0 as int) * ((
                    n1 as int) * (s2 as int)) && (s0 as int) * (s2 as int) * (j1 as int) <= (
                    s0 as int) * ((n1 as int) * (s2 as int)) && 0 <= (j as int - j1 as int) * (
                    s0 as int) && (n1 as int) * (s2 as int) <= (s0 as int) * ((n1 as int) * (
                    s2 as int)) && 1 <= (szq as int) * (s0 as int)) by (nonlinear_arith)
                        requires
                            j1 as int <= j as int <= j2e as int,
                            j2e as int == j1 as int + szq as int - 1,
                            (j2e as int) < (n1 as int),
                            0 <= j1 as int,
                            0 <= i as int,
                            (i as int) < (s0 as int),
                            1 <= szq as int,
                            1 <= s0 as int,
                            1 <= s2 as int,
                            1 <= n1 as int,
                    ;
                }
                let src = s0 * s2 * j1 + (j - j1) * s0 + i;
                let dst = i * (n1 * s2) + j * s2;
                let ghost prev = data@;
                copy_strided(buf, src, stride, data, dst, s2);
                proof {
                    lemma_merge_zy_row(
                        z,
                        y,
                        buf@,
                        prev,
                        data@,
                        q as int,
                        j as int,
                        i as int,
                        src as int,
                        dst as int,
                    );
                }
                i = i + 1;
            }
            j = j + 1;
        }
        q += 1;
    }
}

/// Prepare the send buffer of a transpose from the x-pencil to the
/// y-pencil: row-major order already groups the elements bound for the
/// same peer.
pub fn split_xy<T: Copy>(data: &Vec<T>, x_pencil: &Pencil, y_pencil: &Pencil) -> (buf: Vec<T>)
    requires
        xy3_tables(*x_pencil, *y_pencil),
        data@.len() == x_pencil.spec_len(),
    ensures
        buf@ == data@,
{
    crate::decomp2::copy_flat(data)
}

/// Prepare the send buffer of a transpose from the y-pencil to the
/// x-pencil: the local array is read with axes 0 and 1 swapped.
pub fn split_yx<T: Copy>(data: &Vec<T>, y_pencil: &Pencil, x_pencil: &Pencil) -> (buf: Vec<T>)
    requires
        xy3_tables(*x_pencil, *y_pencil),
        data@.len() == y_pencil.spec_len(),
    ensures
        buf@.len() == y_pencil.spec_len(),
        forall|i: int, j: int, k: int|
            0 <= i < y_pencil.spec_size(0) && 0 <= j < y_pencil.spec_size(1) && 0 <= k
                < y_pencil.spec_size(2) ==> #[trigger] buf@[j * (y_pencil.spec_size(0)
                * y_pencil.spec_size(2)) + i * y_pencil.spec_size(2) + k] == data@[i * (
            y_pencil.spec_size(1) * y_pencil.spec_size(2)) + j * y_pencil.spec_size(2) + k],
{
    proof {
        lemma_len3(*y_pencil);
        lemma_pencil_dist_wf(*y_pencil, 0);
        lemma_pencil_dist_wf(*y_pencil, 1);
        lemma_pencil_dist_wf(*y_pencil, 2);
    }
    transpose_copy_3d_01(data, y_pencil.dists[0].sz, y_pencil.dists[1].sz, y_pencil.dists[2].sz)
}

/// Prepare the send buffer of a transpose from the y-pencil to the
/// z-pencil: the local array is read with axes 0 and 1 swapped.
pub fn split_yz<T: Copy>(data: &Vec<T>, y_pencil: &Pencil, z_pencil: &Pencil) -> (buf: Vec<T>)
    requires
        yz3_tables(*y_pencil, *z_pencil),
        data@.len() == y_pencil.spec_len(),
    ensures
        buf@.len() == y_pencil.spec_len(),
        forall|i: int, j: int, k: int|
            0 <= i < y_pencil.spec_size(0) && 0 <= j < y_pencil.spec_size(1) && 0 <= k
                < y_pencil.spec_size(2) ==> #[trigger] buf@[j * (y_pencil.spec_size(0)
                * y_pencil.spec_size(2)) + i * y_pencil.spec_size(2) + k] == data@[i * (
            y_pencil.spec_size(1) * y_pencil.spec_size(2)) + j * y_pencil.spec_size(2) + k],
{
    proof {
        lemma_len3(*y_pencil);
        lemma_pencil_dist_wf(*y_pencil, 0);
        lemma_pencil_dist_wf(*y_pencil, 1);
        lemma_pencil_dist_wf(*y_pencil, 2);
    }
    transpose_copy_3d_01(data, y_pencil.dists[0].sz, y_pencil.dists[1].sz, y_pencil.dists[2].sz)
}

/// Prepare the send buffer of a transpose from the z-pencil to the
/// y-pencil: the local array is read with axes 0 and 2 swapped.
pub fn split_zy<T: Copy>(data: &Vec<T>, z_pencil: &Pencil, y_pencil: &Pencil) -> (buf: Vec<T>)
    requires
        yz3_tables(*y_pencil, *z_pencil),
        data@.len() == z_pencil.spec_len(),
    ensures
        buf@.len() == z_pencil.spec_len(),
        forall|i: int, j: int, k: int|
            0 <= i < z_pencil.spec_size(0) && 0 <= j < z_pencil.spec_size(1) && 0 <= k
                < z_pencil.spec_size(2) ==> #[trigger] buf@[k * (z_pencil.spec_size(1)
                * z_pencil.spec_size(0)) + j * z_pencil.spec_size(0) + i] == data@[i * (
            z_pencil.spec_size(1) * z_pencil.spec_size(2)) + j * z_pencil.spec_size(2) + k],
{
    proof {
        lemma_len3(*z_pencil);
        lemma_pencil_dist_wf(*z_pencil, 0);
        lemma_pencil_dist_wf(*z_pencil, 1);
        lemma_pencil_dist_wf(*z_pencil, 2);
    }
    transpose_copy_3d_02(data, z_pencil.dists[0].sz, z_pencil.dists[1].sz, z_pencil.dists[2].sz)
}

impl Decomp3 {
    /// Pack half of `transpose_x_to_y`.
    pub fn transpose_x_to_y_pack<T: Copy>(&self, snd: &Vec<T>) -> (buf: Vec<T>)
        requires
            self.wf(),
            snd@.len() == self.x_pencil.spec_len(),
        ensures
            buf@ == snd@,
    {
        split_xy(snd, &self.x_pencil, &self.y_pencil)
    }

    /// Unpack half of `transpose_x_to_y`.
    pub fn transpose_x_to_y_unpack<T: Copy>(&self, buf: &Vec<T>, rcv: &mut Vec<T>)
        requires
            self.wf(),
            buf@.len() == self.y_pencil.spec_len(),
            old(rcv)@.len() == self.y_pencil.spec_len(),
        ensures
            final(rcv)@.len() == self.y_pencil.spec_len(),
            forall|q: int, i: int, j: int, k: int|
                #[trigger] xy_slot(self.x_pencil, self.y_pencil, q, i, j, k) ==> final(rcv)@[i * (
                self.y_pencil.spec_size(1) * self.y_pencil.spec_size(2)) + j
                    * self.y_pencil.spec_size(2) + k] == buf@[xy_src(
                    self.x_pencil,
                    self.y_pencil,
                    q,
                    i,
                    j,
                    k,
                )],
    {
        merge_xy(buf, rcv, &self.x_pencil, &self.y_pencil)
    }

    /// Pack half of `transpose_y_to_x`.
    pub fn transpose_y_to_x_pack<T: Copy>(&self, snd: &Vec<T>) -> (buf: Vec<T>)
        requires
            self.wf(),
            snd@.len() == self.y_pencil.spec_len(),
        ensures
            buf@.len() == self.y_pencil.spec_len(),
            forall|i: int, j: int, k: int|
                0 <= i < self.y_pencil.spec_size(0) && 0 <= j < self.y_pencil.spec_size(1) && 0
                    <= k < self.y_pencil.spec_size(2) ==> #[trigger] buf@[j * (
                self.y_pencil.spec_size(0) * self.y_pencil.spec_size(2)) + i
                    * self.y_pencil.spec_size(2) + k] == snd@[i * (self.y_pencil.spec_size(1)
                    * self.y_pencil.spec_size(2)) + j * self.y_pencil.spec_size(2) + k],
    {
        split_yx(snd, &self.y_pencil, &self.x_pencil)
    }

    /// Unpack half of `transpose_y_to_x`.
    pub fn transpose_y_to_x_unpack<T: Copy>(&self, buf: &Vec<T>, rcv: &mut Vec<T>)
        requires
            self.wf(),
            buf@.len() == self.x_pencil.spec_len(),
            old(rcv)@.len() == self.x_pencil.spec_len(),
        ensures
            final(rcv)@.len() == self.x_pencil.spec_len(),
            forall|q: int, j: int, i: int, k: int|
                #[trigger] yx_slot(self.y_pencil, self.x_pencil, q, j, i, k) ==> final(rcv)@[i * (
                self.x_pencil.spec_size(1) * self.x_pencil.spec_size(2)) + j
                    * self.x_pencil.spec_size(2) + k] == buf@[yx_src(
                    self.y_pencil,
                    self.x_pencil,
                    q,
                    j,
                    i,
                    k,
                )],
    {
        merge_yx(buf, rcv, &self.y_pencil, &self.x_pencil)
    }

    /// Pack half of `transpose_y_to_z`.
    pub fn transpose_y_to_z_pack<T: Copy>(&self, snd: &Vec<T>) -> (buf: Vec<T>)
        requires
            self.wf(),
            snd@.len() == self.y_pencil.spec_len(),
        ensures
            buf@.len() == self.y_pencil.spec_len(),
            forall|i: int, j: int, k: int|
                0 <= i < self.y_pencil.spec_size(0) && 0 <= j < self.y_pencil.spec_size(1) && 0
                    <= k < self.y_pencil.spec_size(2) ==> #[trigger] buf@[j * (
                self.y_pencil.spec_size(0) * self.y_pencil.spec_size(2)) + i
                    * self.y_pencil.spec_size(2) + k] == snd@[i * (self.y_pencil.spec_size(1)
                    * self.y_pencil.spec_size(2)) + j * self.y_pencil.spec_size(2) + k],
    {
        split_yz(snd, &self.y_pencil, &self.z_pencil)
    }

    /// Unpack half of `transpose_y_to_z`.
    pub fn transpose_y_to_z_unpack<T: Copy>(&self, buf: &Vec<T>, rcv: &mut Vec<T>)
        requires
            self.wf(),
            buf@.len() == self.z_pencil.spec_len(),
            old(rcv)@.len() == self.z_pencil.spec_len(),
        ensures
            final(rcv)@.len() == self.z_pencil.spec_len(),
            forall|q: int, j: int, i: int, k: int|
                #[trigger] yz_slot(self.y_pencil, self.z_pencil, q, j, i, k) ==> final(rcv)@[i * (
                self.z_pencil.spec_size(1) * self.z_pencil.spec_size(2)) + j
                    * self.z_pencil.spec_size(2) + k] == buf@[yz_src(
                    self.y_pencil,
                    self.z_pencil,
                    q,
                    j,
                    i,
                    k,
                )],
    {
        merge_yz(buf, rcv, &self.y_pencil, &self.z_pencil)
    }

    /// Pack half of `transpose_z_to_y`.
    pub fn transpose_z_to_y_pack<T: Copy>(&self, snd: &Vec<T>) -> (buf: Vec<T>)
        requires
            self.wf(),
            snd@.len() == self.z_pencil.spec_len(),
        ensures
            buf@.len() == self.z_pencil.spec_len(),
            forall|i: int, j: int, k: int|
                0 <= i < self.z_pencil.spec_size(0) && 0 <= j < self.z_pencil.spec_size(1) && 0
                    <= k < self.z_pencil.spec_size(2) ==> #[trigger] buf@[k * (
                self.z_pencil.spec_size(1) * self.z_pencil.spec_size(0)) + j
                    * self.z_pencil.spec_size(0) + i] == snd@[i * (self.z_pencil.spec_size(1)
                    * self.z_pencil.spec_size(2)) + j * self.z_pencil.spec_size(2) + k],
    {
        split_zy(snd, &self.z_pencil, &self.y_pencil)
    }

    /// Unpack half of `transpose_z_to_y`.
    pub fn transpose_z_to_y_unpack<T: Copy>(&self, buf: &Vec<T>, rcv: &mut Vec<T>)
        requires
            self.wf(),
            buf@.len() == self.y_pencil.spec_len(),
            old(rcv)@.len() == self.y_pencil.spec_len(),
        ensures
            final(rcv)@.len() == self.y_pencil.spec_len(),
            forall|q: int, k: int, j: int, i: int|
                #[trigger] zy_slot(self.z_pencil, self.y_pencil, q, k, j, i) ==> final(rcv)@[i * (
                self.y_pencil.spec_size(1) * self.y_pencil.spec_size(2)) + j
                    * self.y_pencil.spec_size(2) + k] == buf@[zy_src(
                    self.z_pencil,
                    self.y_pencil,
                    q,
                    k,
                    j,
                    i,
                )],
    {
        merge_zy(buf, rcv, &self.z_pencil, &self.y_pencil)
    }
}

} // verus!
