//! Pencil decomposition of a two-dimensional grid: an x-pencil (axis 0
//! contiguous) and a y-pencil (axis 1 contiguous) over the same grid and
//! process line, with the pack/unpack routines of the transpose and the
//! gather/scatter engine.
//!
//! Local arrays are flat row-major buffers: element `(i, j)` of a local
//! array with shape `[s0, s1]` lives at position `i * s1 + j`.  A transpose
//! is driven as pack, one variable-count collective exchange over the
//! sub-group (a capability of the surrounding runtime), then unpack; the
//! routines here perform the two local halves and their contracts say
//! exactly where every element lands.

use vstd::prelude::*;

use crate::distribution::lemma_table_disjoint;
use crate::math::lemma_index2_bounds;
use crate::math::lemma_index2_injective;
use crate::math::seq_prod;
use crate::pencil::Pencil;
use crate::pencil::copy_bools;
use crate::pencil::copy_usizes;
use crate::pencil::lemma_contig_size;
use crate::pencil::lemma_len2;
use crate::pencil::lemma_pencil_dist_wf;
use crate::pencil::lemma_table_row_bounds;
use crate::pencil::transpose_compatible;

verus! {

/// An x-pencil and a y-pencil over the same two-dimensional grid and the
/// same process line: axis 0 contiguous in the first, axis 1 in the second.
pub open spec fn xy_pair(x: Pencil, y: Pencil) -> bool {
    &&& x.wf()
    &&& y.wf()
    &&& x.ndim() == 2
    &&& y.ndim() == 2
    &&& x.axis_contig == 0
    &&& y.axis_contig == 1
    &&& x.n_global@ == y.n_global@
    &&& x.comm.dims@ == y.comm.dims@
    &&& x.comm.coords@ == y.comm.coords@
    &&& x.comm.periodic@ == y.comm.periodic@
}

/// A pencil pair admits the variable-count all-to-all transpose in both
/// directions.
pub proof fn lemma_xy_pair_compatible(x: Pencil, y: Pencil)
    requires
        xy_pair(x, y),
    ensures
        transpose_compatible(x, y),
        transpose_compatible(y, x),
{
    assert(y.dists@[0].is_for(y.n_global@[0] as int, y.comm.dims@[0] as int, y.comm.coords@[0] as int));
    assert(x.dists@[1].is_for(x.n_global@[1] as int, x.comm.dims@[0] as int, x.comm.coords@[0] as int));
}

/// Pencil decomposition of a two-dimensional grid.
pub struct Decomp2 {
    /// Global number of grid points along each axis.
    pub n_global: Vec<usize>,
    /// Pencil with axis 0 contiguous.
    pub x_pencil: Pencil,
    /// Pencil with axis 1 contiguous.
    pub y_pencil: Pencil,
}

impl Decomp2 {
    /// Well-formed decomposition: both pencils over this grid, contiguous
    /// on different axes.
    pub open spec fn wf(self) -> bool {
        &&& self.n_global@.len() == 2
        &&& xy_pair(self.x_pencil, self.y_pencil)
        &&& self.x_pencil.n_global@ == self.n_global@
    }

    /// Construct both pencils from the global shape and the Cartesian
    /// topology values reported by the communication layer.
    pub fn new(
        n_global: Vec<usize>,
        cart_dims: Vec<usize>,
        cart_coords: Vec<usize>,
        cart_periodic: Vec<bool>,
    ) -> (r: Decomp2)
        requires
            n_global@.len() == 2,
            cart_dims@.len() == 1,
            cart_coords@.len() == 1,
            cart_periodic@.len() == 1,
            1 <= cart_dims@[0],
            cart_coords@[0] < cart_dims@[0],
            forall|i: int| 0 <= i < 2 ==> 1 <= #[trigger] n_global@[i],
            cart_dims@[0] <= n_global@[0],
            cart_dims@[0] <= n_global@[1],
            seq_prod(n_global@) <= usize::MAX,
        ensures
            r.wf(),
            r.n_global@ == n_global@,
            r.x_pencil.comm.dims@ == cart_dims@,
            r.x_pencil.comm.coords@ == cart_coords@,
            r.x_pencil.comm.periodic@ == cart_periodic@,
            transpose_compatible(r.x_pencil, r.y_pencil),
            transpose_compatible(r.y_pencil, r.x_pencil),
    {
        let x_pencil = Pencil::new(
            copy_usizes(&n_global),
            0,
            copy_usizes(&cart_dims),
            copy_usizes(&cart_coords),
            copy_bools(&cart_periodic),
        );
        let y_pencil = Pencil::new(
            copy_usizes(&n_global),
            1,
            copy_usizes(&cart_dims),
            copy_usizes(&cart_coords),
            copy_bools(&cart_periodic),
        );
        let r = Decomp2 { n_global, x_pencil, y_pencil };
        proof {
            lemma_xy_pair_compatible(r.x_pencil, r.y_pencil);
        }
        r
    }

    /// Pack half of `transpose_x_to_y`: the send buffer handed to the
    /// collective exchange over the sub-group along axis 1.
    pub fn transpose_x_to_y_pack<T: Copy>(&self, snd: &Vec<T>) -> (buf: Vec<T>)
        requires
            self.wf(),
            snd@.len() == self.x_pencil.spec_len(),
        ensures
            buf@ == snd@,
    {
        split_xy(snd, &self.x_pencil, &self.y_pencil)
    }

    /// Unpack half of `transpose_x_to_y`: scatters the received buffer into
    /// the destination array in y-pencil layout.
    pub fn transpose_x_to_y_unpack<T: Copy>(&self, buf: &Vec<T>, rcv: &mut Vec<T>)
        requires
            self.wf(),
            buf@.len() == self.y_pencil.spec_len(),
            old(rcv)@.len() == self.y_pencil.spec_len(),
        ensures
            final(rcv)@.len() == self.y_pencil.spec_len(),
            forall|q: int, i: int, j: int|
                #[trigger] xy_slot(self.x_pencil, self.y_pencil, q, i, j) ==> final(rcv)@[i
                    * self.y_pencil.spec_size(1) + j] == buf@[xy_src(
                    self.x_pencil,
                    self.y_pencil,
                    q,
                    i,
                    j,
                )],
    {
        merge_xy(buf, rcv, &self.x_pencil, &self.y_pencil)
    }

    /// Pack half of `transpose_y_to_x`: the send buffer handed to the
    /// collective exchange over the sub-group along axis 0.
    pub fn transpose_y_to_x_pack<T: Copy>(&self, snd: &Vec<T>) -> (buf: Vec<T>)
        requires
            self.wf(),
            snd@.len() == self.y_pencil.spec_len(),
        ensures
            buf@.len() == self.y_pencil.spec_len(),
            forall|i: int, j: int|
                0 <= i < self.y_pencil.spec_size(0) && 0 <= j < self.y_pencil.spec_size(1)
                    ==> #[trigger] buf@[j * self.y_pencil.spec_size(0) + i] == snd@[i
                    * self.y_pencil.spec_size(1) + j],
    {
        split_yx(snd, &self.y_pencil, &self.x_pencil)
    }

    /// Unpack half of `transpose_y_to_x`: scatters the received buffer into
    /// the destination array in x-pencil layout.
    pub fn transpose_y_to_x_unpack<T: Copy>(&self, buf: &Vec<T>, rcv: &mut Vec<T>)
        requires
            self.wf(),
            buf@.len() == self.x_pencil.spec_len(),
            old(rcv)@.len() == self.x_pencil.spec_len(),
        ensures
            final(rcv)@.len() == self.x_pencil.spec_len(),
            forall|q: int, j: int, i: int|
                #[trigger] yx_slot(self.y_pencil, self.x_pencil, q, j, i) ==> final(rcv)@[i
                    * self.x_pencil.spec_size(1) + j] == buf@[yx_src(
                    self.y_pencil,
                    self.x_pencil,
                    q,
                    j,
                    i,
                )],
    {
        merge_yx(buf, rcv, &self.y_pencil, &self.x_pencil)
    }

    /// Pack half of `gather_x`: every process packs its local x-pencil
    /// array with the gathered axis (axis 1) slowest.
    pub fn gather_x_pack<T: Copy>(&self, snd: &Vec<T>) -> (buf: Vec<T>)
        requires
            self.wf(),
            snd@.len() == self.x_pencil.spec_len(),
        ensures
            buf@.len() == self.x_pencil.spec_len(),
            forall|i: int, j: int|
                0 <= i < self.x_pencil.spec_size(0) && 0 <= j < self.x_pencil.spec_size(1)
                    ==> #[trigger] buf@[j * self.x_pencil.spec_size(0) + i] == snd@[i
                    * self.x_pencil.spec_size(1) + j],
    {
        proof {
            lemma_len2(self.x_pencil);
            lemma_pencil_dist_wf(self.x_pencil, 0);
            lemma_pencil_dist_wf(self.x_pencil, 1);
        }
        split_gather_x(snd, self.x_pencil.dists[0].sz, self.x_pencil.dists[1].sz)
    }

    /// Unpack half of `gather_x`, on the root of the sub-group: the
    /// concatenated per-rank segments form the global array with its axes
    /// swapped, which is swapped back into row-major order.
    pub fn gather_x_unpack<T: Copy>(&self, buf: &Vec<T>, rcv: &mut Vec<T>)
        requires
            self.wf(),
            buf@.len() == self.x_pencil.spec_len_global(),
            old(rcv)@.len() == self.x_pencil.spec_len_global(),
        ensures
            final(rcv)@.len() == self.x_pencil.spec_len_global(),
            forall|i: int, j: int|
                0 <= i < self.n_global@[0] && 0 <= j < self.n_global@[1]
                    ==> #[trigger] final(rcv)@[i * self.n_global@[1] + j] == buf@[j
                    * self.n_global@[0] + i],
    {
        proof {
            lemma_global_len2(self.x_pencil);
        }
        merge_gather_x(buf, rcv, self.n_global[0], self.n_global[1])
    }

    /// Pack half of `scatter_x`, on the root of the sub-group: the global
    /// array is packed with the scattered axis (axis 1) slowest, so each
    /// rank's chunk is a contiguous segment.
    pub fn scatter_x_pack<T: Copy>(&self, snd: &Vec<T>) -> (buf: Vec<T>)
        requires
            self.wf(),
            snd@.len() == self.x_pencil.spec_len_global(),
        ensures
            buf@.len() == self.x_pencil.spec_len_global(),
            forall|i: int, j: int|
                0 <= i < self.n_global@[0] && 0 <= j < self.n_global@[1]
                    ==> #[trigger] buf@[j * self.n_global@[0] + i] == snd@[i * self.n_global@[1]
                    + j],
    {
        proof {
            lemma_global_len2(self.x_pencil);
        }
        split_gather_x(snd, self.n_global[0], self.n_global[1])
    }

    /// Unpack half of `scatter_x`: every process receives its chunk with
    /// the scattered axis slowest and swaps it back into x-pencil layout.
    pub fn scatter_x_unpack<T: Copy>(&self, buf: &Vec<T>, rcv: &mut Vec<T>)
        requires
            self.wf(),
            buf@.len() == self.x_pencil.spec_len(),
            old(rcv)@.len() == self.x_pencil.spec_len(),
        ensures
            final(rcv)@.len() == self.x_pencil.spec_len(),
            forall|i: int, j: int|
                0 <= i < self.x_pencil.spec_size(0) && 0 <= j < self.x_pencil.spec_size(1)
                    ==> #[trigger] final(rcv)@[i * self.x_pencil.spec_size(1) + j] == buf@[j
                    * self.x_pencil.spec_size(0) + i],
    {
        proof {
            lemma_len2(self.x_pencil);
            lemma_pencil_dist_wf(self.x_pencil, 0);
            lemma_pencil_dist_wf(self.x_pencil, 1);
        }
        merge_gather_x(buf, rcv, self.x_pencil.dists[0].sz, self.x_pencil.dists[1].sz)
    }

    /// Pack half of `gather_y`: the y-pencil's row-major order already has
    /// the gathered axis (axis 0) slowest.
    pub fn gather_y_pack<T: Copy>(&self, snd: &Vec<T>) -> (buf: Vec<T>)
        requires
            self.wf(),
            snd@.len() == self.y_pencil.spec_len(),
        ensures
            buf@ == snd@,
    {
        split_gather_y(snd)
    }

    /// Unpack half of `gather_y`, on the root of the sub-group: the
    /// concatenated per-rank segments already form the global array in
    /// row-major order.
    pub fn gather_y_unpack<T: Copy>(&self, buf: &Vec<T>, rcv: &mut Vec<T>)
        requires
            self.wf(),
            buf@.len() == self.y_pencil.spec_len_global(),
            old(rcv)@.len() == self.y_pencil.spec_len_global(),
        ensures
            final(rcv)@ == buf@,
    {
        merge_gather_y(buf, rcv)
    }

    /// Pack half of `scatter_y`, on the root of the sub-group: the global
    /// array in row-major order already has each rank's chunk contiguous.
    pub fn scatter_y_pack<T: Copy>(&self, snd: &Vec<T>) -> (buf: Vec<T>)
        requires
            self.wf(),
            snd@.len() == self.y_pencil.spec_len_global(),
        ensures
            buf@ == snd@,
    {
        split_gather_y(snd)
    }

    /// Unpack half of `scatter_y`: the received chunk is already in
    /// y-pencil layout.
    pub fn scatter_y_unpack<T: Copy>(&self, buf: &Vec<T>, rcv: &mut Vec<T>)
        requires
            self.wf(),
            buf@.len() == self.y_pencil.spec_len(),
            old(rcv)@.len() == self.y_pencil.spec_len(),
        ensures
            final(rcv)@ == buf@,
    {
        merge_gather_y(buf, rcv)
    }
}

/// The global length of a two-dimensional pencil is the product of the two
/// global axis lengths, and both are at least one.
pub proof fn lemma_global_len2(p: Pencil)
    requires
        p.wf(),
        p.ndim() == 2,
    ensures
        p.spec_len_global() == (p.n_global@[0] as int) * (p.n_global@[1] as int),
        1 <= p.n_global@[0],
        1 <= p.n_global@[1],
{
    let g = p.n_global@;
    let n0 = g[0];
    let n1 = g[1];
    assert(g.last() == n1);
    assert(g.drop_last() =~= seq![n0]);
    assert(seq![n0].drop_last() =~= Seq::<usize>::empty());
    assert(seq_prod(Seq::<usize>::empty()) == 1);
    assert(seq_prod(seq![n0]) == 1 * (n0 as int));
    assert(seq_prod(g) == seq_prod(seq![n0]) * n1);
}

/// Copy of a flat buffer.
pub(crate) fn copy_flat<T: Copy>(v: &Vec<T>) -> (r: Vec<T>)
    ensures
        r@ == v@,
{
    let mut r: Vec<T> = Vec::new();
    let mut i: usize = 0;
    while i < v.len()
        invariant
            i <= v@.len(),
            r@ == v@.take(i as int),
        decreases v@.len() - i,
    {
        r.push(v[i]);
        assert(r@ =~= v@.take(i as int + 1));
        i += 1;
    }
    proof {
        assert(r@ =~= v@);
    }
    r
}

/// Row-major copy of a two-dimensional buffer with its two axes swapped:
/// the result, read with shape `[s1, s0]`, holds element `(j, i)` of the
/// input at position `(i, j)`.
pub(crate) fn transpose_copy_2d<T: Copy>(data: &Vec<T>, s0: usize, s1: usize) -> (buf: Vec<T>)
    requires
        1 <= s0,
        1 <= s1,
        data@.len() == s0 as int * s1 as int,
    ensures
        buf@.len() == s0 as int * s1 as int,
        forall|i: int, j: int|
            0 <= i < s0 && 0 <= j < s1 ==> #[trigger] buf@[j * s0 + i] == data@[i * s1 + j],
{
    let total = data.len();
    assert(total as int == s0 as int * s1 as int);
    let mut buf: Vec<T> = Vec::new();
    let mut j: usize = 0;
    while j < s1
        invariant
            j <= s1,
            1 <= s0,
            1 <= s1,
            s0 as int * s1 as int <= usize::MAX,
            data@.len() == s0 as int * s1 as int,
            buf@.len() == j as int * s0 as int,
            forall|jj: int, ii: int|
                0 <= jj < j && 0 <= ii < s0 ==> #[trigger] buf@[jj * s0 + ii] == data@[ii * s1
                    + jj],
        decreases s1 - j,
    {
        let mut i: usize = 0;
        while i < s0
            invariant
                i <= s0,
                j < s1,
                1 <= s0,
                1 <= s1,
                s0 as int * s1 as int <= usize::MAX,
                data@.len() == s0 as int * s1 as int,
                buf@.len() == j as int * s0 as int + i as int,
                forall|jj: int, ii: int|
                    0 <= jj < j && 0 <= ii < s0 ==> #[trigger] buf@[jj * s0 + ii] == data@[ii * s1
                        + jj],
                forall|ii: int|
                    0 <= ii < i ==> #[trigger] buf@[j as int * s0 + ii] == data@[ii * s1 + j],
            decreases s0 - i,
        {
            proof {
                lemma_index2_bounds(s0 as int, s1 as int, i as int, j as int);
                lemma_index2_bounds(s1 as int, s0 as int, j as int, i as int);
            }
            let v = data[i * s1 + j];
            buf.push(v);
            proof {
                assert forall|jj: int, ii: int|
                    0 <= jj < j && 0 <= ii < s0 implies #[trigger] buf@[jj * s0 + ii] == data@[ii
                    * s1 + jj] by {
                    assert(0 <= jj * s0 + ii && jj * s0 + ii < j as int * s0
                        + i as int) by (nonlinear_arith)
                        requires
                            0 <= jj < j as int,
                            0 <= ii < s0 as int,
                            0 <= i as int,
                            1 <= s0,
                    ;
                }
            }
            i += 1;
        }
        proof {
            assert(j as int * s0 + s0 == (j as int + 1) * s0) by (nonlinear_arith);
        }
        j += 1;
    }
    proof {
        assert(s1 as int * s0 as int == s0 as int * s1 as int) by (nonlinear_arith);
    }
    buf
}

/// Prepare the send buffer of a transpose from the x-pencil to the
/// y-pencil.  The x-pencil's row-major order already groups the elements
/// bound for the same peer, so the pack is a plain copy.
pub fn split_xy<T: Copy>(data: &Vec<T>, x_pencil: &Pencil, y_pencil: &Pencil) -> (buf: Vec<T>)
    requires
        xy_pair(*x_pencil, *y_pencil),
        data@.len() == x_pencil.spec_len(),
    ensures
        buf@ == data@,
{
    copy_flat(data)
}

/// Prepare the send buffer of a transpose from the y-pencil to the
/// x-pencil: the local array is read with its two axes swapped so that
/// elements bound for the same peer become contiguous.
pub fn split_yx<T: Copy>(data: &Vec<T>, y_pencil: &Pencil, x_pencil: &Pencil) -> (buf: Vec<T>)
    requires
        xy_pair(*x_pencil, *y_pencil),
        data@.len() == y_pencil.spec_len(),
    ensures
        buf@.len() == y_pencil.spec_len(),
        forall|i: int, j: int|
            0 <= i < y_pencil.spec_size(0) && 0 <= j < y_pencil.spec_size(1)
                ==> #[trigger] buf@[j * y_pencil.spec_size(0) + i] == data@[i * y_pencil.spec_size(
                1,
            ) + j],
{
    proof {
        lemma_len2(*y_pencil);
        lemma_pencil_dist_wf(*y_pencil, 0);
        lemma_pencil_dist_wf(*y_pencil, 1);
    }
    transpose_copy_2d(data, y_pencil.dists[0].sz, y_pencil.dists[1].sz)
}

/// One destination slot of the unpack of a transpose from the x-pencil to
/// the y-pencil: peer `q` of the exchange line, local row `i`, global
/// column `j` inside peer `q`'s chunk of axis 1.
pub open spec fn xy_slot(x: Pencil, y: Pencil, q: int, i: int, j: int) -> bool {
    &&& 0 <= q < x.dists@[1].nprocs()
    &&& 0 <= i < y.spec_size(0)
    &&& x.dists@[1].st_procs@[q] <= j <= x.dists@[1].en_procs@[q]
}

/// Position inside the receive buffer that feeds slot `(q, i, j)`: the
/// segment of peer `q` starts at its displacement, and inside it the
/// elements are ordered by row, then by column within the peer's chunk.
pub open spec fn xy_src(x: Pencil, y: Pencil, q: int, i: int, j: int) -> int {
    y.spec_size(0) * x.dists@[1].st_procs@[q] + i * x.dists@[1].sz_procs@[q] + (j
        - x.dists@[1].st_procs@[q])
}

/// Distinct slots of the x-to-y unpack write distinct positions of the
/// destination array.
proof fn lemma_xy_slot_distinct(
    x: Pencil,
    y: Pencil,
    q: int,
    i: int,
    j: int,
    q2: int,
    i2: int,
    j2: int,
)
    requires
        xy_pair(x, y),
        xy_slot(x, y, q, i, j),
        xy_slot(x, y, q2, i2, j2),
        q != q2 || i != i2 || j != j2,
    ensures
        i * y.spec_size(1) + j != i2 * y.spec_size(1) + j2,
{
    let n1 = x.n_global@[1] as int;
    lemma_pencil_dist_wf(x, 1);
    lemma_table_row_bounds(x.dists@[1], n1, q);
    lemma_table_row_bounds(x.dists@[1], n1, q2);
    lemma_contig_size(y);
    if i == i2 && j == j2 {
        if q < q2 {
            lemma_table_disjoint(x.dists@[1], n1, q, q2);
        } else {
            lemma_table_disjoint(x.dists@[1], n1, q2, q);
        }
    } else {
        lemma_index2_injective(n1, i, j, i2, j2);
    }
}

/// Unpack the receive buffer of a transpose from the x-pencil to the
/// y-pencil into the destination array in y-pencil layout: the segment of
/// each peer lands in that peer's chunk of axis 1, crossed with all local
/// rows.
#[verifier::loop_isolation(false)]
#[verifier::rlimit(100)]
#[verifier::spinoff_prover]
pub fn merge_xy<T: Copy>(buf: &Vec<T>, data: &mut Vec<T>, x_pencil: &Pencil, y_pencil: &Pencil)
    requires
        xy_pair(*x_pencil, *y_pencil),
        buf@.len() == y_pencil.spec_len(),
        old(data)@.len() == y_pencil.spec_len(),
    ensures
        final(data)@.len() == y_pencil.spec_len(),
        forall|q: int, i: int, j: int|
            #[trigger] xy_slot(*x_pencil, *y_pencil, q, i, j) ==> final(data)@[i
                * y_pencil.spec_size(1) + j] == buf@[xy_src(*x_pencil, *y_pencil, q, i, j)],
{
    let ghost x = *x_pencil;
    let ghost y = *y_pencil;
    let ghost n1g = x.n_global@[1] as int;
    proof {
        lemma_len2(y);
        lemma_contig_size(y);
        lemma_pencil_dist_wf(x, 1);
        lemma_pencil_dist_wf(y, 0);
        crate::pencil::lemma_pencil_size_bounds(y);
    }
    let s0 = y_pencil.dists[0].sz;
    let n1 = y_pencil.dists[1].sz;
    let nprocs = x_pencil.nprocs_along_axis(1);
    proof {
        assert(x.dists@[1].nprocs() == nprocs as int);
    }
    let mut pos: usize = 0;
    let mut q: usize = 0;
    while q < nprocs
        invariant
            q <= nprocs,
            data@.len() == y.spec_len(),
            pos as int == s0 as int * (if (q as int) < x.dists@[1].nprocs() {
                x.dists@[1].st_procs@[q as int] as int
            } else {
                n1 as int
            }),
            forall|q2: int, i2: int, j2: int|
                #[trigger] xy_slot(x, y, q2, i2, j2) && q2 < q ==> data@[i2 * y.spec_size(1) + j2]
                    == buf@[xy_src(x, y, q2, i2, j2)],
        decreases nprocs - q,
    {
        proof {
            lemma_table_row_bounds(x.dists@[1], n1g, q as int);
        }
        let j1 = x_pencil.dists[1].st_procs[q];
        let j2 = x_pencil.dists[1].en_procs[q];
        let szq = x_pencil.dists[1].sz_procs[q];
        let mut i: usize = 0;
        while i < s0
            invariant
                i <= s0,
                data@.len() == y.spec_len(),
                pos as int == s0 as int * j1 as int + i as int * szq as int,
                forall|q2: int, i2: int, j2v: int|
                    #[trigger] xy_slot(x, y, q2, i2, j2v) && q2 < q ==> data@[i2 * y.spec_size(1)
                        + j2v] == buf@[xy_src(x, y, q2, i2, j2v)],
                forall|i2: int, j2v: int|
                    #[trigger] xy_slot(x, y, q as int, i2, j2v) && i2 < i ==> data@[i2
                        * y.spec_size(1) + j2v] == buf@[xy_src(x, y, q as int, i2, j2v)],
            decreases s0 - i,
        {
            let mut j: usize = j1;
            while j <= j2
                invariant
                    j1 <= j <= j2 + 1,
                    data@.len() == y.spec_len(),
                    pos as int == s0 as int * j1 as int + i as int * szq as int + (j as int
                        - j1 as int),
                    forall|q2: int, i2: int, j2v: int|
                        #[trigger] xy_slot(x, y, q2, i2, j2v) && q2 < q ==> data@[i2 * y.spec_size(
                            1,
                        ) + j2v] == buf@[xy_src(x, y, q2, i2, j2v)],
                    forall|i2: int, j2v: int|
                        #[trigger] xy_slot(x, y, q as int, i2, j2v) && i2 < i ==> data@[i2
                            * y.spec_size(1) + j2v] == buf@[xy_src(x, y, q as int, i2, j2v)],
                    forall|j2v: int|
                        #[trigger] xy_slot(x, y, q as int, i as int, j2v) && j2v < j ==> data@[
                        i as int * y.spec_size(1) + j2v] == buf@[xy_src(x, y, q as int, i as int, j2v)],
                decreases j2 + 1 - j,
            {
                proof {
                    lemma_index2_bounds(s0 as int, n1 as int, i as int, j as int);
                    assert((pos as int) < (s0 as int) * (n1 as int)) by (nonlinear_arith)
                        requires
                            pos as int == (s0 as int) * (j1 as int) + (i as int) * (szq as int) + (
                            j as int - j1 as int),
                            0 <= i as int,
                            (i as int) < (s0 as int),
                            j1 as int <= j as int <= j2 as int,
                            j2 as int == j1 as int + szq as int - 1,
                            (j2 as int) < (n1 as int),
                            1 <= szq as int,
                    ;
                }
                let ghost prev = data@;
                let src = buf[pos];
                let dst = i * n1 + j;
                data[dst] = src;
                proof {
                    assert(xy_src(x, y, q as int, i as int, j as int) == pos as int);
                    assert(xy_slot(x, y, q as int, i as int, j as int));
                    assert forall|q2: int, i2: int, j2v: int|
                        #[trigger] xy_slot(x, y, q2, i2, j2v) && (q2 < q || (q2 == q && i2 < i) || (
                        q2 == q && i2 == i && j2v < j)) implies data@[i2 * y.spec_size(1) + j2v]
                        == buf@[xy_src(x, y, q2, i2, j2v)] by {
                        lemma_xy_slot_distinct(x, y, q2, i2, j2v, q as int, i as int, j as int);
                        lemma_table_row_bounds(x.dists@[1], n1g, q2);
                        lemma_index2_bounds(s0 as int, n1 as int, i2, j2v);
                        assert(data@[i2 * y.spec_size(1) + j2v] == prev[i2 * y.spec_size(1) + j2v]);
                    }
                }
                pos = pos + 1;
                j = j + 1;
            }
            proof {
                assert(s0 as int * j1 as int + i as int * szq as int + szq as int == s0 as int
                    * j1 as int + (i as int + 1) * szq as int) by (nonlinear_arith);
                assert forall|j2v: int|
                    #[trigger] xy_slot(x, y, q as int, i as int, j2v) implies data@[i as int
                    * y.spec_size(1) + j2v] == buf@[xy_src(x, y, q as int, i as int, j2v)] by {
                }
            }
            i += 1;
        }
        proof {
            assert(s0 as int * j1 as int + s0 as int * szq as int == s0 as int * (j1 as int
                + szq as int)) by (nonlinear_arith);
            if (q as int + 1) < x.dists@[1].nprocs() {
                assert(x.dists@[1].st_procs@[q as int + 1] == x.dists@[1].en_procs@[q as int] + 1);
            } else {
                assert(x.dists@[1].en_procs@[q as int] == n1g - 1);
            }
        }
        q += 1;
    }
}

/// One destination slot of the unpack of a transpose from the y-pencil to
/// the x-pencil: peer `q` of the exchange line, global row `i` inside peer
/// `q`'s chunk of axis 0, local column `j`.
pub open spec fn yx_slot(y: Pencil, x: Pencil, q: int, j: int, i: int) -> bool {
    &&& 0 <= q < y.dists@[0].nprocs()
    &&& 0 <= j < x.spec_size(1)
    &&& y.dists@[0].st_procs@[q] <= i <= y.dists@[0].en_procs@[q]
}

/// Position inside the receive buffer that feeds slot `(q, j, i)` of the
/// y-to-x unpack: the segment of peer `q` starts at its displacement, and
/// inside it the elements are ordered by column, then by row within the
/// peer's chunk.
pub open spec fn yx_src(y: Pencil, x: Pencil, q: int, j: int, i: int) -> int {
    x.spec_size(1) * y.dists@[0].st_procs@[q] + j * y.dists@[0].sz_procs@[q] + (i
        - y.dists@[0].st_procs@[q])
}

/// Distinct slots of the y-to-x unpack write distinct positions of the
/// destination array.
proof fn lemma_yx_slot_distinct(
    y: Pencil,
    x: Pencil,
    q: int,
    j: int,
    i: int,
    q2: int,
    j2: int,
    i2: int,
)
    requires
        xy_pair(x, y),
        yx_slot(y, x, q, j, i),
        yx_slot(y, x, q2, j2, i2),
        q != q2 || j != j2 || i != i2,
    ensures
        i * x.spec_size(1) + j != i2 * x.spec_size(1) + j2,
{
    let n0 = y.n_global@[0] as int;
    lemma_pencil_dist_wf(y, 0);
    lemma_table_row_bounds(y.dists@[0], n0, q);
    lemma_table_row_bounds(y.dists@[0], n0, q2);
    if i == i2 && j == j2 {
        if q < q2 {
            lemma_table_disjoint(y.dists@[0], n0, q, q2);
        } else {
            lemma_table_disjoint(y.dists@[0], n0, q2, q);
        }
    } else {
        lemma_index2_injective(x.spec_size(1), i, j, i2, j2);
    }
}

/// Unpack the receive buffer of a transpose from the y-pencil to the
/// x-pencil into the destination array in x-pencil layout: the segment of
/// each peer lands in that peer's chunk of axis 0, crossed with all local
/// columns.
#[verifier::loop_isolation(false)]
#[verifier::rlimit(100)]
#[verifier::spinoff_prover]
pub fn merge_yx<T: Copy>(buf: &Vec<T>, data: &mut Vec<T>, y_pencil: &Pencil, x_pencil: &Pencil)
    requires
        xy_pair(*x_pencil, *y_pencil),
        buf@.len() == x_pencil.spec_len(),
        old(data)@.len() == x_pencil.spec_len(),
    ensures
        final(data)@.len() == x_pencil.spec_len(),
        forall|q: int, j: int, i: int|
            #[trigger] yx_slot(*y_pencil, *x_pencil, q, j, i) ==> final(data)@[i
                * x_pencil.spec_size(1) + j] == buf@[yx_src(*y_pencil, *x_pencil, q, j, i)],
{
    let ghost x = *x_pencil;
    let ghost y = *y_pencil;
    let ghost n0g = y.n_global@[0] as int;
    proof {
        lemma_len2(x);
        lemma_contig_size(x);
        lemma_pencil_dist_wf(y, 0);
        lemma_pencil_dist_wf(x, 1);
        crate::pencil::lemma_pencil_size_bounds(x);
    }
    let n0 = x_pencil.dists[0].sz;
    let s1 = x_pencil.dists[1].sz;
    let nprocs = y_pencil.nprocs_along_axis(0);
    proof {
        assert(y.dists@[0].nprocs() == nprocs as int);
    }
    let mut pos: usize = 0;
    let mut q: usize = 0;
    while q < nprocs
        invariant
            q <= nprocs,
            data@.len() == x.spec_len(),
            pos as int == (s1 as int) * (if (q as int) < y.dists@[0].nprocs() {
                y.dists@[0].st_procs@[q as int] as int
            } else {
                n0 as int
            }),
            forall|q2: int, j2: int, i2: int|
                #[trigger] yx_slot(y, x, q2, j2, i2) && q2 < q ==> data@[i2 * x.spec_size(1) + j2]
                    == buf@[yx_src(y, x, q2, j2, i2)],
        decreases nprocs - q,
    {
        proof {
            lemma_table_row_bounds(y.dists@[0], n0g, q as int);
        }
        let i1 = y_pencil.dists[0].st_procs[q];
        let i2e = y_pencil.dists[0].en_procs[q];
        let szq = y_pencil.dists[0].sz_procs[q];
        let mut j: usize = 0;
        while j < s1
            invariant
                j <= s1,
                data@.len() == x.spec_len(),
                pos as int == (s1 as int) * (i1 as int) + (j as int) * (szq as int),
                forall|q2: int, j2v: int, i2: int|
                    #[trigger] yx_slot(y, x, q2, j2v, i2) && q2 < q ==> data@[i2 * x.spec_size(1)
                        + j2v] == buf@[yx_src(y, x, q2, j2v, i2)],
                forall|j2v: int, i2: int|
                    #[trigger] yx_slot(y, x, q as int, j2v, i2) && j2v < j ==> data@[i2
                        * x.spec_size(1) + j2v] == buf@[yx_src(y, x, q as int, j2v, i2)],
            decreases s1 - j,
        {
            let mut i: usize = i1;
            while i <= i2e
                invariant
                    i1 <= i <= i2e + 1,
                    data@.len() == x.spec_len(),
                    pos as int == (s1 as int) * (i1 as int) + (j as int) * (szq as int) + (i as int
                        - i1 as int),
                    forall|q2: int, j2v: int, iv: int|
                        #[trigger] yx_slot(y, x, q2, j2v, iv) && q2 < q ==> data@[iv * x.spec_size(
                            1,
                        ) + j2v] == buf@[yx_src(y, x, q2, j2v, iv)],
                    forall|j2v: int, iv: int|
                        #[trigger] yx_slot(y, x, q as int, j2v, iv) && j2v < j ==> data@[iv
                            * x.spec_size(1) + j2v] == buf@[yx_src(y, x, q as int, j2v, iv)],
                    forall|iv: int|
                        #[trigger] yx_slot(y, x, q as int, j as int, iv) && iv < i ==> data@[iv
                            * x.spec_size(1) + j as int] == buf@[yx_src(y, x, q as int, j as int, iv)],
                decreases i2e + 1 - i,
            {
                proof {
                    lemma_index2_bounds(n0 as int, s1 as int, i as int, j as int);
                    assert((pos as int) < (n0 as int) * (s1 as int)) by (nonlinear_arith)
                        requires
                            pos as int == (s1 as int) * (i1 as int) + (j as int) * (szq as int) + (
                            i as int - i1 as int),
                            0 <= j as int,
                            (j as int) < (s1 as int),
                            i1 as int <= i as int <= i2e as int,
                            i2e as int == i1 as int + szq as int - 1,
                            (i2e as int) < (n0 as int),
                            1 <= szq as int,
                    ;
                }
                let ghost prev = data@;
                let src = buf[pos];
                let dst = i * s1 + j;
                data[dst] = src;
                proof {
                    assert(yx_src(y, x, q as int, j as int, i as int) == pos as int);
                    assert(yx_slot(y, x, q as int, j as int, i as int));
                    assert forall|q2: int, j2v: int, iv: int|
                        #[trigger] yx_slot(y, x, q2, j2v, iv) && (q2 < q || (q2 == q && j2v < j)
                            || (q2 == q && j2v == j && iv < i)) implies data@[iv * x.spec_size(1)
                        + j2v] == buf@[yx_src(y, x, q2, j2v, iv)] by {
                        lemma_yx_slot_distinct(y, x, q2, j2v, iv, q as int, j as int, i as int);
                        lemma_table_row_bounds(y.dists@[0], n0g, q2);
                        lemma_index2_bounds(n0 as int, s1 as int, iv, j2v);
                        assert(data@[iv * x.spec_size(1) + j2v] == prev[iv * x.spec_size(1) + j2v]);
                    }
                }
                pos = pos + 1;
                i = i + 1;
            }
            proof {
                assert((s1 as int) * (i1 as int) + (j as int) * (szq as int) + (szq as int) == (
                s1 as int) * (i1 as int) + (j as int + 1) * (szq as int)) by (nonlinear_arith);
            }
            j += 1;
        }
        proof {
            assert((s1 as int) * (i1 as int) + (s1 as int) * (szq as int) == (s1 as int) * (
            i1 as int + szq as int)) by (nonlinear_arith);
            if (q as int + 1) < y.dists@[0].nprocs() {
                assert(y.dists@[0].st_procs@[q as int + 1] == y.dists@[0].en_procs@[q as int] + 1);
            } else {
                assert(y.dists@[0].en_procs@[q as int] == n0g - 1);
            }
        }
        q += 1;
    }
}

/// Pack a local x-pencil array for a gather along axis 1: the array is
/// read with its axes swapped so the gathered axis varies slowest.
pub fn split_gather_x<T: Copy>(data: &Vec<T>, s0: usize, s1: usize) -> (buf: Vec<T>)
    requires
        1 <= s0,
        1 <= s1,
        data@.len() == (s0 as int) * (s1 as int),
    ensures
        buf@.len() == (s0 as int) * (s1 as int),
        forall|i: int, j: int|
            0 <= i < s0 && 0 <= j < s1 ==> #[trigger] buf@[j * s0 + i] == data@[i * s1 + j],
{
    transpose_copy_2d(data, s0, s1)
}

/// Pack a local y-pencil array for a gather along axis 0: row-major order
/// already has the gathered axis slowest, so the pack is a plain copy.
pub fn split_gather_y<T: Copy>(data: &Vec<T>) -> (buf: Vec<T>)
    ensures
        buf@ == data@,
{
    copy_flat(data)
}

/// Unpack a gathered buffer whose axes are swapped back into row-major
/// order: the destination, with shape `[s0, s1]`, takes element `(i, j)`
/// from position `(j, i)` of the buffer.
pub fn merge_gather_x<T: Copy>(buf: &Vec<T>, data: &mut Vec<T>, s0: usize, s1: usize)
    requires
        1 <= s0,
        1 <= s1,
        buf@.len() == (s0 as int) * (s1 as int),
        old(data)@.len() == (s0 as int) * (s1 as int),
    ensures
        final(data)@.len() == (s0 as int) * (s1 as int),
        forall|i: int, j: int|
            0 <= i < s0 && 0 <= j < s1 ==> #[trigger] final(data)@[i * s1 + j] == buf@[j * s0 + i],
{
    proof {
        assert((s1 as int) * (s0 as int) == (s0 as int) * (s1 as int)) by (nonlinear_arith);
    }
    let t = transpose_copy_2d(buf, s1, s0);
    *data = t;
}

/// Unpack a gathered buffer that is already in row-major order: a plain
/// copy into the destination.
pub fn merge_gather_y<T: Copy>(buf: &Vec<T>, data: &mut Vec<T>)
    requires
        old(data)@.len() == buf@.len(),
    ensures
        final(data)@ == buf@,
{
    let t = copy_flat(buf);
    *data = t;
}

} // verus!
