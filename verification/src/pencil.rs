//! Pencil-distributed data: one contiguous axis per process, all other axes
//! split over a Cartesian process grid.
//!
//! The communication layer (topology creation, coordinate queries, the
//! collective exchange itself) is a capability of the surrounding runtime;
//! a `Pencil` here is built from the plain values that layer reports — the
//! process-grid dimensions and this process's coordinates — and provides
//! every local computation: per-axis distributions, shapes and lengths,
//! sub-group selection, and the count/displacement tables that drive a
//! variable-count collective exchange.

use vstd::prelude::*;

use crate::distribution::Distribution;
use crate::distribution::lemma_table_sum;
use crate::math::lemma_seq_prod_le;
use crate::math::lemma_seq_prod_nonneg;
use crate::math::lemma_seq_prod_pos;
use crate::math::lemma_seq_prod_take_all;
use crate::math::lemma_seq_prod_take_le;
use crate::math::lemma_seq_prod_take_succ;
use crate::math::lemma_seq_prod_update;
use crate::math::lemma_seq_sum_take_all;
use crate::math::lemma_seq_sum_take_le;
use crate::math::lemma_seq_sum_take_succ;
use crate::math::lemma_seq_update_self;
use crate::math::seq_prod;
use crate::math::seq_sum;

verus! {

/// Process-grid dimension that a grid axis is mapped to when the axes are
/// assigned to process-grid dimensions in order, skipping the contiguous
/// axis.
pub open spec fn cart_dim_of(axis_contig: int, axis: int) -> int {
    if axis < axis_contig {
        axis
    } else {
        axis - 1
    }
}

/// Cartesian process topology as this process sees it: the process counts
/// per dimension, this process's coordinates, and the periodicity flags.
pub struct CartComm {
    /// Number of processes along each process-grid dimension.
    pub dims: Vec<usize>,
    /// This process's coordinate along each process-grid dimension.
    pub coords: Vec<usize>,
    /// Whether each process-grid dimension is periodic.
    pub periodic: Vec<bool>,
}

/// Pencil distribution of an `M`-dimensional grid over an
/// `(M-1)`-dimensional Cartesian process grid.
pub struct Pencil {
    /// Global number of grid points along each axis.
    pub n_global: Vec<usize>,
    /// Cartesian topology of the process grid.
    pub comm: CartComm,
    /// Grid point distribution along each axis.
    pub dists: Vec<Distribution>,
    /// The one axis kept whole on every process.
    pub axis_contig: usize,
}

/// The one-dimensional sub-group of the process grid that varies only along
/// the dimension splitting one grid axis, with all other coordinates held
/// fixed: exactly the processes that must take part in a collective touching
/// that axis.
pub struct Subgroup {
    /// For each process-grid dimension, whether it is retained (varies)
    /// inside the sub-group.
    pub retain: Vec<bool>,
    /// Number of processes in the sub-group.
    pub size: usize,
    /// This process's rank within the sub-group.
    pub rank: usize,
}

impl Pencil {
    /// Grid dimensionality.
    pub open spec fn ndim(self) -> int {
        self.n_global@.len() as int
    }

    /// Process-grid dimension splitting grid axis `axis`.
    pub open spec fn spec_cart_dim_of(self, axis: int) -> int {
        cart_dim_of(self.axis_contig as int, axis)
    }

    /// Number of processes splitting grid axis `axis`.
    pub open spec fn spec_nprocs_along_axis(self, axis: int) -> int {
        self.comm.dims@[self.spec_cart_dim_of(axis)] as int
    }

    /// Local size along axis `i`.
    pub open spec fn spec_size(self, i: int) -> int {
        self.dists@[i].sz as int
    }

    /// Local shape: this process's size along every axis.
    pub open spec fn spec_shape(self) -> Seq<usize> {
        Seq::new(self.n_global@.len(), |i: int| self.dists@[i].sz)
    }

    /// Number of grid points held by this process.
    pub open spec fn spec_len(self) -> int {
        seq_prod(self.spec_shape())
    }

    /// Number of grid points of the whole grid.
    pub open spec fn spec_len_global(self) -> int {
        seq_prod(self.n_global@)
    }

    /// Well-formed pencil: exactly one contiguous axis; every other axis
    /// carries a balanced distribution over the process-grid dimension it
    /// maps to, seen from this process's coordinate; and the whole grid is
    /// addressable.
    pub open spec fn wf(self) -> bool {
        let m = self.ndim();
        &&& m >= 1
        &&& self.dists@.len() == m
        &&& (self.axis_contig as int) < m
        &&& self.comm.dims@.len() == m - 1
        &&& self.comm.coords@.len() == m - 1
        &&& self.comm.periodic@.len() == m - 1
        &&& forall|d: int| 0 <= d < m - 1 ==> 1 <= #[trigger] self.comm.dims@[d]
        &&& forall|d: int|
            0 <= d < m - 1 ==> #[trigger] self.comm.coords@[d] < self.comm.dims@[d]
        &&& forall|i: int| 0 <= i < m ==> 1 <= #[trigger] self.n_global@[i]
        &&& self.dists@[self.axis_contig as int].is_for(
            self.n_global@[self.axis_contig as int] as int,
            1,
            0,
        )
        &&& forall|i: int|
            0 <= i < m && i != self.axis_contig ==> (#[trigger] self.dists@[i]).is_for(
                self.n_global@[i] as int,
                self.comm.dims@[self.spec_cart_dim_of(i)] as int,
                self.comm.coords@[self.spec_cart_dim_of(i)] as int,
            )
        &&& forall|i: int|
            0 <= i < m && i != self.axis_contig ==> (#[trigger] self.dists@[i]).balanced(
                self.n_global@[i] as int,
            )
        &&& seq_prod(self.n_global@) <= usize::MAX
    }

    /// Construct a pencil distribution from the global shape, the contiguous
    /// axis, and the Cartesian topology values reported by the communication
    /// layer: process counts, this process's coordinates, and periodicity.
    pub fn new(
        n_global: Vec<usize>,
        axis_contig: usize,
        cart_dims: Vec<usize>,
        cart_coords: Vec<usize>,
        cart_periodic: Vec<bool>,
    ) -> (r: Pencil)
        requires
            n_global@.len() >= 1,
            (axis_contig as int) < n_global@.len(),
            cart_dims@.len() == n_global@.len() - 1,
            cart_coords@.len() == n_global@.len() - 1,
            cart_periodic@.len() == n_global@.len() - 1,
            forall|d: int| 0 <= d < cart_dims@.len() ==> 1 <= #[trigger] cart_dims@[d],
            forall|d: int|
                0 <= d < cart_dims@.len() ==> #[trigger] cart_coords@[d] < cart_dims@[d],
            forall|i: int| 0 <= i < n_global@.len() ==> 1 <= #[trigger] n_global@[i],
            forall|i: int|
                0 <= i < n_global@.len() && i != axis_contig ==> cart_dims@[cart_dim_of(
                    axis_contig as int,
                    i,
                )] <= #[trigger] n_global@[i],
            seq_prod(n_global@) <= usize::MAX,
        ensures
            r.wf(),
            r.n_global@ == n_global@,
            r.axis_contig == axis_contig,
            r.comm.dims@ == cart_dims@,
            r.comm.coords@ == cart_coords@,
            r.comm.periodic@ == cart_periodic@,
    {
        let m = n_global.len();
        let mut dists: Vec<Distribution> = Vec::new();
        let mut dim: usize = 0;
        let mut i: usize = 0;
        while i < m
            invariant
                i <= m,
                m == n_global@.len(),
                (axis_contig as int) < m,
                cart_dims@.len() == m - 1,
                cart_coords@.len() == m - 1,
                forall|d: int| 0 <= d < cart_dims@.len() ==> 1 <= #[trigger] cart_dims@[d],
                forall|d: int|
                    0 <= d < cart_dims@.len() ==> #[trigger] cart_coords@[d] < cart_dims@[d],
                forall|k: int| 0 <= k < m ==> 1 <= #[trigger] n_global@[k],
                forall|k: int|
                    0 <= k < m && k != axis_contig ==> cart_dims@[cart_dim_of(
                        axis_contig as int,
                        k,
                    )] <= #[trigger] n_global@[k],
                dists@.len() == i,
                dim as int == if i <= axis_contig {
                    i as int
                } else {
                    i as int - 1
                },
                i > axis_contig ==> dists@[axis_contig as int].is_for(
                    n_global@[axis_contig as int] as int,
                    1,
                    0,
                ),
                forall|k: int|
                    0 <= k < i && k != axis_contig ==> (#[trigger] dists@[k]).is_for(
                        n_global@[k] as int,
                        cart_dims@[cart_dim_of(axis_contig as int, k)] as int,
                        cart_coords@[cart_dim_of(axis_contig as int, k)] as int,
                    ),
                forall|k: int|
                    0 <= k < i && k != axis_contig ==> (#[trigger] dists@[k]).balanced(
                        n_global@[k] as int,
                    ),
            decreases m - i,
        {
            let n_dim = n_global[i];
            if i == axis_contig {
                dists.push(Distribution::contiguous(n_dim));
            } else {
                dists.push(Distribution::split(n_dim, cart_dims[dim], cart_coords[dim]));
                dim += 1;
            }
            i += 1;
        }
        Pencil {
            n_global,
            comm: CartComm { dims: cart_dims, coords: cart_coords, periodic: cart_periodic },
            dists,
            axis_contig,
        }
    }

    /// This process's coordinates in the Cartesian topology.
    pub fn cart_coords(&self) -> (r: Vec<usize>)
        ensures
            r@ == self.comm.coords@,
    {
        copy_usizes(&self.comm.coords)
    }

    /// Number of processes along each process-grid dimension.
    pub fn cart_dims(&self) -> (r: Vec<usize>)
        ensures
            r@ == self.comm.dims@,
    {
        copy_usizes(&self.comm.dims)
    }

    /// Periodicity of each process-grid dimension.
    pub fn cart_periodic(&self) -> (r: Vec<bool>)
        ensures
            r@ == self.comm.periodic@,
    {
        copy_bools(&self.comm.periodic)
    }

    /// Process-grid dimension that splits grid axis `dim`.
    pub fn map_dim_to_cart_dim(&self, dim: usize) -> (r: usize)
        requires
            self.wf(),
            (dim as int) < self.ndim(),
            dim != self.axis_contig,
        ensures
            r as int == self.spec_cart_dim_of(dim as int),
    {
        if dim < self.axis_contig {
            dim
        } else {
            dim - 1
        }
    }

    /// Number of processes splitting grid axis `axis`.
    pub fn nprocs_along_axis(&self, axis: usize) -> (r: usize)
        requires
            self.wf(),
            (axis as int) < self.ndim(),
            axis != self.axis_contig,
        ensures
            r as int == self.spec_nprocs_along_axis(axis as int),
            1 <= r,
    {
        let cart_dim = self.map_dim_to_cart_dim(axis);
        self.comm.dims[cart_dim]
    }

    /// The sub-group of processes that a collective along `axis` must span:
    /// only the process-grid dimension splitting `axis` is retained, every
    /// other coordinate is held fixed.
    pub fn subcomm_along_axis(&self, axis: usize) -> (r: Subgroup)
        requires
            self.wf(),
            (axis as int) < self.ndim(),
            axis != self.axis_contig,
        ensures
            r.retain@.len() == self.ndim() - 1,
            forall|d: int|
                0 <= d < self.ndim() - 1 ==> #[trigger] r.retain@[d] == (d
                    == self.spec_cart_dim_of(axis as int)),
            r.size as int == self.spec_nprocs_along_axis(axis as int),
            r.rank as int == self.comm.coords@[self.spec_cart_dim_of(axis as int)] as int,
            r.rank < r.size,
    {
        let cart_dim = self.map_dim_to_cart_dim(axis);
        let n = self.comm.dims.len();
        let mut retain: Vec<bool> = Vec::new();
        let mut d: usize = 0;
        while d < n
            invariant
                d <= n,
                cart_dim < n,
                retain@.len() == d,
                forall|k: int| 0 <= k < d ==> #[trigger] retain@[k] == (k == cart_dim as int),
            decreases n - d,
        {
            retain.push(d == cart_dim);
            d += 1;
        }
        Subgroup { retain, size: self.comm.dims[cart_dim], rank: self.comm.coords[cart_dim] }
    }

    /// Total number of grid points held by this process.
    pub fn len(&self) -> (r: usize)
        requires
            self.wf(),
        ensures
            r as int == self.spec_len(),
    {
        proof {
            lemma_pencil_size_bounds(*self);
        }
        let m = self.n_global.len();
        let mut acc: usize = 1;
        let mut i: usize = 0;
        while i < m
            invariant
                i <= m,
                self.wf(),
                m == self.n_global@.len(),
                acc as int == seq_prod(self.spec_shape().take(i as int)),
                acc as int <= seq_prod(self.n_global@.take(i as int)),
            decreases m - i,
        {
            proof {
                lemma_pencil_size_bounds(*self);
                lemma_seq_prod_take_succ(self.spec_shape(), i as int);
                lemma_seq_prod_take_succ(self.n_global@, i as int);
                lemma_seq_prod_nonneg(self.spec_shape().take(i as int));
                let a = seq_prod(self.spec_shape().take(i as int));
                let b = seq_prod(self.n_global@.take(i as int));
                let xa = self.dists@[i as int].sz as int;
                let xb = self.n_global@[i as int] as int;
                assert(a * xa <= b * xb) by (nonlinear_arith)
                    requires
                        0 <= a <= b,
                        0 <= xa <= xb,
                ;
                lemma_seq_prod_take_le(self.n_global@, i as int + 1);
            }
            acc = acc * self.dists[i].sz;
            i += 1;
        }
        proof {
            lemma_seq_prod_take_all(self.spec_shape());
        }
        acc
    }

    /// Total number of grid points of the whole grid.
    pub fn len_global(&self) -> (r: usize)
        requires
            self.wf(),
        ensures
            r as int == self.spec_len_global(),
    {
        let m = self.n_global.len();
        let mut acc: usize = 1;
        let mut i: usize = 0;
        while i < m
            invariant
                i <= m,
                self.wf(),
                m == self.n_global@.len(),
                acc as int == seq_prod(self.n_global@.take(i as int)),
            decreases m - i,
        {
            proof {
                lemma_seq_prod_take_succ(self.n_global@, i as int);
                lemma_seq_prod_take_le(self.n_global@, i as int + 1);
            }
            acc = acc * self.n_global[i];
            i += 1;
        }
        proof {
            lemma_seq_prod_take_all(self.n_global@);
        }
        acc
    }

    /// Whether this process holds no grid points.  A well-formed pencil
    /// always holds at least one point, so this returns false.
    pub fn is_empty(&self) -> (r: bool)
        requires
            self.wf(),
        ensures
            r == (self.spec_len() == 0),
    {
        self.len() == 0
    }

    /// Local shape: this process's size along every axis.
    pub fn shape(&self) -> (r: Vec<usize>)
        requires
            self.wf(),
        ensures
            r@ == self.spec_shape(),
    {
        let m = self.n_global.len();
        let mut r: Vec<usize> = Vec::new();
        let mut i: usize = 0;
        while i < m
            invariant
                i <= m,
                self.wf(),
                m == self.n_global@.len(),
                r@.len() == i,
                forall|k: int| 0 <= k < i ==> #[trigger] r@[k] == self.dists@[k].sz,
            decreases m - i,
        {
            r.push(self.dists[i].sz);
            i += 1;
        }
        proof {
            assert(r@ =~= self.spec_shape());
        }
        r
    }

    /// Global shape, recovered as the per-axis sum of all chunk sizes.
    pub fn shape_global(&self) -> (r: Vec<usize>)
        requires
            self.wf(),
        ensures
            r@ == self.n_global@,
    {
        let m = self.n_global.len();
        let mut r: Vec<usize> = Vec::new();
        let mut i: usize = 0;
        while i < m
            invariant
                i <= m,
                self.wf(),
                m == self.n_global@.len(),
                r@.len() == i,
                forall|k: int| 0 <= k < i ==> #[trigger] r@[k] == self.n_global@[k],
            decreases m - i,
        {
            let ghost n_i = self.n_global@[i as int] as int;
            proof {
                lemma_pencil_dist_wf(*self, i as int);
                lemma_table_sum(self.dists@[i as int], n_i);
            }
            let d = &self.dists[i];
            let p = d.sz_procs.len();
            let mut acc: usize = 0;
            let mut k: usize = 0;
            while k < p
                invariant
                    k <= p,
                    p == d.sz_procs@.len(),
                    seq_sum(d.sz_procs@) == n_i,
                    n_i <= usize::MAX,
                    acc as int == seq_sum(d.sz_procs@.take(k as int)),
                decreases p - k,
            {
                proof {
                    lemma_seq_sum_take_succ(d.sz_procs@, k as int);
                    lemma_seq_sum_take_le(d.sz_procs@, k as int + 1);
                }
                acc = acc + d.sz_procs[k];
                k += 1;
            }
            proof {
                lemma_seq_sum_take_all(d.sz_procs@);
            }
            r.push(acc);
            i += 1;
        }
        proof {
            assert(r@ =~= self.n_global@);
        }
        r
    }
}

/// Every per-axis distribution of a well-formed pencil has a well-formed
/// chunk table over its axis length.
pub proof fn lemma_pencil_dist_wf(p: Pencil, i: int)
    requires
        p.wf(),
        0 <= i < p.ndim(),
    ensures
        p.dists@[i].table_wf(p.n_global@[i] as int),
        1 <= p.dists@[i].sz,
        p.dists@[i].sz <= p.n_global@[i],
        p.dists@[i].nprocs() >= 1,
{
    if i == p.axis_contig {
        assert(p.dists@[i].is_for(p.n_global@[i] as int, 1, 0));
    }
    let d = p.dists@[i];
    let n = p.n_global@[i] as int;
    let rank = if i == p.axis_contig {
        0int
    } else {
        p.comm.coords@[p.spec_cart_dim_of(i)] as int
    };
    assert(d.sz == d.sz_procs@[rank]);
    assert(d.en_procs@[rank] == d.st_procs@[rank] + d.sz_procs@[rank] - 1);
    assert(d.en_procs@[rank] < n);
}

/// Bounds on the local shape of a well-formed pencil: each local size is at
/// least one and at most the axis length, so the local length is at least
/// one and at most the global length.
pub proof fn lemma_pencil_size_bounds(p: Pencil)
    requires
        p.wf(),
    ensures
        forall|i: int| 0 <= i < p.ndim() ==> 1 <= #[trigger] p.spec_shape()[i],
        forall|i: int| 0 <= i < p.ndim() ==> #[trigger] p.spec_shape()[i] <= p.n_global@[i],
        1 <= p.spec_len(),
        p.spec_len() <= p.spec_len_global(),
        p.spec_len_global() <= usize::MAX,
{
    assert forall|i: int| 0 <= i < p.ndim() implies 1 <= #[trigger] p.spec_shape()[i]
        && p.spec_shape()[i] <= p.n_global@[i] by {
        lemma_pencil_dist_wf(p, i);
    }
    lemma_seq_prod_pos(p.spec_shape());
    lemma_seq_prod_le(p.spec_shape(), p.n_global@);
}

/// Rows of a well-formed chunk table are bounded by the axis length.
pub proof fn lemma_table_row_bounds(d: Distribution, n: int, k: int)
    requires
        d.table_wf(n),
        0 <= k < d.nprocs(),
    ensures
        1 <= d.sz_procs@[k],
        d.sz_procs@[k] <= n,
        d.en_procs@[k] < n,
        d.en_procs@[k] == d.st_procs@[k] + d.sz_procs@[k] - 1,
{
    assert(d.en_procs@[k] == d.st_procs@[k] + d.sz_procs@[k] - 1);
    assert(d.en_procs@[k] < n);
}

/// Factor contributed by grid axis `i` to the number of elements this
/// process sends to rank `np` of the exchange sub-group when transposing
/// from `send` to `recv`: the receiver's chunk size along the axis the
/// sender keeps contiguous, and the sender's own local size along every
/// other axis.
pub open spec fn send_factor(send: Pencil, recv: Pencil, np: int, i: int) -> usize {
    if i == send.axis_contig {
        recv.dists@[i].sz_procs@[np]
    } else {
        send.dists@[i].sz
    }
}

/// All per-axis factors of the message to rank `np`.
pub open spec fn send_factors(send: Pencil, recv: Pencil, np: int) -> Seq<usize> {
    Seq::new(send.n_global@.len(), |i: int| send_factor(send, recv, np, i))
}

/// Number of elements this process sends to rank `np` of the exchange
/// sub-group when transposing from `send` to `recv`.
pub open spec fn spec_send_count(send: Pencil, recv: Pencil, np: int) -> int {
    seq_prod(send_factors(send, recv, np))
}

/// The two pencils admit a variable-count all-to-all transpose: same grid,
/// different contiguous axes, every axis that is split in both pencils is
/// split to the same local size at this process, and each pencil's chunk
/// table along the other's contiguous axis has one row per member of the
/// exchange sub-group.  A configuration where a shared split axis differs
/// in local size would need the fully general exchange pattern, which this
/// design rejects.
pub open spec fn transpose_compatible(send: Pencil, recv: Pencil) -> bool {
    &&& send.wf()
    &&& recv.wf()
    &&& send.n_global@ == recv.n_global@
    &&& send.axis_contig != recv.axis_contig
    &&& recv.dists@[send.axis_contig as int].nprocs() == send.spec_nprocs_along_axis(
        recv.axis_contig as int,
    )
    &&& send.dists@[recv.axis_contig as int].nprocs() == recv.spec_nprocs_along_axis(
        send.axis_contig as int,
    )
    &&& forall|i: int|
        0 <= i < send.ndim() && i != send.axis_contig && i != recv.axis_contig ==> (
        #[trigger] send.dists@[i]).sz == recv.dists@[i].sz
}

/// Transpose compatibility reads the same from either side.
pub proof fn lemma_transpose_compatible_sym(send: Pencil, recv: Pencil)
    requires
        transpose_compatible(send, recv),
    ensures
        transpose_compatible(recv, send),
{
}

/// Send counts and displacements for the variable-count all-to-all exchange
/// that transposes data from `send` to `recv`: one count per rank of the
/// exchange sub-group, with displacements the exclusive prefix sums in rank
/// order.  The counts sum to this process's local length.
pub fn send_counts_all_to_all(send: &Pencil, recv: &Pencil) -> (r: (Vec<usize>, Vec<usize>))
    requires
        transpose_compatible(*send, *recv),
    ensures
        r.0@.len() == send.spec_nprocs_along_axis(recv.axis_contig as int),
        forall|np: int|
            0 <= np < r.0@.len() ==> #[trigger] r.0@[np] as int == spec_send_count(
                *send,
                *recv,
                np,
            ),
        r.1@.len() == r.0@.len(),
        forall|k: int|
            0 <= k < r.1@.len() ==> #[trigger] r.1@[k] as int == seq_sum(r.0@.take(k)),
        seq_sum(r.0@) == send.spec_len(),
{
    let nprocs = send.nprocs_along_axis(recv.axis_contig);
    let m = send.n_global.len();
    let mut counts: Vec<usize> = Vec::new();
    let mut np: usize = 0;
    while np < nprocs
        invariant
            np <= nprocs,
            transpose_compatible(*send, *recv),
            m == send.n_global@.len(),
            nprocs as int == send.spec_nprocs_along_axis(recv.axis_contig as int),
            counts@.len() == np,
            forall|q: int|
                0 <= q < np ==> #[trigger] counts@[q] as int == spec_send_count(*send, *recv, q),
        decreases nprocs - np,
    {
        let mut count: usize = 1;
        let mut i: usize = 0;
        while i < m
            invariant
                i <= m,
                np < nprocs,
                transpose_compatible(*send, *recv),
                m == send.n_global@.len(),
                nprocs as int == send.spec_nprocs_along_axis(recv.axis_contig as int),
                count as int == seq_prod(send_factors(*send, *recv, np as int).take(i as int)),
                count as int <= seq_prod(send.n_global@.take(i as int)),
            decreases m - i,
        {
            let f: usize = if i != send.axis_contig && i != recv.axis_contig {
                // both pencils split this axis, to the same local size
                send.dists[i].sz
            } else if i == recv.axis_contig {
                // the sender only holds its own slice of this axis
                send.dists[i].sz
            } else {
                // the axis the receiver splits: the receiver's chunk of rank np
                proof {
                    lemma_pencil_dist_wf(*recv, i as int);
                }
                recv.dists[i].sz_procs[np]
            };
            proof {
                assert(f == send_factor(*send, *recv, np as int, i as int));
                if i == send.axis_contig {
                    lemma_pencil_dist_wf(*recv, i as int);
                    lemma_table_row_bounds(
                        recv.dists@[i as int],
                        recv.n_global@[i as int] as int,
                        np as int,
                    );
                } else {
                    lemma_pencil_dist_wf(*send, i as int);
                }
                assert(f as int <= send.n_global@[i as int]);
                lemma_seq_prod_take_succ(send_factors(*send, *recv, np as int), i as int);
                lemma_seq_prod_take_succ(send.n_global@, i as int);
                lemma_seq_prod_nonneg(send_factors(*send, *recv, np as int).take(i as int));
                let a = seq_prod(send_factors(*send, *recv, np as int).take(i as int));
                let b = seq_prod(send.n_global@.take(i as int));
                let xb = send.n_global@[i as int] as int;
                assert(a * f <= b * xb) by (nonlinear_arith)
                    requires
                        0 <= a <= b,
                        0 <= f as int <= xb,
                ;
                lemma_seq_prod_take_le(send.n_global@, i as int + 1);
            }
            count = count * f;
            i += 1;
        }
        proof {
            lemma_seq_prod_take_all(send_factors(*send, *recv, np as int));
            assert(send_factors(*send, *recv, np as int).take(m as int) =~= send_factors(
                *send,
                *recv,
                np as int,
            ));
        }
        counts.push(count);
        np += 1;
    }
    proof {
        lemma_send_counts_sum(*send, *recv, counts@);
        lemma_pencil_size_bounds(*send);
    }
    let displs = prefix_displs(&counts);
    (counts, displs)
}

/// Receive counts and displacements for the same exchange: the send counts
/// with the roles of the two pencils reversed.
pub fn recv_counts_all_to_all(send: &Pencil, recv: &Pencil) -> (r: (Vec<usize>, Vec<usize>))
    requires
        transpose_compatible(*send, *recv),
    ensures
        r.0@.len() == recv.spec_nprocs_along_axis(send.axis_contig as int),
        forall|np: int|
            0 <= np < r.0@.len() ==> #[trigger] r.0@[np] as int == spec_send_count(
                *recv,
                *send,
                np,
            ),
        r.1@.len() == r.0@.len(),
        forall|k: int|
            0 <= k < r.1@.len() ==> #[trigger] r.1@[k] as int == seq_sum(r.0@.take(k)),
        seq_sum(r.0@) == recv.spec_len(),
{
    proof {
        lemma_transpose_compatible_sym(*send, *recv);
    }
    send_counts_all_to_all(recv, send)
}

/// Factor contributed by grid axis `i` to the number of elements rank `np`
/// of the sub-group contributes when axis `axis` is gathered: that rank's
/// chunk along `axis`, and this process's local size along every other axis.
pub open spec fn gather_factor(p: Pencil, axis: int, np: int, i: int) -> usize {
    if i == axis {
        p.dists@[axis].sz_procs@[np]
    } else {
        p.dists@[i].sz
    }
}

/// All per-axis factors of rank `np`'s contribution to a gather along
/// `axis`.
pub open spec fn gather_factors(p: Pencil, axis: int, np: int) -> Seq<usize> {
    Seq::new(p.n_global@.len(), |i: int| gather_factor(p, axis, np, i))
}

/// Number of elements rank `np` of the sub-group contributes to a gather
/// along `axis`.
pub open spec fn spec_gather_count(p: Pencil, axis: int, np: int) -> int {
    seq_prod(gather_factors(p, axis, np))
}

/// Receive counts and displacements for gathering axis `axis` of a pencil
/// to the root of the sub-group along that axis: one count per rank, with
/// displacements the exclusive prefix sums in rank order.  The counts sum
/// to the local length with `axis` expanded to its full global extent.
pub fn recv_counts_gather_axis(pencil: &Pencil, axis: usize) -> (r: (Vec<usize>, Vec<usize>))
    requires
        pencil.wf(),
        (axis as int) < pencil.ndim(),
        axis != pencil.axis_contig,
    ensures
        r.0@.len() == pencil.spec_nprocs_along_axis(axis as int),
        forall|np: int|
            0 <= np < r.0@.len() ==> #[trigger] r.0@[np] as int == spec_gather_count(
                *pencil,
                axis as int,
                np,
            ),
        r.1@.len() == r.0@.len(),
        forall|k: int|
            0 <= k < r.1@.len() ==> #[trigger] r.1@[k] as int == seq_sum(r.0@.take(k)),
        seq_sum(r.0@) == seq_prod(
            pencil.spec_shape().update(axis as int, pencil.n_global@[axis as int]),
        ),
{
    let nprocs = pencil.nprocs_along_axis(axis);
    let m = pencil.n_global.len();
    let mut counts: Vec<usize> = Vec::new();
    let mut np: usize = 0;
    while np < nprocs
        invariant
            np <= nprocs,
            pencil.wf(),
            (axis as int) < pencil.ndim(),
            axis != pencil.axis_contig,
            m == pencil.n_global@.len(),
            nprocs as int == pencil.spec_nprocs_along_axis(axis as int),
            counts@.len() == np,
            forall|q: int|
                0 <= q < np ==> #[trigger] counts@[q] as int == spec_gather_count(
                    *pencil,
                    axis as int,
                    q,
                ),
        decreases nprocs - np,
    {
        let mut count: usize = 1;
        let mut i: usize = 0;
        while i < m
            invariant
                i <= m,
                np < nprocs,
                pencil.wf(),
                (axis as int) < pencil.ndim(),
                axis != pencil.axis_contig,
                m == pencil.n_global@.len(),
                nprocs as int == pencil.spec_nprocs_along_axis(axis as int),
                count as int == seq_prod(gather_factors(*pencil, axis as int, np as int).take(
                    i as int,
                )),
                count as int <= seq_prod(pencil.n_global@.take(i as int)),
            decreases m - i,
        {
            let f: usize = if i == axis {
                proof {
                    lemma_pencil_dist_wf(*pencil, i as int);
                }
                pencil.dists[i].sz_procs[np]
            } else {
                pencil.dists[i].sz
            };
            proof {
                assert(f == gather_factor(*pencil, axis as int, np as int, i as int));
                lemma_pencil_dist_wf(*pencil, i as int);
                if i == axis {
                    lemma_table_row_bounds(
                        pencil.dists@[i as int],
                        pencil.n_global@[i as int] as int,
                        np as int,
                    );
                }
                assert(f as int <= pencil.n_global@[i as int]);
                lemma_seq_prod_take_succ(gather_factors(*pencil, axis as int, np as int), i as int);
                lemma_seq_prod_take_succ(pencil.n_global@, i as int);
                lemma_seq_prod_nonneg(
                    gather_factors(*pencil, axis as int, np as int).take(i as int),
                );
                let a = seq_prod(gather_factors(*pencil, axis as int, np as int).take(i as int));
                let b = seq_prod(pencil.n_global@.take(i as int));
                let xb = pencil.n_global@[i as int] as int;
                assert(a * f <= b * xb) by (nonlinear_arith)
                    requires
                        0 <= a <= b,
                        0 <= f as int <= xb,
                ;
                lemma_seq_prod_take_le(pencil.n_global@, i as int + 1);
            }
            count = count * f;
            i += 1;
        }
        proof {
            assert(gather_factors(*pencil, axis as int, np as int).take(m as int) =~= gather_factors(
                *pencil,
                axis as int,
                np as int,
            ));
        }
        counts.push(count);
        np += 1;
    }
    proof {
        lemma_gather_counts_sum(*pencil, axis as int, counts@);
        lemma_pencil_size_bounds(*pencil);
        let shape = pencil.spec_shape();
        let nax = pencil.n_global@[axis as int];
        assert forall|i: int|
            0 <= i < shape.len() implies #[trigger] shape.update(axis as int, nax)[i]
            <= pencil.n_global@[i] by {
            lemma_pencil_size_bounds(*pencil);
        }
        lemma_seq_prod_le(shape.update(axis as int, nax), pencil.n_global@);
    }
    let displs = prefix_displs(&counts);
    (counts, displs)
}

/// The per-rank counts of a transpose sum to the sender's local length:
/// the factors other than the contiguous axis are shared by every rank, and
/// the receiver's chunks along that axis sum to its full extent.
pub proof fn lemma_send_counts_sum(send: Pencil, recv: Pencil, counts: Seq<usize>)
    requires
        transpose_compatible(send, recv),
        counts.len() == send.spec_nprocs_along_axis(recv.axis_contig as int),
        forall|np: int|
            0 <= np < counts.len() ==> #[trigger] counts[np] as int == spec_send_count(
                send,
                recv,
                np,
            ),
    ensures
        seq_sum(counts) == send.spec_len(),
{
    let sac = send.axis_contig as int;
    let n_sac = send.n_global@[sac] as int;
    let shape = send.spec_shape();
    let t = recv.dists@[sac].sz_procs@;
    let base = seq_prod(shape.update(sac, 1));
    lemma_pencil_dist_wf(recv, sac);
    assert(t.len() == counts.len());
    assert forall|np: int| 0 <= np < counts.len() implies #[trigger] counts[np] as int == base * (
    t[np] as int) by {
        assert(send_factors(send, recv, np) =~= shape.update(sac, t[np]));
        lemma_seq_prod_update(shape, sac, t[np]);
    }
    lemma_sum_scaled(counts, t, base);
    lemma_table_sum(recv.dists@[sac], n_sac);
    // the contiguous axis holds the whole extent locally
    assert(send.dists@[sac].is_for(n_sac, 1, 0));
    assert(send.dists@[sac].sz == n_sac);
    assert(shape[sac] as int == n_sac);
    lemma_seq_update_self(shape, sac);
    lemma_seq_prod_update(shape, sac, shape[sac]);
}

/// The per-rank counts of a gather along an axis sum to the local length
/// with that axis expanded to its global extent.
pub proof fn lemma_gather_counts_sum(p: Pencil, axis: int, counts: Seq<usize>)
    requires
        p.wf(),
        0 <= axis < p.ndim(),
        axis != p.axis_contig,
        counts.len() == p.spec_nprocs_along_axis(axis),
        forall|np: int|
            0 <= np < counts.len() ==> #[trigger] counts[np] as int == spec_gather_count(
                p,
                axis,
                np,
            ),
    ensures
        seq_sum(counts) == seq_prod(p.spec_shape().update(axis, p.n_global@[axis])),
{
    let n_ax = p.n_global@[axis] as int;
    let shape = p.spec_shape();
    let t = p.dists@[axis].sz_procs@;
    let base = seq_prod(shape.update(axis, 1));
    lemma_pencil_dist_wf(p, axis);
    assert(t.len() == counts.len());
    assert forall|np: int| 0 <= np < counts.len() implies #[trigger] counts[np] as int == base * (
    t[np] as int) by {
        assert(gather_factors(p, axis, np) =~= shape.update(axis, t[np]));
        lemma_seq_prod_update(shape, axis, t[np]);
    }
    lemma_sum_scaled(counts, t, base);
    lemma_table_sum(p.dists@[axis], n_ax);
    lemma_seq_prod_update(shape, axis, p.n_global@[axis]);
}

/// Sum of a sequence whose entries are a common factor times the entries of
/// another sequence.
proof fn lemma_sum_scaled(counts: Seq<usize>, t: Seq<usize>, base: int)
    requires
        counts.len() == t.len(),
        forall|k: int| 0 <= k < counts.len() ==> #[trigger] counts[k] as int == base * (t[k] as int),
    ensures
        seq_sum(counts) == base * seq_sum(t),
    decreases counts.len(),
{
    if counts.len() == 0 {
        assert(base * 0 == 0) by (nonlinear_arith);
    } else {
        lemma_sum_scaled(counts.drop_last(), t.drop_last(), base);
        let s = seq_sum(t.drop_last());
        let x = t.last() as int;
        assert(counts.last() as int == base * x);
        assert(base * s + base * x == base * (s + x)) by (nonlinear_arith);
    }
}

/// Exclusive prefix sums of a table of counts, in order.
fn prefix_displs(counts: &Vec<usize>) -> (d: Vec<usize>)
    requires
        seq_sum(counts@) <= usize::MAX,
    ensures
        d@.len() == counts@.len(),
        forall|k: int|
            0 <= k < counts@.len() ==> #[trigger] d@[k] as int == seq_sum(counts@.take(k)),
{
    let mut d: Vec<usize> = Vec::new();
    let mut acc: usize = 0;
    let mut k: usize = 0;
    while k < counts.len()
        invariant
            k <= counts@.len(),
            seq_sum(counts@) <= usize::MAX,
            acc as int == seq_sum(counts@.take(k as int)),
            d@.len() == k,
            forall|q: int|
                0 <= q < k ==> #[trigger] d@[q] as int == seq_sum(counts@.take(q)),
        decreases counts@.len() - k,
    {
        proof {
            lemma_seq_sum_take_succ(counts@, k as int);
            lemma_seq_sum_take_le(counts@, k as int + 1);
        }
        d.push(acc);
        acc = acc + counts[k];
        k += 1;
    }
    d
}

/// The contiguous axis of a well-formed pencil holds the whole axis
/// locally.
pub proof fn lemma_contig_size(p: Pencil)
    requires
        p.wf(),
    ensures
        p.spec_size(p.axis_contig as int) == p.n_global@[p.axis_contig as int],
        p.dists@[p.axis_contig as int].st == 0,
{
    let sac = p.axis_contig as int;
    let d = p.dists@[sac];
    let n = p.n_global@[sac] as int;
    assert(d.is_for(n, 1, 0));
    assert(d.en_procs@[0] == d.st_procs@[0] + d.sz_procs@[0] - 1);
    assert(d.en_procs@[0] == n - 1);
    assert(d.st_procs@[0] == 0);
}

/// The local length of a two-dimensional pencil is the product of its two
/// local sizes.
pub proof fn lemma_len2(p: Pencil)
    requires
        p.wf(),
        p.ndim() == 2,
    ensures
        p.spec_len() == p.spec_size(0) * p.spec_size(1),
{
    let shape = p.spec_shape();
    let s0 = p.dists@[0].sz;
    let s1 = p.dists@[1].sz;
    assert(shape.last() == s1);
    assert(shape.drop_last() =~= seq![s0]);
    assert(seq![s0].drop_last() =~= Seq::<usize>::empty());
    assert(seq_prod(Seq::<usize>::empty()) == 1);
    assert(seq_prod(seq![s0]) == 1 * (s0 as int));
    assert(seq_prod(shape) == seq_prod(seq![s0]) * s1);
}

/// The local length of a three-dimensional pencil is the product of its
/// three local sizes.
pub proof fn lemma_len3(p: Pencil)
    requires
        p.wf(),
        p.ndim() == 3,
    ensures
        p.spec_len() == p.spec_size(0) * (p.spec_size(1) * p.spec_size(2)),
{
    let shape = p.spec_shape();
    let s0 = p.dists@[0].sz;
    let s1 = p.dists@[1].sz;
    let s2 = p.dists@[2].sz;
    assert(shape.last() == s2);
    assert(shape.drop_last() =~= seq![s0, s1]);
    assert(seq![s0, s1].drop_last() =~= seq![s0]);
    assert(seq![s0].drop_last() =~= Seq::<usize>::empty());
    assert(seq_prod(Seq::<usize>::empty()) == 1);
    assert(seq_prod(seq![s0]) == 1 * (s0 as int));
    assert(seq_prod(seq![s0, s1]) == seq_prod(seq![s0]) * s1);
    assert(seq_prod(shape) == seq_prod(seq![s0, s1]) * s2);
    assert(((1 * (s0 as int)) * s1) * s2 == s0 * (s1 * s2)) by (nonlinear_arith);
}

/// Copy of a vector of sizes.
pub(crate) fn copy_usizes(v: &Vec<usize>) -> (r: Vec<usize>)
    ensures
        r@ == v@,
{
    let mut r: Vec<usize> = Vec::new();
    let mut i: usize = 0;
    while i < v.len()
        invariant
            i <= v@.len(),
            r@ == v@.take(i as int),
        decreases v@.len() - i,
    {
        r.push(v[i]);
        assert(r@ =~= v@.take(i as int + 1));
        i += 1;
    }
    proof {
        assert(r@ =~= v@);
    }
    r
}

/// Copy of a vector of flags.
pub(crate) fn copy_bools(v: &Vec<bool>) -> (r: Vec<bool>)
    ensures
        r@ == v@,
{
    let mut r: Vec<bool> = Vec::new();
    let mut i: usize = 0;
    while i < v.len()
        invariant
            i <= v@.len(),
            r@ == v@.take(i as int),
        decreases v@.len() - i,
    {
        r.push(v[i]);
        assert(r@ =~= v@.take(i as int + 1));
        i += 1;
    }
    proof {
        assert(r@ =~= v@);
    }
    r
}

} // verus!
