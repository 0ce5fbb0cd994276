//! Correctness laws of the two-dimensional transpose and gather/scatter
//! engine, stated against global indexing.
//!
//! A transpose runs as pack, collective exchange, unpack.  The pack and
//! unpack contracts live on the executable routines; the exchange delivers,
//! to each receiver, one contiguous segment per sender, cut by the verified
//! count/displacement tables.  The predicates here describe the per-rank
//! arrays and exchanged buffers over the chunk tables alone — the tables
//! are identical on every rank, so one process's `Pencil` values describe
//! the whole group — and the lemmas prove that the engine moves `f(global
//! index)` to `f(global index)`, that a transpose there and back returns
//! the original array, and that scattering then gathering a global array
//! returns it unchanged.

use vstd::prelude::*;

use crate::distribution::Distribution;
use crate::distribution::lemma_table_covers;
use crate::math::lemma_index2_bounds;
use crate::math::lemma_index2_decompose;
use crate::pencil::Pencil;
use crate::pencil::lemma_pencil_dist_wf;
use crate::pencil::lemma_table_row_bounds;

verus! {

/// Rank of the chunk of a table that contains global index `g`.
pub open spec fn table_owner(d: Distribution, g: int) -> int {
    choose|q: int| 0 <= q < d.nprocs() && #[trigger] d.st_procs@[q] <= g <= d.en_procs@[q]
}

/// In a well-formed table, `table_owner` names the unique chunk holding
/// `g`.
pub proof fn lemma_table_owner(d: Distribution, n: int, g: int)
    requires
        d.table_wf(n),
        0 <= g < n,
    ensures
        0 <= table_owner(d, g) < d.nprocs(),
        d.st_procs@[table_owner(d, g)] <= g <= d.en_procs@[table_owner(d, g)],
        forall|q: int|
            0 <= q < d.nprocs() && #[trigger] d.st_procs@[q] <= g && g <= d.en_procs@[q] ==> q
                == table_owner(d, g),
{
    lemma_table_covers(d, n, g);
}

/// A local x-pencil array of rank `q` holds `f` of the global index at
/// every position: element `(i, b)` of the local block is
/// `f(i, st1[q] + b)`.
pub open spec fn x_holds<T>(x: Pencil, q: int, data: Seq<T>, f: spec_fn(int, int) -> T) -> bool {
    let n0 = x.n_global@[0] as int;
    let st = x.dists@[1].st_procs@[q] as int;
    let sz = x.dists@[1].sz_procs@[q] as int;
    &&& data.len() == n0 * sz
    &&& forall|i: int, b: int|
        0 <= i < n0 && 0 <= b < sz ==> #[trigger] data[i * sz + b] == f(i, st + b)
}

/// A local y-pencil array of rank `r` holds `f` of the global index at
/// every position: element `(a, j)` of the local block is
/// `f(st0[r] + a, j)`.
pub open spec fn y_holds<T>(y: Pencil, r: int, data: Seq<T>, f: spec_fn(int, int) -> T) -> bool {
    let n1 = y.n_global@[1] as int;
    let st = y.dists@[0].st_procs@[r] as int;
    let sz = y.dists@[0].sz_procs@[r] as int;
    &&& data.len() == sz * n1
    &&& forall|a: int, j: int|
        0 <= a < sz && 0 <= j < n1 ==> #[trigger] data[a * n1 + j] == f(st + a, j)
}

/// One cell of the exchange of a transpose from the x-pencil to the
/// y-pencil: sender `q`, receiver `r`, row offset `a` inside the
/// receiver's chunk of axis 0, column offset `b` inside the sender's chunk
/// of axis 1.
pub open spec fn xy_cell(x: Pencil, y: Pencil, r: int, q: int, a: int, b: int) -> bool {
    &&& 0 <= q < x.dists@[1].nprocs()
    &&& 0 <= r < y.dists@[0].nprocs()
    &&& 0 <= a < y.dists@[0].sz_procs@[r]
    &&& 0 <= b < x.dists@[1].sz_procs@[q]
}

/// The receive buffer of rank `r` after the collective exchange of a
/// transpose from the x-pencil to the y-pencil: segment `q` sits at the
/// receive displacement of sender `q` and holds, in row-major order, the
/// rows of the receiver's chunk of axis 0 cut from the sender's packed
/// array.
pub open spec fn xy_exchanged<T>(
    x: Pencil,
    y: Pencil,
    r: int,
    snds: Seq<Seq<T>>,
    rbuf: Seq<T>,
) -> bool {
    let t0 = y.dists@[0];
    let t1 = x.dists@[1];
    let szr = t0.sz_procs@[r] as int;
    &&& rbuf.len() == szr * (x.n_global@[1] as int)
    &&& forall|q: int, a: int, b: int|
        #[trigger] xy_cell(x, y, r, q, a, b) ==> rbuf[szr * (t1.st_procs@[q] as int) + a * (
        t1.sz_procs@[q] as int) + b] == snds[q][((t0.st_procs@[r] as int) + a) * (
        t1.sz_procs@[q] as int) + b]
}

/// One destination slot of the x-to-y unpack at rank `r`, over the chunk
/// tables alone.
pub open spec fn xy_slot_at(x: Pencil, y: Pencil, r: int, q: int, i: int, j: int) -> bool {
    &&& 0 <= q < x.dists@[1].nprocs()
    &&& 0 <= r < y.dists@[0].nprocs()
    &&& 0 <= i < y.dists@[0].sz_procs@[r]
    &&& x.dists@[1].st_procs@[q] <= j <= x.dists@[1].en_procs@[q]
}

/// What the x-to-y unpack at rank `r` guarantees of its output, over the
/// chunk tables alone.
pub open spec fn merge_xy_post<T>(x: Pencil, y: Pencil, r: int, rbuf: Seq<T>, out: Seq<T>) -> bool {
    let t0 = y.dists@[0];
    let t1 = x.dists@[1];
    let szr = t0.sz_procs@[r] as int;
    let n1 = x.n_global@[1] as int;
    &&& out.len() == szr * n1
    &&& forall|q: int, i: int, j: int|
        #[trigger] xy_slot_at(x, y, r, q, i, j) ==> out[i * n1 + j] == rbuf[szr * (
        t1.st_procs@[q] as int) + i * (t1.sz_procs@[q] as int) + (j - t1.st_procs@[q])]
}

/// Transpose correctness against global indexing, x to y: when every
/// rank's send array holds `f` of the global index, the unpacked output of
/// rank `r` holds `f` of the global index as well.
pub proof fn lemma_transpose_x_to_y_correct<T>(
    x: Pencil,
    y: Pencil,
    r: int,
    snds: Seq<Seq<T>>,
    rbuf: Seq<T>,
    out: Seq<T>,
    f: spec_fn(int, int) -> T,
)
    requires
        crate::decomp2::xy_pair(x, y),
        0 <= r < y.dists@[0].nprocs(),
        snds.len() == x.dists@[1].nprocs(),
        forall|q: int| 0 <= q < snds.len() ==> x_holds(x, q, #[trigger] snds[q], f),
        xy_exchanged(x, y, r, snds, rbuf),
        merge_xy_post(x, y, r, rbuf, out),
    ensures
        y_holds(y, r, out, f),
{
    let t0 = y.dists@[0];
    let t1 = x.dists@[1];
    let n0 = x.n_global@[0] as int;
    let n1 = x.n_global@[1] as int;
    let szr = t0.sz_procs@[r] as int;
    let str0 = t0.st_procs@[r] as int;
    lemma_pencil_dist_wf(y, 0);
    lemma_pencil_dist_wf(x, 1);
    lemma_table_row_bounds(t0, n0, r);
    assert forall|a: int, j: int| 0 <= a < szr && 0 <= j < n1 implies #[trigger] out[a * n1 + j]
        == f(str0 + a, j) by {
        lemma_table_owner(t1, n1, j);
        let q = table_owner(t1, j);
        let stq = t1.st_procs@[q] as int;
        let szq = t1.sz_procs@[q] as int;
        lemma_table_row_bounds(t1, n1, q);
        let b = j - stq;
        assert(xy_slot_at(x, y, r, q, a, j));
        assert(out[a * n1 + j] == rbuf[szr * stq + a * szq + b]);
        assert(xy_cell(x, y, r, q, a, b));
        assert(rbuf[szr * stq + a * szq + b] == snds[q][(str0 + a) * szq + b]);
        assert(x_holds(x, q, snds[q], f));
        assert(0 <= str0 + a < n0);
        assert(snds[q][(str0 + a) * szq + b] == f(str0 + a, stq + b));
    }
}

/// One cell of the exchange of a transpose from the y-pencil to the
/// x-pencil: sender `q`, receiver `r`, row offset `b` inside the sender's
/// chunk of axis 0, column offset `c` inside the receiver's chunk of
/// axis 1.
pub open spec fn yx_cell(y: Pencil, x: Pencil, r: int, q: int, b: int, c: int) -> bool {
    &&& 0 <= q < y.dists@[0].nprocs()
    &&& 0 <= r < x.dists@[1].nprocs()
    &&& 0 <= b < y.dists@[0].sz_procs@[q]
    &&& 0 <= c < x.dists@[1].sz_procs@[r]
}

/// The receive buffer of rank `r` after the collective exchange of a
/// transpose from the y-pencil to the x-pencil: segment `q` holds the
/// sender's packed (axis-swapped) columns of the receiver's chunk of
/// axis 1.
pub open spec fn yx_exchanged<T>(
    y: Pencil,
    x: Pencil,
    r: int,
    snds: Seq<Seq<T>>,
    rbuf: Seq<T>,
) -> bool {
    let t0 = y.dists@[0];
    let t1 = x.dists@[1];
    let szr = t1.sz_procs@[r] as int;
    let n1 = y.n_global@[1] as int;
    &&& rbuf.len() == (y.n_global@[0] as int) * szr
    &&& forall|q: int, b: int, c: int|
        #[trigger] yx_cell(y, x, r, q, b, c) ==> rbuf[szr * (t0.st_procs@[q] as int) + c * (
        t0.sz_procs@[q] as int) + b] == snds[q][b * n1 + ((t1.st_procs@[r] as int) + c)]
}

/// One destination slot of the y-to-x unpack at rank `r`, over the chunk
/// tables alone.
pub open spec fn yx_slot_at(y: Pencil, x: Pencil, r: int, q: int, c: int, i: int) -> bool {
    &&& 0 <= q < y.dists@[0].nprocs()
    &&& 0 <= r < x.dists@[1].nprocs()
    &&& 0 <= c < x.dists@[1].sz_procs@[r]
    &&& y.dists@[0].st_procs@[q] <= i <= y.dists@[0].en_procs@[q]
}

/// What the y-to-x unpack at rank `r` guarantees of its output, over the
/// chunk tables alone.
pub open spec fn merge_yx_post<T>(y: Pencil, x: Pencil, r: int, rbuf: Seq<T>, out: Seq<T>) -> bool {
    let t0 = y.dists@[0];
    let t1 = x.dists@[1];
    let szr = t1.sz_procs@[r] as int;
    let n0 = y.n_global@[0] as int;
    &&& out.len() == n0 * szr
    &&& forall|q: int, c: int, i: int|
        #[trigger] yx_slot_at(y, x, r, q, c, i) ==> out[i * szr + c] == rbuf[szr * (
        t0.st_procs@[q] as int) + c * (t0.sz_procs@[q] as int) + (i - t0.st_procs@[q])]
}

/// Transpose correctness against global indexing, y to x: when every
/// rank's send array holds `f` of the global index, the unpacked output of
/// rank `r` holds `f` of the global index as well.
pub proof fn lemma_transpose_y_to_x_correct<T>(
    y: Pencil,
    x: Pencil,
    r: int,
    snds: Seq<Seq<T>>,
    rbuf: Seq<T>,
    out: Seq<T>,
    f: spec_fn(int, int) -> T,
)
    requires
        crate::decomp2::xy_pair(x, y),
        0 <= r < x.dists@[1].nprocs(),
        snds.len() == y.dists@[0].nprocs(),
        forall|q: int| 0 <= q < snds.len() ==> y_holds(y, q, #[trigger] snds[q], f),
        yx_exchanged(y, x, r, snds, rbuf),
        merge_yx_post(y, x, r, rbuf, out),
    ensures
        x_holds(x, r, out, f),
{
    let t0 = y.dists@[0];
    let t1 = x.dists@[1];
    let n0 = x.n_global@[0] as int;
    let n1 = x.n_global@[1] as int;
    let szr = t1.sz_procs@[r] as int;
    let str1 = t1.st_procs@[r] as int;
    lemma_pencil_dist_wf(y, 0);
    lemma_pencil_dist_wf(x, 1);
    lemma_table_row_bounds(t1, n1, r);
    assert forall|i: int, c: int| 0 <= i < n0 && 0 <= c < szr implies #[trigger] out[i * szr + c]
        == f(i, str1 + c) by {
        lemma_table_owner(t0, n0, i);
        let q = table_owner(t0, i);
        let stq = t0.st_procs@[q] as int;
        let szq = t0.sz_procs@[q] as int;
        lemma_table_row_bounds(t0, n0, q);
        let b = i - stq;
        assert(yx_slot_at(y, x, r, q, c, i));
        assert(out[i * szr + c] == rbuf[szr * stq + c * szq + b]);
        assert(yx_cell(y, x, r, q, b, c));
        assert(rbuf[szr * stq + c * szq + b] == snds[q][b * n1 + (str1 + c)]);
        assert(y_holds(y, q, snds[q], f));
        assert(0 <= str1 + c < n1);
        assert(snds[q][b * n1 + (str1 + c)] == f(stq + b, str1 + c));
    }
}

/// The function of the global index that a family of per-rank x-pencil
/// arrays defines: the value at `(i, j)` is read from the rank owning
/// column `j`.
pub open spec fn x_value_of<T>(x: Pencil, snds: Seq<Seq<T>>) -> spec_fn(int, int) -> T {
    |i: int, j: int|
        {
            let q = table_owner(x.dists@[1], j);
            snds[q][i * (x.dists@[1].sz_procs@[q] as int) + (j - x.dists@[1].st_procs@[q])]
        }
}

/// Any family of per-rank x-pencil arrays of the right shapes holds the
/// function of the global index that it defines.
pub proof fn lemma_x_holds_self<T>(x: Pencil, y: Pencil, snds: Seq<Seq<T>>)
    requires
        crate::decomp2::xy_pair(x, y),
        snds.len() == x.dists@[1].nprocs(),
        forall|q: int|
            0 <= q < snds.len() ==> (#[trigger] snds[q]).len() == (x.n_global@[0] as int) * (
            x.dists@[1].sz_procs@[q] as int),
    ensures
        forall|q: int|
            0 <= q < snds.len() ==> x_holds(x, q, #[trigger] snds[q], x_value_of(x, snds)),
{
    let t1 = x.dists@[1];
    let n0 = x.n_global@[0] as int;
    let n1 = x.n_global@[1] as int;
    let f = x_value_of(x, snds);
    lemma_pencil_dist_wf(x, 1);
    assert forall|q: int| 0 <= q < snds.len() implies x_holds(
        x,
        q,
        #[trigger] snds[q],
        f,
    ) by {
        let stq = t1.st_procs@[q] as int;
        let szq = t1.sz_procs@[q] as int;
        lemma_table_row_bounds(t1, n1, q);
        assert forall|i: int, b: int| 0 <= i < n0 && 0 <= b < szq implies #[trigger] snds[q][i
            * szq + b] == f(i, stq + b) by {
            lemma_table_owner(t1, n1, stq + b);
            assert(table_owner(t1, stq + b) == q);
        }
    }
}

/// Round-trip transpose: transposing every rank's x-pencil array to the
/// y-pencil and back reproduces rank `r`'s original array exactly.  The
/// hypotheses are the exchange descriptions and unpack contracts of the
/// two hops; the arrays themselves are arbitrary.
pub proof fn lemma_transpose_round_trip<T>(
    x: Pencil,
    y: Pencil,
    r: int,
    snds: Seq<Seq<T>>,
    rbufs1: Seq<Seq<T>>,
    mids: Seq<Seq<T>>,
    rbuf2: Seq<T>,
    out: Seq<T>,
)
    requires
        crate::decomp2::xy_pair(x, y),
        0 <= r < x.dists@[1].nprocs(),
        x.dists@[1].nprocs() == y.dists@[0].nprocs(),
        snds.len() == x.dists@[1].nprocs(),
        rbufs1.len() == y.dists@[0].nprocs(),
        mids.len() == y.dists@[0].nprocs(),
        forall|q: int|
            0 <= q < snds.len() ==> (#[trigger] snds[q]).len() == (x.n_global@[0] as int) * (
            x.dists@[1].sz_procs@[q] as int),
        forall|r2: int|
            0 <= r2 < mids.len() ==> xy_exchanged(x, y, r2, snds, #[trigger] rbufs1[r2]),
        forall|r2: int|
            0 <= r2 < mids.len() ==> merge_xy_post(x, y, r2, rbufs1[r2], #[trigger] mids[r2]),
        yx_exchanged(y, x, r, mids, rbuf2),
        merge_yx_post(y, x, r, rbuf2, out),
    ensures
        out == snds[r],
{
    let t1 = x.dists@[1];
    let n0 = x.n_global@[0] as int;
    let n1 = x.n_global@[1] as int;
    let szr = t1.sz_procs@[r] as int;
    let f = x_value_of(x, snds);
    lemma_x_holds_self(x, y, snds);
    assert forall|r2: int| 0 <= r2 < mids.len() implies y_holds(
        y,
        r2,
        #[trigger] mids[r2],
        f,
    ) by {
        lemma_transpose_x_to_y_correct(x, y, r2, snds, rbufs1[r2], mids[r2], f);
    }
    lemma_transpose_y_to_x_correct(y, x, r, mids, rbuf2, out, f);
    lemma_pencil_dist_wf(x, 1);
    lemma_table_row_bounds(t1, n1, r);
    let stq = t1.st_procs@[r] as int;
    assert(out.len() == n0 * szr);
    assert(snds[r].len() == n0 * szr);
    assert forall|pos: int| 0 <= pos < out.len() implies out[pos] == snds[r][pos] by {
        lemma_index2_decompose(n0, szr, pos);
        let i = pos / szr;
        let b = pos % szr;
        assert(x_holds(x, r, out, f));
        assert(x_holds(x, r, snds[r], f));
        assert(out[i * szr + b] == f(i, stq + b));
        assert(snds[r][i * szr + b] == f(i, stq + b));
    }
    assert(out =~= snds[r]);
}

/// The contract of the executable x-to-y unpack, stated at the calling
/// process in terms of its own pencil values, implies the rank-indexed
/// unpack description at that process's rank in the exchange line.
pub proof fn lemma_merge_xy_post_here<T>(x: Pencil, y: Pencil, rbuf: Seq<T>, out: Seq<T>)
    requires
        crate::decomp2::xy_pair(x, y),
        out.len() == y.spec_len(),
        forall|q: int, i: int, j: int|
            #[trigger] crate::decomp2::xy_slot(x, y, q, i, j) ==> out[i * y.spec_size(1) + j]
                == rbuf[crate::decomp2::xy_src(x, y, q, i, j)],
    ensures
        merge_xy_post(x, y, y.comm.coords@[0] as int, rbuf, out),
{
    let r = y.comm.coords@[0] as int;
    let t0 = y.dists@[0];
    crate::pencil::lemma_len2(y);
    crate::pencil::lemma_contig_size(y);
    assert(y.dists@[0].is_for(
        y.n_global@[0] as int,
        y.comm.dims@[0] as int,
        y.comm.coords@[0] as int,
    ));
    assert(y.spec_size(0) == t0.sz_procs@[r]);
    assert forall|q: int, i: int, j: int| #[trigger] xy_slot_at(x, y, r, q, i, j) implies out[i * (
    x.n_global@[1] as int) + j] == rbuf[(t0.sz_procs@[r] as int) * (x.dists@[1].st_procs@[q] as int)
        + i * (x.dists@[1].sz_procs@[q] as int) + (j - x.dists@[1].st_procs@[q])] by {
        assert(crate::decomp2::xy_slot(x, y, q, i, j));
    }
}

/// The contract of the executable y-to-x unpack, stated at the calling
/// process in terms of its own pencil values, implies the rank-indexed
/// unpack description at that process's rank in the exchange line.
pub proof fn lemma_merge_yx_post_here<T>(y: Pencil, x: Pencil, rbuf: Seq<T>, out: Seq<T>)
    requires
        crate::decomp2::xy_pair(x, y),
        out.len() == x.spec_len(),
        forall|q: int, c: int, i: int|
            #[trigger] crate::decomp2::yx_slot(y, x, q, c, i) ==> out[i * x.spec_size(1) + c]
                == rbuf[crate::decomp2::yx_src(y, x, q, c, i)],
    ensures
        merge_yx_post(y, x, x.comm.coords@[0] as int, rbuf, out),
{
    let r = x.comm.coords@[0] as int;
    let t1 = x.dists@[1];
    crate::pencil::lemma_len2(x);
    crate::pencil::lemma_contig_size(x);
    assert(x.dists@[1].is_for(
        x.n_global@[1] as int,
        x.comm.dims@[0] as int,
        x.comm.coords@[0] as int,
    ));
    assert(x.spec_size(1) == t1.sz_procs@[r]);
    assert forall|q: int, c: int, i: int| #[trigger] yx_slot_at(y, x, r, q, c, i) implies out[i * (
    t1.sz_procs@[r] as int) + c] == rbuf[(t1.sz_procs@[r] as int) * (y.dists@[0].st_procs@[q] as int)
        + c * (y.dists@[0].sz_procs@[q] as int) + (i - y.dists@[0].st_procs@[q])] by {
        assert(crate::decomp2::yx_slot(y, x, q, c, i));
    }
}

/// One cell of a scatter or gather along axis 0 of the y-pencil: rank `q`
/// and an offset inside its block of rows.
pub open spec fn gy_cell(y: Pencil, q: int, off: int) -> bool {
    &&& 0 <= q < y.dists@[0].nprocs()
    &&& 0 <= off < (y.dists@[0].sz_procs@[q] as int) * (y.n_global@[1] as int)
}

/// Gather/scatter inverse along axis 0 of the y-pencil: scattering a
/// global array hands each rank its block of rows, and gathering those
/// blocks back in rank order reproduces the global array exactly.
pub proof fn lemma_scatter_gather_y_inverse<T>(
    y: Pencil,
    g: Seq<T>,
    locals: Seq<Seq<T>>,
    gbuf: Seq<T>,
)
    requires
        y.wf(),
        y.ndim() == 2,
        y.axis_contig == 1,
        g.len() == (y.n_global@[0] as int) * (y.n_global@[1] as int),
        locals.len() == y.dists@[0].nprocs(),
        forall|q: int|
            0 <= q < locals.len() ==> (#[trigger] locals[q]).len() == (
            y.dists@[0].sz_procs@[q] as int) * (y.n_global@[1] as int),
        forall|q: int, off: int|
            #[trigger] gy_cell(y, q, off) ==> locals[q][off] == g[(y.dists@[0].st_procs@[q] as int)
                * (y.n_global@[1] as int) + off],
        gbuf.len() == g.len(),
        forall|q: int, off: int|
            #[trigger] gy_cell(y, q, off) ==> gbuf[(y.dists@[0].st_procs@[q] as int) * (
            y.n_global@[1] as int) + off] == locals[q][off],
    ensures
        gbuf == g,
{
    let t0 = y.dists@[0];
    let n0 = y.n_global@[0] as int;
    let n1 = y.n_global@[1] as int;
    lemma_pencil_dist_wf(y, 0);
    assert forall|pos: int| 0 <= pos < gbuf.len() implies gbuf[pos] == g[pos] by {
        lemma_index2_decompose(n0, n1, pos);
        let i = pos / n1;
        let j = pos % n1;
        lemma_table_owner(t0, n0, i);
        let q = table_owner(t0, i);
        let stq = t0.st_procs@[q] as int;
        let szq = t0.sz_procs@[q] as int;
        lemma_table_row_bounds(t0, n0, q);
        let off = (i - stq) * n1 + j;
        lemma_index2_bounds(szq, n1, i - stq, j);
        assert(gy_cell(y, q, off));
        assert(stq * n1 + ((i - stq) * n1 + j) == i * n1 + j) by (nonlinear_arith);
        assert(gbuf[stq * n1 + off] == locals[q][off]);
        assert(locals[q][off] == g[stq * n1 + off]);
        assert(gbuf[pos] == g[pos]);
    }
    assert(gbuf =~= g);
}

/// One row-column cell of rank `q`'s block in a scatter or gather along
/// axis 1 of the x-pencil.
pub open spec fn gx_pos(x: Pencil, q: int, i: int, jl: int) -> bool {
    &&& 0 <= q < x.dists@[1].nprocs()
    &&& 0 <= i < x.n_global@[0]
    &&& 0 <= jl < x.dists@[1].sz_procs@[q]
}

/// One flat offset into rank `q`'s segment in a scatter or gather along
/// axis 1 of the x-pencil.
pub open spec fn gx_off(x: Pencil, q: int, off: int) -> bool {
    &&& 0 <= q < x.dists@[1].nprocs()
    &&& 0 <= off < (x.n_global@[0] as int) * (x.dists@[1].sz_procs@[q] as int)
}

/// Gather/scatter inverse along axis 1 of the x-pencil: the root packs the
/// global array with the axes swapped, each rank receives and unswaps its
/// segment, packs it again for the gather, and the root's reassembled and
/// unswapped array is the original.  Each hypothesis is one step's
/// contract; the conclusion is exact equality.
pub proof fn lemma_scatter_gather_x_inverse<T>(
    x: Pencil,
    g: Seq<T>,
    packed: Seq<T>,
    segs: Seq<Seq<T>>,
    locals: Seq<Seq<T>>,
    bufs: Seq<Seq<T>>,
    gbuf: Seq<T>,
    out: Seq<T>,
)
    requires
        x.wf(),
        x.ndim() == 2,
        x.axis_contig == 0,
        g.len() == (x.n_global@[0] as int) * (x.n_global@[1] as int),
        packed.len() == g.len(),
        // root pack for the scatter: axes swapped
        forall|i: int, j: int|
            0 <= i < x.n_global@[0] && 0 <= j < x.n_global@[1] ==> #[trigger] packed[j * (
            x.n_global@[0] as int) + i] == g[i * (x.n_global@[1] as int) + j],
        segs.len() == x.dists@[1].nprocs(),
        locals.len() == segs.len(),
        bufs.len() == segs.len(),
        // the scatter hands rank q its segment of the packed array
        forall|q: int, off: int|
            #[trigger] gx_off(x, q, off) ==> segs[q][off] == packed[(x.n_global@[0] as int) * (
            x.dists@[1].st_procs@[q] as int) + off],
        forall|q: int|
            0 <= q < locals.len() ==> (#[trigger] locals[q]).len() == (x.n_global@[0] as int) * (
            x.dists@[1].sz_procs@[q] as int),
        // each rank unswaps its segment into x-pencil layout
        forall|q: int, i: int, jl: int|
            #[trigger] gx_pos(x, q, i, jl) ==> locals[q][i * (x.dists@[1].sz_procs@[q] as int)
                + jl] == segs[q][jl * (x.n_global@[0] as int) + i],
        // each rank packs its local array again for the gather
        forall|q: int, i: int, jl: int|
            #[trigger] gx_pos(x, q, i, jl) ==> bufs[q][jl * (x.n_global@[0] as int) + i]
                == locals[q][i * (x.dists@[1].sz_procs@[q] as int) + jl],
        // the gather concatenates the per-rank buffers at their
        // displacements
        gbuf.len() == g.len(),
        forall|q: int, off: int|
            #[trigger] gx_off(x, q, off) ==> gbuf[(x.n_global@[0] as int) * (
            x.dists@[1].st_procs@[q] as int) + off] == bufs[q][off],
        // the root unswaps the gathered buffer
        out.len() == g.len(),
        forall|i: int, j: int|
            0 <= i < x.n_global@[0] && 0 <= j < x.n_global@[1] ==> #[trigger] out[i * (
            x.n_global@[1] as int) + j] == gbuf[j * (x.n_global@[0] as int) + i],
    ensures
        out == g,
{
    let t1 = x.dists@[1];
    let n0 = x.n_global@[0] as int;
    let n1 = x.n_global@[1] as int;
    lemma_pencil_dist_wf(x, 1);
    assert forall|pos: int| 0 <= pos < out.len() implies out[pos] == g[pos] by {
        lemma_index2_decompose(n0, n1, pos);
        let i = pos / n1;
        let j = pos % n1;
        lemma_table_owner(t1, n1, j);
        let q = table_owner(t1, j);
        let stq = t1.st_procs@[q] as int;
        let szq = t1.sz_procs@[q] as int;
        lemma_table_row_bounds(t1, n1, q);
        let jl = j - stq;
        let off = jl * n0 + i;
        lemma_index2_bounds(szq, n0, jl, i);
        assert((szq) * (n0) == (n0) * (szq)) by (nonlinear_arith);
        assert(gx_off(x, q, off));
        assert(gx_pos(x, q, i, jl));
        assert(n0 * stq + (jl * n0 + i) == j * n0 + i) by (nonlinear_arith)
            requires
                jl == j - stq,
        ;
        assert(gbuf[n0 * stq + off] == bufs[q][off]);
        assert(bufs[q][jl * n0 + i] == locals[q][i * szq + jl]);
        assert(locals[q][i * szq + jl] == segs[q][jl * n0 + i]);
        assert(segs[q][off] == packed[n0 * stq + off]);
        assert(packed[j * n0 + i] == g[i * n1 + j]);
        assert(out[i * n1 + j] == gbuf[j * n0 + i]);
        assert(out[pos] == g[pos]);
    }
    assert(out =~= g);
}

} // verus!
