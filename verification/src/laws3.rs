//! Correctness laws of the three-dimensional transpose engine, stated
//! against global indexing.
//!
//! A three-dimensional transpose exchanges data along one process-grid
//! dimension while the other dimension — the *spectator* axis of the
//! moment — stays put.  The predicates here therefore describe local
//! arrays over an explicit spectator slab (`st`, `sz` of the axis held
//! fixed) and the chunk tables of the two axes that swap roles; the
//! lemmas prove that each of the four supported transposes moves
//! `f(global index)` to `f(global index)`, and that each pair transposed
//! there and back returns the original array.

use vstd::prelude::*;

use crate::laws::lemma_table_owner;
use crate::laws::table_owner;
use crate::math::lemma_index2_decompose;
use crate::pencil::Pencil;
use crate::pencil::lemma_pencil_dist_wf;
use crate::pencil::lemma_table_row_bounds;

verus! {

/// A local x-pencil block holds `f` of the global index: full axis 0,
/// chunk `[st1, st1 + sz1)` of axis 1, spectator slab `[st2, st2 + sz2)`
/// of axis 2.
pub open spec fn x3_holds<T>(
    n0: int,
    st1: int,
    sz1: int,
    st2: int,
    sz2: int,
    data: Seq<T>,
    f: spec_fn(int, int, int) -> T,
) -> bool {
    &&& data.len() == n0 * (sz1 * sz2)
    &&& forall|i: int, b: int, c: int|
        0 <= i < n0 && 0 <= b < sz1 && 0 <= c < sz2 ==> #[trigger] data[i * (sz1 * sz2) + b * sz2
            + c] == f(i, st1 + b, st2 + c)
}

/// A local y-pencil block holds `f` of the global index: spectator slab
/// `[st0, st0 + sz0)` of axis 0, full axis 1, slab `[st2, st2 + sz2)` of
/// axis 2.
pub open spec fn y3_holds<T>(
    n1: int,
    st0: int,
    sz0: int,
    st2: int,
    sz2: int,
    data: Seq<T>,
    f: spec_fn(int, int, int) -> T,
) -> bool {
    &&& data.len() == sz0 * (n1 * sz2)
    &&& forall|a: int, j: int, c: int|
        0 <= a < sz0 && 0 <= j < n1 && 0 <= c < sz2 ==> #[trigger] data[a * (n1 * sz2) + j * sz2
            + c] == f(st0 + a, j, st2 + c)
}

/// A local z-pencil block holds `f` of the global index: spectator slab
/// `[st0, st0 + sz0)` of axis 0, chunk `[st1, st1 + sz1)` of axis 1, full
/// axis 2.
pub open spec fn z3_holds<T>(
    n2: int,
    st0: int,
    sz0: int,
    st1: int,
    sz1: int,
    data: Seq<T>,
    f: spec_fn(int, int, int) -> T,
) -> bool {
    &&& data.len() == sz0 * (sz1 * n2)
    &&& forall|i: int, j: int, k: int|
        0 <= i < sz0 && 0 <= j < sz1 && 0 <= k < n2 ==> #[trigger] data[i * (sz1 * n2) + j * n2
            + k] == f(st0 + i, st1 + j, k)
}

/// One cell of the exchange of a three-dimensional x-to-y transpose.
pub open spec fn xy3_cell(x: Pencil, y: Pencil, r: int, sz2: int, q: int, a: int, b: int, c: int) -> bool {
    &&& 0 <= q < x.dists@[1].nprocs()
    &&& 0 <= r < y.dists@[0].nprocs()
    &&& 0 <= a < y.dists@[0].sz_procs@[r]
    &&& 0 <= b < x.dists@[1].sz_procs@[q]
    &&& 0 <= c < sz2
}

/// The receive buffer of rank `r` after the exchange of a
/// three-dimensional x-to-y transpose over a spectator slab of depth
/// `sz2`.
pub open spec fn xy3_exchanged<T>(
    x: Pencil,
    y: Pencil,
    r: int,
    sz2: int,
    snds: Seq<Seq<T>>,
    rbuf: Seq<T>,
) -> bool {
    let t0 = y.dists@[0];
    let t1 = x.dists@[1];
    let szr = t0.sz_procs@[r] as int;
    let str0 = t0.st_procs@[r] as int;
    &&& rbuf.len() == szr * ((x.n_global@[1] as int) * sz2)
    &&& forall|q: int, a: int, b: int, c: int|
        #[trigger] xy3_cell(x, y, r, sz2, q, a, b, c) ==> rbuf[szr * sz2 * (
        t1.st_procs@[q] as int) + a * ((t1.sz_procs@[q] as int) * sz2) + b * sz2 + c] == snds[q][(
        str0 + a) * ((t1.sz_procs@[q] as int) * sz2) + b * sz2 + c]
}

/// One destination slot of the three-dimensional x-to-y unpack at rank
/// `r`, over the chunk tables alone.
pub open spec fn xy3_slot_at(x: Pencil, y: Pencil, r: int, sz2: int, q: int, i: int, j: int, k: int) -> bool {
    &&& 0 <= q < x.dists@[1].nprocs()
    &&& 0 <= r < y.dists@[0].nprocs()
    &&& 0 <= i < y.dists@[0].sz_procs@[r]
    &&& x.dists@[1].st_procs@[q] <= j <= x.dists@[1].en_procs@[q]
    &&& 0 <= k < sz2
}

/// What the three-dimensional x-to-y unpack at rank `r` guarantees of its
/// output, over the chunk tables alone.
pub open spec fn merge_xy3_post<T>(
    x: Pencil,
    y: Pencil,
    r: int,
    sz2: int,
    rbuf: Seq<T>,
    out: Seq<T>,
) -> bool {
    let t0 = y.dists@[0];
    let t1 = x.dists@[1];
    let szr = t0.sz_procs@[r] as int;
    let n1 = x.n_global@[1] as int;
    &&& out.len() == szr * (n1 * sz2)
    &&& forall|q: int, i: int, j: int, k: int|
        #[trigger] xy3_slot_at(x, y, r, sz2, q, i, j, k) ==> out[i * (n1 * sz2) + j * sz2 + k]
            == rbuf[szr * sz2 * (t1.st_procs@[q] as int) + i * ((t1.sz_procs@[q] as int) * sz2) + (
        j - t1.st_procs@[q]) * sz2 + k]
}

/// Transpose correctness against global indexing, x to y, in three
/// dimensions: when every rank of the exchange line holds `f` over the
/// shared spectator slab, rank `r`'s unpacked output holds `f` as well.
#[verifier::rlimit(100)]
#[verifier::spinoff_prover]
pub proof fn lemma_transpose3_x_to_y_correct<T>(
    x: Pencil,
    y: Pencil,
    r: int,
    st2: int,
    sz2: int,
    snds: Seq<Seq<T>>,
    rbuf: Seq<T>,
    out: Seq<T>,
    f: spec_fn(int, int, int) -> T,
)
    requires
        crate::decomp3::xy3_tables(x, y),
        0 <= r < y.dists@[0].nprocs(),
        0 <= sz2,
        snds.len() == x.dists@[1].nprocs(),
        forall|q: int|
            0 <= q < snds.len() ==> x3_holds(
                x.n_global@[0] as int,
                x.dists@[1].st_procs@[q] as int,
                x.dists@[1].sz_procs@[q] as int,
                st2,
                sz2,
                #[trigger] snds[q],
                f,
            ),
        xy3_exchanged(x, y, r, sz2, snds, rbuf),
        merge_xy3_post(x, y, r, sz2, rbuf, out),
    ensures
        y3_holds(
            x.n_global@[1] as int,
            y.dists@[0].st_procs@[r] as int,
            y.dists@[0].sz_procs@[r] as int,
            st2,
            sz2,
            out,
            f,
        ),
{
    let t0 = y.dists@[0];
    let t1 = x.dists@[1];
    let n0 = x.n_global@[0] as int;
    let n1 = x.n_global@[1] as int;
    let szr = t0.sz_procs@[r] as int;
    let str0 = t0.st_procs@[r] as int;
    lemma_pencil_dist_wf(y, 0);
    lemma_pencil_dist_wf(x, 1);
    lemma_table_row_bounds(t0, n0, r);
    assert forall|a: int, j: int, c: int|
        0 <= a < szr && 0 <= j < n1 && 0 <= c < sz2 implies #[trigger] out[a * (n1 * sz2) + j * sz2
        + c] == f(str0 + a, j, st2 + c) by {
        lemma_table_owner(t1, n1, j);
        let q = table_owner(t1, j);
        let stq = t1.st_procs@[q] as int;
        let szq = t1.sz_procs@[q] as int;
        lemma_table_row_bounds(t1, n1, q);
        let b = j - stq;
        assert(xy3_slot_at(x, y, r, sz2, q, a, j, c));
        assert(out[a * (n1 * sz2) + j * sz2 + c] == rbuf[szr * sz2 * stq + a * (szq * sz2) + b
            * sz2 + c]);
        assert(xy3_cell(x, y, r, sz2, q, a, b, c));
        assert(rbuf[szr * sz2 * stq + a * (szq * sz2) + b * sz2 + c] == snds[q][(str0 + a) * (szq
            * sz2) + b * sz2 + c]);
        assert(x3_holds(n0, stq, szq, st2, sz2, snds[q], f));
        assert(0 <= str0 + a < n0);
        assert(snds[q][(str0 + a) * (szq * sz2) + b * sz2 + c] == f(str0 + a, stq + b, st2 + c));
    }
}

/// One cell of the exchange of a three-dimensional y-to-x transpose.
pub open spec fn yx3_cell(y: Pencil, x: Pencil, r: int, sz2: int, q: int, a: int, jl: int, c: int) -> bool {
    &&& 0 <= q < y.dists@[0].nprocs()
    &&& 0 <= r < x.dists@[1].nprocs()
    &&& 0 <= a < y.dists@[0].sz_procs@[q]
    &&& 0 <= jl < x.dists@[1].sz_procs@[r]
    &&& 0 <= c < sz2
}

/// The receive buffer of rank `r` after the exchange of a
/// three-dimensional y-to-x transpose over a spectator slab of depth
/// `sz2`.
pub open spec fn yx3_exchanged<T>(
    y: Pencil,
    x: Pencil,
    r: int,
    sz2: int,
    snds: Seq<Seq<T>>,
    rbuf: Seq<T>,
) -> bool {
    let t0 = y.dists@[0];
    let t1 = x.dists@[1];
    let szr = t1.sz_procs@[r] as int;
    let str1 = t1.st_procs@[r] as int;
    let n1 = y.n_global@[1] as int;
    &&& rbuf.len() == (y.n_global@[0] as int) * (szr * sz2)
    &&& forall|q: int, a: int, jl: int, c: int|
        #[trigger] yx3_cell(y, x, r, sz2, q, a, jl, c) ==> rbuf[szr * sz2 * (
        t0.st_procs@[q] as int) + jl * ((t0.sz_procs@[q] as int) * sz2) + a * sz2 + c] == snds[q][a
        * (n1 * sz2) + (str1 + jl) * sz2 + c]
}

/// One destination slot of the three-dimensional y-to-x unpack at rank
/// `r`, over the chunk tables alone.
pub open spec fn yx3_slot_at(y: Pencil, x: Pencil, r: int, sz2: int, q: int, jl: int, i: int, k: int) -> bool {
    &&& 0 <= q < y.dists@[0].nprocs()
    &&& 0 <= r < x.dists@[1].nprocs()
    &&& 0 <= jl < x.dists@[1].sz_procs@[r]
    &&& y.dists@[0].st_procs@[q] <= i <= y.dists@[0].en_procs@[q]
    &&& 0 <= k < sz2
}

/// What the three-dimensional y-to-x unpack at rank `r` guarantees of its
/// output, over the chunk tables alone.
pub open spec fn merge_yx3_post<T>(
    y: Pencil,
    x: Pencil,
    r: int,
    sz2: int,
    rbuf: Seq<T>,
    out: Seq<T>,
) -> bool {
    let t0 = y.dists@[0];
    let t1 = x.dists@[1];
    let szr = t1.sz_procs@[r] as int;
    let n0 = y.n_global@[0] as int;
    &&& out.len() == n0 * (szr * sz2)
    &&& forall|q: int, jl: int, i: int, k: int|
        #[trigger] yx3_slot_at(y, x, r, sz2, q, jl, i, k) ==> out[i * (szr * sz2) + jl * sz2 + k]
            == rbuf[szr * sz2 * (t0.st_procs@[q] as int) + jl * ((t0.sz_procs@[q] as int) * sz2) + (
        i - t0.st_procs@[q]) * sz2 + k]
}

/// Transpose correctness against global indexing, y to x, in three
/// dimensions.
#[verifier::rlimit(100)]
#[verifier::spinoff_prover]
pub proof fn lemma_transpose3_y_to_x_correct<T>(
    y: Pencil,
    x: Pencil,
    r: int,
    st2: int,
    sz2: int,
    snds: Seq<Seq<T>>,
    rbuf: Seq<T>,
    out: Seq<T>,
    f: spec_fn(int, int, int) -> T,
)
    requires
        crate::decomp3::xy3_tables(x, y),
        0 <= r < x.dists@[1].nprocs(),
        0 <= sz2,
        snds.len() == y.dists@[0].nprocs(),
        forall|q: int|
            0 <= q < snds.len() ==> y3_holds(
                y.n_global@[1] as int,
                y.dists@[0].st_procs@[q] as int,
                y.dists@[0].sz_procs@[q] as int,
                st2,
                sz2,
                #[trigger] snds[q],
                f,
            ),
        yx3_exchanged(y, x, r, sz2, snds, rbuf),
        merge_yx3_post(y, x, r, sz2, rbuf, out),
    ensures
        x3_holds(
            x.n_global@[0] as int,
            x.dists@[1].st_procs@[r] as int,
            x.dists@[1].sz_procs@[r] as int,
            st2,
            sz2,
            out,
            f,
        ),
{
    let t0 = y.dists@[0];
    let t1 = x.dists@[1];
    let n0 = x.n_global@[0] as int;
    let n1 = x.n_global@[1] as int;
    let szr = t1.sz_procs@[r] as int;
    let str1 = t1.st_procs@[r] as int;
    lemma_pencil_dist_wf(y, 0);
    lemma_pencil_dist_wf(x, 1);
    lemma_table_row_bounds(t1, n1, r);
    assert forall|i: int, jl: int, c: int|
        0 <= i < n0 && 0 <= jl < szr && 0 <= c < sz2 implies #[trigger] out[i * (szr * sz2) + jl
        * sz2 + c] == f(i, str1 + jl, st2 + c) by {
        lemma_table_owner(t0, n0, i);
        let q = table_owner(t0, i);
        let stq = t0.st_procs@[q] as int;
        let szq = t0.sz_procs@[q] as int;
        lemma_table_row_bounds(t0, n0, q);
        let a = i - stq;
        assert(yx3_slot_at(y, x, r, sz2, q, jl, i, c));
        assert(out[i * (szr * sz2) + jl * sz2 + c] == rbuf[szr * sz2 * stq + jl * (szq * sz2) + a
            * sz2 + c]);
        assert(yx3_cell(y, x, r, sz2, q, a, jl, c));
        assert(rbuf[szr * sz2 * stq + jl * (szq * sz2) + a * sz2 + c] == snds[q][a * (n1 * sz2) + (
        str1 + jl) * sz2 + c]);
        assert(y3_holds(n1, stq, szq, st2, sz2, snds[q], f));
        assert(0 <= str1 + jl < n1);
        assert(snds[q][a * (n1 * sz2) + (str1 + jl) * sz2 + c] == f(stq + a, str1 + jl, st2 + c));
    }
}

/// One cell of the exchange of a three-dimensional y-to-z transpose.
pub open spec fn yz3_cell(y: Pencil, z: Pencil, r: int, sz0: int, q: int, a: int, jl: int, c: int) -> bool {
    &&& 0 <= q < y.dists@[2].nprocs()
    &&& 0 <= r < z.dists@[1].nprocs()
    &&& 0 <= a < sz0
    &&& 0 <= jl < z.dists@[1].sz_procs@[r]
    &&& 0 <= c < y.dists@[2].sz_procs@[q]
}

/// The receive buffer of rank `r` after the exchange of a
/// three-dimensional y-to-z transpose over a spectator slab of depth
/// `sz0`.
pub open spec fn yz3_exchanged<T>(
    y: Pencil,
    z: Pencil,
    r: int,
    sz0: int,
    snds: Seq<Seq<T>>,
    rbuf: Seq<T>,
) -> bool {
    let t2 = y.dists@[2];
    let t1 = z.dists@[1];
    let szr = t1.sz_procs@[r] as int;
    let str1 = t1.st_procs@[r] as int;
    &&& rbuf.len() == sz0 * (szr * (y.n_global@[2] as int))
    &&& forall|q: int, a: int, jl: int, c: int|
        #[trigger] yz3_cell(y, z, r, sz0, q, a, jl, c) ==> rbuf[sz0 * szr * (
        t2.st_procs@[q] as int) + jl * (sz0 * (t2.sz_procs@[q] as int)) + a * (
        t2.sz_procs@[q] as int) + c] == snds[q][a * ((y.n_global@[1] as int) * (
        t2.sz_procs@[q] as int)) + (str1 + jl) * (t2.sz_procs@[q] as int) + c]
}

/// One destination slot of the three-dimensional y-to-z unpack at rank
/// `r`, over the chunk tables alone.
pub open spec fn yz3_slot_at(y: Pencil, z: Pencil, r: int, sz0: int, q: int, jl: int, i: int, k: int) -> bool {
    &&& 0 <= q < y.dists@[2].nprocs()
    &&& 0 <= r < z.dists@[1].nprocs()
    &&& 0 <= jl < z.dists@[1].sz_procs@[r]
    &&& 0 <= i < sz0
    &&& y.dists@[2].st_procs@[q] <= k <= y.dists@[2].en_procs@[q]
}

/// What the three-dimensional y-to-z unpack at rank `r` guarantees of its
/// output, over the chunk tables alone.
pub open spec fn merge_yz3_post<T>(
    y: Pencil,
    z: Pencil,
    r: int,
    sz0: int,
    rbuf: Seq<T>,
    out: Seq<T>,
) -> bool {
    let t2 = y.dists@[2];
    let t1 = z.dists@[1];
    let szr = t1.sz_procs@[r] as int;
    let n2 = y.n_global@[2] as int;
    &&& out.len() == sz0 * (szr * n2)
    &&& forall|q: int, jl: int, i: int, k: int|
        #[trigger] yz3_slot_at(y, z, r, sz0, q, jl, i, k) ==> out[i * (szr * n2) + jl * n2 + k]
            == rbuf[sz0 * szr * (t2.st_procs@[q] as int) + jl * (sz0 * (t2.sz_procs@[q] as int))
            + i * (t2.sz_procs@[q] as int) + (k - t2.st_procs@[q])]
}

/// Transpose correctness against global indexing, y to z, in three
/// dimensions.
#[verifier::rlimit(100)]
#[verifier::spinoff_prover]
pub proof fn lemma_transpose3_y_to_z_correct<T>(
    y: Pencil,
    z: Pencil,
    r: int,
    st0: int,
    sz0: int,
    snds: Seq<Seq<T>>,
    rbuf: Seq<T>,
    out: Seq<T>,
    f: spec_fn(int, int, int) -> T,
)
    requires
        crate::decomp3::yz3_tables(y, z),
        0 <= r < z.dists@[1].nprocs(),
        0 <= sz0,
        snds.len() == y.dists@[2].nprocs(),
        forall|q: int|
            0 <= q < snds.len() ==> y3_holds(
                y.n_global@[1] as int,
                st0,
                sz0,
                y.dists@[2].st_procs@[q] as int,
                y.dists@[2].sz_procs@[q] as int,
                #[trigger] snds[q],
                f,
            ),
        yz3_exchanged(y, z, r, sz0, snds, rbuf),
        merge_yz3_post(y, z, r, sz0, rbuf, out),
    ensures
        z3_holds(
            y.n_global@[2] as int,
            st0,
            sz0,
            z.dists@[1].st_procs@[r] as int,
            z.dists@[1].sz_procs@[r] as int,
            out,
            f,
        ),
{
    let t2 = y.dists@[2];
    let t1 = z.dists@[1];
    let n1 = y.n_global@[1] as int;
    let n2 = y.n_global@[2] as int;
    let szr = t1.sz_procs@[r] as int;
    let str1 = t1.st_procs@[r] as int;
    lemma_pencil_dist_wf(y, 2);
    lemma_pencil_dist_wf(z, 1);
    lemma_table_row_bounds(t1, n1, r);
    assert forall|i: int, jl: int, k: int|
        0 <= i < sz0 && 0 <= jl < szr && 0 <= k < n2 implies #[trigger] out[i * (szr * n2) + jl
        * n2 + k] == f(st0 + i, str1 + jl, k) by {
        lemma_table_owner(t2, n2, k);
        let q = table_owner(t2, k);
        let stq = t2.st_procs@[q] as int;
        let szq = t2.sz_procs@[q] as int;
        lemma_table_row_bounds(t2, n2, q);
        let c = k - stq;
        assert(yz3_slot_at(y, z, r, sz0, q, jl, i, k));
        assert(out[i * (szr * n2) + jl * n2 + k] == rbuf[sz0 * szr * stq + jl * (sz0 * szq) + i
            * szq + c]);
        assert(yz3_cell(y, z, r, sz0, q, i, jl, c));
        assert(rbuf[sz0 * szr * stq + jl * (sz0 * szq) + i * szq + c] == snds[q][i * (n1 * szq) + (
        str1 + jl) * szq + c]);
        assert(y3_holds(n1, st0, sz0, stq, szq, snds[q], f));
        assert(0 <= str1 + jl < n1);
        assert(snds[q][i * (n1 * szq) + (str1 + jl) * szq + c] == f(st0 + i, str1 + jl, stq + c));
    }
}

/// One cell of the exchange of a three-dimensional z-to-y transpose.
pub open spec fn zy3_cell(z: Pencil, y: Pencil, r: int, sz0: int, q: int, k: int, jl: int, i: int) -> bool {
    &&& 0 <= q < z.dists@[1].nprocs()
    &&& 0 <= r < y.dists@[2].nprocs()
    &&& 0 <= k < y.dists@[2].sz_procs@[r]
    &&& 0 <= jl < z.dists@[1].sz_procs@[q]
    &&& 0 <= i < sz0
}

/// The receive buffer of rank `r` after the exchange of a
/// three-dimensional z-to-y transpose over a spectator slab of depth
/// `sz0`.
pub open spec fn zy3_exchanged<T>(
    z: Pencil,
    y: Pencil,
    r: int,
    sz0: int,
    snds: Seq<Seq<T>>,
    rbuf: Seq<T>,
) -> bool {
    let t1 = z.dists@[1];
    let t2 = y.dists@[2];
    let szr = t2.sz_procs@[r] as int;
    let str2 = t2.st_procs@[r] as int;
    &&& rbuf.len() == sz0 * ((y.n_global@[1] as int) * szr)
    &&& forall|q: int, k: int, jl: int, i: int|
        #[trigger] zy3_cell(z, y, r, sz0, q, k, jl, i) ==> rbuf[sz0 * szr * (
        t1.st_procs@[q] as int) + k * ((t1.sz_procs@[q] as int) * sz0) + jl * sz0 + i] == snds[q][i
        * ((t1.sz_procs@[q] as int) * (y.n_global@[2] as int)) + jl * (y.n_global@[2] as int) + (
        str2 + k)]
}

/// One destination slot of the three-dimensional z-to-y unpack at rank
/// `r`, over the chunk tables alone.
pub open spec fn zy3_slot_at(z: Pencil, y: Pencil, r: int, sz0: int, q: int, k: int, j: int, i: int) -> bool {
    &&& 0 <= q < z.dists@[1].nprocs()
    &&& 0 <= r < y.dists@[2].nprocs()
    &&& 0 <= k < y.dists@[2].sz_procs@[r]
    &&& z.dists@[1].st_procs@[q] <= j <= z.dists@[1].en_procs@[q]
    &&& 0 <= i < sz0
}

/// What the three-dimensional z-to-y unpack at rank `r` guarantees of its
/// output, over the chunk tables alone.
pub open spec fn merge_zy3_post<T>(
    z: Pencil,
    y: Pencil,
    r: int,
    sz0: int,
    rbuf: Seq<T>,
    out: Seq<T>,
) -> bool {
    let t1 = z.dists@[1];
    let t2 = y.dists@[2];
    let szr = t2.sz_procs@[r] as int;
    let n1 = y.n_global@[1] as int;
    &&& out.len() == sz0 * (n1 * szr)
    &&& forall|q: int, k: int, j: int, i: int|
        #[trigger] zy3_slot_at(z, y, r, sz0, q, k, j, i) ==> out[i * (n1 * szr) + j * szr + k]
            == rbuf[sz0 * szr * (t1.st_procs@[q] as int) + k * ((t1.sz_procs@[q] as int) * sz0) + (
        j - t1.st_procs@[q]) * sz0 + i]
}

/// Transpose correctness against global indexing, z to y, in three
/// dimensions.
#[verifier::rlimit(100)]
#[verifier::spinoff_prover]
pub proof fn lemma_transpose3_z_to_y_correct<T>(
    z: Pencil,
    y: Pencil,
    r: int,
    st0: int,
    sz0: int,
    snds: Seq<Seq<T>>,
    rbuf: Seq<T>,
    out: Seq<T>,
    f: spec_fn(int, int, int) -> T,
)
    requires
        crate::decomp3::yz3_tables(y, z),
        0 <= r < y.dists@[2].nprocs(),
        0 <= sz0,
        snds.len() == z.dists@[1].nprocs(),
        forall|q: int|
            0 <= q < snds.len() ==> z3_holds(
                y.n_global@[2] as int,
                st0,
                sz0,
                z.dists@[1].st_procs@[q] as int,
                z.dists@[1].sz_procs@[q] as int,
                #[trigger] snds[q],
                f,
            ),
        zy3_exchanged(z, y, r, sz0, snds, rbuf),
        merge_zy3_post(z, y, r, sz0, rbuf, out),
    ensures
        y3_holds(
            y.n_global@[1] as int,
            st0,
            sz0,
            y.dists@[2].st_procs@[r] as int,
            y.dists@[2].sz_procs@[r] as int,
            out,
            f,
        ),
{
    let t1 = z.dists@[1];
    let t2 = y.dists@[2];
    let n1 = y.n_global@[1] as int;
    let n2 = y.n_global@[2] as int;
    let szr = t2.sz_procs@[r] as int;
    let str2 = t2.st_procs@[r] as int;
    lemma_pencil_dist_wf(z, 1);
    lemma_pencil_dist_wf(y, 2);
    lemma_table_row_bounds(t2, n2, r);
    assert forall|i: int, j: int, k: int|
        0 <= i < sz0 && 0 <= j < n1 && 0 <= k < szr implies #[trigger] out[i * (n1 * szr) + j * szr
        + k] == f(st0 + i, j, str2 + k) by {
        lemma_table_owner(t1, n1, j);
        let q = table_owner(t1, j);
        let stq = t1.st_procs@[q] as int;
        let szq = t1.sz_procs@[q] as int;
        lemma_table_row_bounds(t1, n1, q);
        let jl = j - stq;
        assert(zy3_slot_at(z, y, r, sz0, q, k, j, i));
        assert(out[i * (n1 * szr) + j * szr + k] == rbuf[sz0 * szr * stq + k * (szq * sz0) + jl
            * sz0 + i]);
        assert(zy3_cell(z, y, r, sz0, q, k, jl, i));
        assert(rbuf[sz0 * szr * stq + k * (szq * sz0) + jl * sz0 + i] == snds[q][i * (szq * n2)
            + jl * n2 + (str2 + k)]);
        assert(z3_holds(n2, st0, sz0, stq, szq, snds[q], f));
        assert(0 <= str2 + k < n2);
        assert(snds[q][i * (szq * n2) + jl * n2 + (str2 + k)] == f(st0 + i, stq + jl, str2 + k));
    }
}

/// The contract of the executable three-dimensional x-to-y unpack, stated
/// at the calling process in terms of its own pencil values, implies the
/// rank-indexed unpack description at that process's position: rank
/// `coords[0]` of the exchange line, with its own axis-2 chunk as the
/// spectator slab.
pub proof fn lemma_merge_xy3_post_here<T>(x: Pencil, y: Pencil, rbuf: Seq<T>, out: Seq<T>)
    requires
        crate::decomp3::xy3_tables(x, y),
        y.comm.coords@.len() == 2,
        out.len() == y.spec_len(),
        forall|q: int, i: int, j: int, k: int|
            #[trigger] crate::decomp3::xy_slot(x, y, q, i, j, k) ==> out[i * (y.spec_size(1)
                * y.spec_size(2)) + j * y.spec_size(2) + k] == rbuf[crate::decomp3::xy_src(
                x,
                y,
                q,
                i,
                j,
                k,
            )],
    ensures
        merge_xy3_post(x, y, y.comm.coords@[0] as int, y.spec_size(2), rbuf, out),
{
    let r = y.comm.coords@[0] as int;
    let sz2 = y.spec_size(2);
    let t0 = y.dists@[0];
    crate::pencil::lemma_len3(y);
    crate::pencil::lemma_contig_size(y);
    assert(y.dists@[0].is_for(
        y.n_global@[0] as int,
        y.comm.dims@[0] as int,
        y.comm.coords@[0] as int,
    ));
    assert(y.spec_size(0) == t0.sz_procs@[r]);
    assert forall|q: int, i: int, j: int, k: int|
        #[trigger] xy3_slot_at(x, y, r, sz2, q, i, j, k) implies out[i * ((x.n_global@[1] as int)
        * sz2) + j * sz2 + k] == rbuf[(t0.sz_procs@[r] as int) * sz2 * (
    x.dists@[1].st_procs@[q] as int) + i * ((x.dists@[1].sz_procs@[q] as int) * sz2) + (j
        - x.dists@[1].st_procs@[q]) * sz2 + k] by {
        assert(crate::decomp3::xy_slot(x, y, q, i, j, k));
    }
}

/// The contract of the executable three-dimensional y-to-x unpack, at the
/// calling process, implies the rank-indexed unpack description at rank
/// `coords[0]`, with the process's axis-2 chunk as the spectator slab.
pub proof fn lemma_merge_yx3_post_here<T>(y: Pencil, x: Pencil, rbuf: Seq<T>, out: Seq<T>)
    requires
        crate::decomp3::xy3_tables(x, y),
        x.comm.coords@.len() == 2,
        out.len() == x.spec_len(),
        forall|q: int, jl: int, i: int, k: int|
            #[trigger] crate::decomp3::yx_slot(y, x, q, jl, i, k) ==> out[i * (x.spec_size(1)
                * x.spec_size(2)) + jl * x.spec_size(2) + k] == rbuf[crate::decomp3::yx_src(
                y,
                x,
                q,
                jl,
                i,
                k,
            )],
    ensures
        merge_yx3_post(y, x, x.comm.coords@[0] as int, x.spec_size(2), rbuf, out),
{
    let r = x.comm.coords@[0] as int;
    let sz2 = x.spec_size(2);
    let t1 = x.dists@[1];
    crate::pencil::lemma_len3(x);
    crate::pencil::lemma_contig_size(x);
    assert(x.dists@[1].is_for(
        x.n_global@[1] as int,
        x.comm.dims@[0] as int,
        x.comm.coords@[0] as int,
    ));
    assert(x.spec_size(1) == t1.sz_procs@[r]);
    assert forall|q: int, jl: int, i: int, k: int|
        #[trigger] yx3_slot_at(y, x, r, sz2, q, jl, i, k) implies out[i * ((
    t1.sz_procs@[r] as int) * sz2) + jl * sz2 + k] == rbuf[(t1.sz_procs@[r] as int) * sz2 * (
    y.dists@[0].st_procs@[q] as int) + jl * ((y.dists@[0].sz_procs@[q] as int) * sz2) + (i
        - y.dists@[0].st_procs@[q]) * sz2 + k] by {
        assert(crate::decomp3::yx_slot(y, x, q, jl, i, k));
    }
}

/// The contract of the executable three-dimensional y-to-z unpack, at the
/// calling process, implies the rank-indexed unpack description at rank
/// `coords[1]`, with the process's axis-0 chunk as the spectator slab.
pub proof fn lemma_merge_yz3_post_here<T>(y: Pencil, z: Pencil, rbuf: Seq<T>, out: Seq<T>)
    requires
        crate::decomp3::yz3_tables(y, z),
        z.comm.coords@.len() == 2,
        out.len() == z.spec_len(),
        forall|q: int, jl: int, i: int, k: int|
            #[trigger] crate::decomp3::yz_slot(y, z, q, jl, i, k) ==> out[i * (z.spec_size(1)
                * z.spec_size(2)) + jl * z.spec_size(2) + k] == rbuf[crate::decomp3::yz_src(
                y,
                z,
                q,
                jl,
                i,
                k,
            )],
    ensures
        merge_yz3_post(y, z, z.comm.coords@[1] as int, z.spec_size(0), rbuf, out),
{
    let r = z.comm.coords@[1] as int;
    let sz0 = z.spec_size(0);
    let t1 = z.dists@[1];
    crate::pencil::lemma_len3(z);
    crate::pencil::lemma_contig_size(z);
    assert(z.dists@[1].is_for(
        z.n_global@[1] as int,
        z.comm.dims@[1] as int,
        z.comm.coords@[1] as int,
    ));
    assert(z.spec_size(1) == t1.sz_procs@[r]);
    assert forall|q: int, jl: int, i: int, k: int|
        #[trigger] yz3_slot_at(y, z, r, sz0, q, jl, i, k) implies out[i * ((
    t1.sz_procs@[r] as int) * (y.n_global@[2] as int)) + jl * (y.n_global@[2] as int) + k]
        == rbuf[sz0 * (t1.sz_procs@[r] as int) * (y.dists@[2].st_procs@[q] as int) + jl * (sz0 * (
    y.dists@[2].sz_procs@[q] as int)) + i * (y.dists@[2].sz_procs@[q] as int) + (k
        - y.dists@[2].st_procs@[q])] by {
        assert(crate::decomp3::yz_slot(y, z, q, jl, i, k));
    }
}

/// The contract of the executable three-dimensional z-to-y unpack, at the
/// calling process, implies the rank-indexed unpack description at rank
/// `coords[1]`, with the process's axis-0 chunk as the spectator slab.
pub proof fn lemma_merge_zy3_post_here<T>(z: Pencil, y: Pencil, rbuf: Seq<T>, out: Seq<T>)
    requires
        crate::decomp3::yz3_tables(y, z),
        y.comm.coords@.len() == 2,
        out.len() == y.spec_len(),
        forall|q: int, k: int, j: int, i: int|
            #[trigger] crate::decomp3::zy_slot(z, y, q, k, j, i) ==> out[i * (y.spec_size(1)
                * y.spec_size(2)) + j * y.spec_size(2) + k] == rbuf[crate::decomp3::zy_src(
                z,
                y,
                q,
                k,
                j,
                i,
            )],
    ensures
        merge_zy3_post(z, y, y.comm.coords@[1] as int, y.spec_size(0), rbuf, out),
{
    let r = y.comm.coords@[1] as int;
    let sz0 = y.spec_size(0);
    let t2 = y.dists@[2];
    crate::pencil::lemma_len3(y);
    crate::pencil::lemma_contig_size(y);
    assert(y.dists@[2].is_for(
        y.n_global@[2] as int,
        y.comm.dims@[1] as int,
        y.comm.coords@[1] as int,
    ));
    assert(y.spec_size(2) == t2.sz_procs@[r]);
    assert forall|q: int, k: int, j: int, i: int|
        #[trigger] zy3_slot_at(z, y, r, sz0, q, k, j, i) implies out[i * ((y.n_global@[1] as int)
        * (t2.sz_procs@[r] as int)) + j * (t2.sz_procs@[r] as int) + k] == rbuf[sz0 * (
    t2.sz_procs@[r] as int) * (z.dists@[1].st_procs@[q] as int) + k * ((
    z.dists@[1].sz_procs@[q] as int) * sz0) + (j - z.dists@[1].st_procs@[q]) * sz0 + i] by {
        assert(crate::decomp3::zy_slot(z, y, q, k, j, i));
    }
}

/// The function of the global index that a line of x-pencil blocks over a
/// common spectator slab defines: the value at `(i, j, k)` is read from
/// the rank owning column `j`.
pub open spec fn x3_value_of<T>(x: Pencil, st2: int, sz2: int, snds: Seq<Seq<T>>) -> spec_fn(
    int,
    int,
    int,
) -> T {
    |i: int, j: int, k: int|
        {
            let q = table_owner(x.dists@[1], j);
            snds[q][i * ((x.dists@[1].sz_procs@[q] as int) * sz2) + (j
                - x.dists@[1].st_procs@[q]) * sz2 + (k - st2)]
        }
}

/// Any line of x-pencil blocks of the right shapes holds the function of
/// the global index that it defines.
pub proof fn lemma_x3_holds_self<T>(x: Pencil, st2: int, sz2: int, snds: Seq<Seq<T>>)
    requires
        x.wf(),
        x.ndim() == 3,
        x.axis_contig == 0,
        snds.len() == x.dists@[1].nprocs(),
        forall|q: int|
            0 <= q < snds.len() ==> (#[trigger] snds[q]).len() == (x.n_global@[0] as int) * ((
            x.dists@[1].sz_procs@[q] as int) * sz2),
    ensures
        forall|q: int|
            0 <= q < snds.len() ==> x3_holds(
                x.n_global@[0] as int,
                x.dists@[1].st_procs@[q] as int,
                x.dists@[1].sz_procs@[q] as int,
                st2,
                sz2,
                #[trigger] snds[q],
                x3_value_of(x, st2, sz2, snds),
            ),
{
    let t1 = x.dists@[1];
    let n0 = x.n_global@[0] as int;
    let n1 = x.n_global@[1] as int;
    let f = x3_value_of(x, st2, sz2, snds);
    lemma_pencil_dist_wf(x, 1);
    assert forall|q: int| 0 <= q < snds.len() implies x3_holds(
        n0,
        t1.st_procs@[q] as int,
        t1.sz_procs@[q] as int,
        st2,
        sz2,
        #[trigger] snds[q],
        f,
    ) by {
        let stq = t1.st_procs@[q] as int;
        let szq = t1.sz_procs@[q] as int;
        lemma_table_row_bounds(t1, n1, q);
        assert forall|i: int, b: int, c: int|
            0 <= i < n0 && 0 <= b < szq && 0 <= c < sz2 implies #[trigger] snds[q][i * (szq * sz2)
            + b * sz2 + c] == f(i, stq + b, st2 + c) by {
            lemma_table_owner(t1, n1, stq + b);
            assert(table_owner(t1, stq + b) == q);
        }
    }
}

/// Round-trip transpose in three dimensions, x to y and back: the two
/// exchanges and unpacks reproduce rank `r`'s original array exactly.
#[verifier::rlimit(100)]
#[verifier::spinoff_prover]
pub proof fn lemma_transpose3_x_y_round_trip<T>(
    x: Pencil,
    y: Pencil,
    r: int,
    st2: int,
    sz2: int,
    snds: Seq<Seq<T>>,
    rbufs1: Seq<Seq<T>>,
    mids: Seq<Seq<T>>,
    rbuf2: Seq<T>,
    out: Seq<T>,
)
    requires
        crate::decomp3::xy3_tables(x, y),
        0 <= r < x.dists@[1].nprocs(),
        x.dists@[1].nprocs() == y.dists@[0].nprocs(),
        1 <= sz2,
        snds.len() == x.dists@[1].nprocs(),
        rbufs1.len() == y.dists@[0].nprocs(),
        mids.len() == y.dists@[0].nprocs(),
        forall|q: int|
            0 <= q < snds.len() ==> (#[trigger] snds[q]).len() == (x.n_global@[0] as int) * ((
            x.dists@[1].sz_procs@[q] as int) * sz2),
        forall|r2: int|
            0 <= r2 < mids.len() ==> xy3_exchanged(x, y, r2, sz2, snds, #[trigger] rbufs1[r2]),
        forall|r2: int|
            0 <= r2 < mids.len() ==> merge_xy3_post(x, y, r2, sz2, rbufs1[r2], #[trigger] mids[r2]),
        yx3_exchanged(y, x, r, sz2, mids, rbuf2),
        merge_yx3_post(y, x, r, sz2, rbuf2, out),
    ensures
        out == snds[r],
{
    let t1 = x.dists@[1];
    let n0 = x.n_global@[0] as int;
    let n1 = x.n_global@[1] as int;
    let szr = t1.sz_procs@[r] as int;
    let str1 = t1.st_procs@[r] as int;
    let f = x3_value_of(x, st2, sz2, snds);
    lemma_x3_holds_self(x, st2, sz2, snds);
    assert forall|r2: int| 0 <= r2 < mids.len() implies y3_holds(
        n1,
        y.dists@[0].st_procs@[r2] as int,
        y.dists@[0].sz_procs@[r2] as int,
        st2,
        sz2,
        #[trigger] mids[r2],
        f,
    ) by {
        lemma_transpose3_x_to_y_correct(x, y, r2, st2, sz2, snds, rbufs1[r2], mids[r2], f);
    }
    lemma_transpose3_y_to_x_correct(y, x, r, st2, sz2, mids, rbuf2, out, f);
    lemma_pencil_dist_wf(x, 1);
    lemma_table_row_bounds(t1, n1, r);
    assert(out.len() == n0 * (szr * sz2));
    assert(snds[r].len() == n0 * (szr * sz2));
    assert forall|pos: int| 0 <= pos < out.len() implies out[pos] == snds[r][pos] by {
        assert(1 <= szr * sz2) by (nonlinear_arith)
            requires
                1 <= szr,
                1 <= sz2,
        ;
        lemma_index2_decompose(n0, szr * sz2, pos);
        let i = pos / (szr * sz2);
        let rem = pos % (szr * sz2);
        lemma_index2_decompose(szr, sz2, rem);
        let b = rem / sz2;
        let c = rem % sz2;
        assert(x3_holds(n0, str1, szr, st2, sz2, out, f));
        assert(x3_holds(n0, str1, szr, st2, sz2, snds[r], f));
        assert(out[i * (szr * sz2) + b * sz2 + c] == f(i, str1 + b, st2 + c));
        assert(snds[r][i * (szr * sz2) + b * sz2 + c] == f(i, str1 + b, st2 + c));
        assert(pos == i * (szr * sz2) + b * sz2 + c);
    }
    assert(out =~= snds[r]);
}

/// The function of the global index that a line of y-pencil blocks over a
/// common spectator slab defines: the value at `(i, j, k)` is read from
/// the rank owning depth `k`.
pub open spec fn y3_value_of<T>(y: Pencil, st0: int, sz0: int, snds: Seq<Seq<T>>) -> spec_fn(
    int,
    int,
    int,
) -> T {
    |i: int, j: int, k: int|
        {
            let q = table_owner(y.dists@[2], k);
            snds[q][(i - st0) * ((y.n_global@[1] as int) * (y.dists@[2].sz_procs@[q] as int)) + j
                * (y.dists@[2].sz_procs@[q] as int) + (k - y.dists@[2].st_procs@[q])]
        }
}

/// Any line of y-pencil blocks of the right shapes holds the function of
/// the global index that it defines.
pub proof fn lemma_y3_holds_self<T>(y: Pencil, st0: int, sz0: int, snds: Seq<Seq<T>>)
    requires
        y.wf(),
        y.ndim() == 3,
        y.axis_contig == 1,
        snds.len() == y.dists@[2].nprocs(),
        forall|q: int|
            0 <= q < snds.len() ==> (#[trigger] snds[q]).len() == sz0 * ((y.n_global@[1] as int)
                * (y.dists@[2].sz_procs@[q] as int)),
    ensures
        forall|q: int|
            0 <= q < snds.len() ==> y3_holds(
                y.n_global@[1] as int,
                st0,
                sz0,
                y.dists@[2].st_procs@[q] as int,
                y.dists@[2].sz_procs@[q] as int,
                #[trigger] snds[q],
                y3_value_of(y, st0, sz0, snds),
            ),
{
    let t2 = y.dists@[2];
    let n1 = y.n_global@[1] as int;
    let n2 = y.n_global@[2] as int;
    let f = y3_value_of(y, st0, sz0, snds);
    lemma_pencil_dist_wf(y, 2);
    assert forall|q: int| 0 <= q < snds.len() implies y3_holds(
        n1,
        st0,
        sz0,
        t2.st_procs@[q] as int,
        t2.sz_procs@[q] as int,
        #[trigger] snds[q],
        f,
    ) by {
        let stq = t2.st_procs@[q] as int;
        let szq = t2.sz_procs@[q] as int;
        lemma_table_row_bounds(t2, n2, q);
        assert forall|a: int, j: int, c: int|
            0 <= a < sz0 && 0 <= j < n1 && 0 <= c < szq implies #[trigger] snds[q][a * (n1 * szq)
            + j * szq + c] == f(st0 + a, j, stq + c) by {
            lemma_table_owner(t2, n2, stq + c);
            assert(table_owner(t2, stq + c) == q);
        }
    }
}

/// Round-trip transpose in three dimensions, y to z and back: the two
/// exchanges and unpacks reproduce rank `r`'s original array exactly.
#[verifier::rlimit(100)]
#[verifier::spinoff_prover]
pub proof fn lemma_transpose3_y_z_round_trip<T>(
    y: Pencil,
    z: Pencil,
    r: int,
    st0: int,
    sz0: int,
    snds: Seq<Seq<T>>,
    rbufs1: Seq<Seq<T>>,
    mids: Seq<Seq<T>>,
    rbuf2: Seq<T>,
    out: Seq<T>,
)
    requires
        crate::decomp3::yz3_tables(y, z),
        0 <= r < y.dists@[2].nprocs(),
        y.dists@[2].nprocs() == z.dists@[1].nprocs(),
        1 <= sz0,
        snds.len() == y.dists@[2].nprocs(),
        rbufs1.len() == z.dists@[1].nprocs(),
        mids.len() == z.dists@[1].nprocs(),
        forall|q: int|
            0 <= q < snds.len() ==> (#[trigger] snds[q]).len() == sz0 * ((y.n_global@[1] as int)
                * (y.dists@[2].sz_procs@[q] as int)),
        forall|r2: int|
            0 <= r2 < mids.len() ==> yz3_exchanged(y, z, r2, sz0, snds, #[trigger] rbufs1[r2]),
        forall|r2: int|
            0 <= r2 < mids.len() ==> merge_yz3_post(y, z, r2, sz0, rbufs1[r2], #[trigger] mids[r2]),
        zy3_exchanged(z, y, r, sz0, mids, rbuf2),
        merge_zy3_post(z, y, r, sz0, rbuf2, out),
    ensures
        out == snds[r],
{
    let t2 = y.dists@[2];
    let n1 = y.n_global@[1] as int;
    let n2 = y.n_global@[2] as int;
    let szr = t2.sz_procs@[r] as int;
    let str2 = t2.st_procs@[r] as int;
    let f = y3_value_of(y, st0, sz0, snds);
    lemma_y3_holds_self(y, st0, sz0, snds);
    assert forall|r2: int| 0 <= r2 < mids.len() implies z3_holds(
        n2,
        st0,
        sz0,
        z.dists@[1].st_procs@[r2] as int,
        z.dists@[1].sz_procs@[r2] as int,
        #[trigger] mids[r2],
        f,
    ) by {
        lemma_transpose3_y_to_z_correct(y, z, r2, st0, sz0, snds, rbufs1[r2], mids[r2], f);
    }
    lemma_transpose3_z_to_y_correct(z, y, r, st0, sz0, mids, rbuf2, out, f);
    lemma_pencil_dist_wf(y, 2);
    lemma_table_row_bounds(t2, n2, r);
    assert(out.len() == sz0 * (n1 * szr));
    assert(snds[r].len() == sz0 * (n1 * szr));
    assert forall|pos: int| 0 <= pos < out.len() implies out[pos] == snds[r][pos] by {
        assert(1 <= n1 * szr) by (nonlinear_arith)
            requires
                1 <= n1,
                1 <= szr,
        ;
        lemma_index2_decompose(sz0, n1 * szr, pos);
        let a = pos / (n1 * szr);
        let rem = pos % (n1 * szr);
        lemma_index2_decompose(n1, szr, rem);
        let j = rem / szr;
        let c = rem % szr;
        assert(y3_holds(n1, st0, sz0, str2, szr, out, f));
        assert(y3_holds(n1, st0, sz0, str2, szr, snds[r], f));
        assert(out[a * (n1 * szr) + j * szr + c] == f(st0 + a, j, str2 + c));
        assert(snds[r][a * (n1 * szr) + j * szr + c] == f(st0 + a, j, str2 + c));
        assert(pos == a * (n1 * szr) + j * szr + c);
    }
    assert(out =~= snds[r]);
}

} // verus!
