//! Balanced distribution of the points of one grid axis over the processes
//! that split that axis.
//!
//! A `Distribution` records, for one axis, this process's chunk (size and
//! inclusive global index bounds) together with the full table of every
//! process's chunk along that axis, ordered by rank.

use vstd::prelude::*;

use crate::math::lemma_seq_sum_take_succ;
use crate::math::seq_sum;

verus! {

/// Size of the chunk that rank `i` receives when `n` points are split over
/// `p` processes: the first `p - n % p` ranks get `n / p` points each, the
/// remaining ranks get one more.
pub open spec fn chunk_size(n: int, p: int, i: int) -> int {
    if i < p - n % p {
        n / p
    } else {
        n / p + 1
    }
}

/// First global index of the chunk of rank `i`.
pub open spec fn chunk_start(n: int, p: int, i: int) -> int {
    if i <= p - n % p {
        i * (n / p)
    } else {
        i * (n / p) + (i - (p - n % p))
    }
}

/// Arithmetic facts about the balanced chunk formulas: the chunks are
/// non-empty, contiguous, start at zero and end exactly at `n`.
pub proof fn lemma_chunk_math(n: int, p: int, i: int)
    requires
        1 <= p <= n,
        0 <= i < p,
    ensures
        chunk_start(n, p, 0) == 0,
        1 <= chunk_size(n, p, i),
        chunk_size(n, p, i) <= n / p + 1,
        1 <= n / p,
        0 <= chunk_start(n, p, i),
        chunk_start(n, p, i) + chunk_size(n, p, i) <= n,
        i > 0 ==> chunk_start(n, p, i) == chunk_start(n, p, i - 1) + chunk_size(n, p, i - 1),
        i == p - 1 ==> chunk_start(n, p, i) + chunk_size(n, p, i) == n,
{
    let size = n / p;
    let nu = n % p;
    let nl = p - nu;
    vstd::arithmetic::div_mod::lemma_fundamental_div_mod(n, p);
    vstd::arithmetic::div_mod::lemma_mod_division_less_than_divisor(n, p);
    assert(1 <= size) by (nonlinear_arith)
        requires
            n == p * size + nu,
            0 <= nu < p,
            1 <= p <= n,
    ;
    assert(0 * size == 0);
    assert(chunk_start(n, p, 0) == 0);
    if i > 0 {
        assert((i - 1) * size + size == i * size) by (nonlinear_arith);
        if i <= nl {
            assert(chunk_start(n, p, i) == i * size);
            assert(chunk_start(n, p, i - 1) == (i - 1) * size);
            assert(chunk_size(n, p, i - 1) == size);
        } else {
            assert(chunk_start(n, p, i) == i * size + (i - nl));
            assert(chunk_size(n, p, i - 1) == size + 1);
            if i - 1 <= nl {
                assert(chunk_start(n, p, i - 1) == (i - 1) * size);
                assert(i - nl == 1);
            } else {
                assert(chunk_start(n, p, i - 1) == (i - 1) * size + (i - 1 - nl));
            }
        }
        assert(chunk_start(n, p, i) == chunk_start(n, p, i - 1) + chunk_size(n, p, i - 1));
    }
    assert(0 <= i * size) by (nonlinear_arith)
        requires
            0 <= i,
            0 <= size,
    ;
    if i < nl {
        assert(chunk_start(n, p, i) == i * size);
        assert(chunk_size(n, p, i) == size);
        assert(i * size + size <= n) by (nonlinear_arith)
            requires
                n == p * size + nu,
                0 <= nu,
                1 <= size,
                i + 1 <= p,
    ;
        if i == p - 1 {
            // then nl == p, so nu == 0 and the last chunk ends exactly at n
            assert(i * size + size == n) by (nonlinear_arith)
                requires
                    n == p * size + nu,
                    nu == 0,
                    i == p - 1,
        ;
        }
    } else {
        assert(chunk_size(n, p, i) == size + 1);
        if i == nl {
            assert(chunk_start(n, p, i) == i * size);
            assert(i * size == i * size + (i - nl));
        } else {
            assert(chunk_start(n, p, i) == i * size + (i - nl));
        }
        assert(i * size + (i - nl) + (size + 1) <= n) by (nonlinear_arith)
            requires
                n == p * size + nu,
                nl == p - nu,
                0 <= nu < p,
                1 <= size,
                nl <= i < p,
    ;
        if i == p - 1 {
            assert(i * size + (i - nl) + (size + 1) == n) by (nonlinear_arith)
                requires
                    n == p * size + nu,
                    nl == p - nu,
                    0 <= nu < p,
                    i == p - 1,
        ;
        }
    }
}

/// Per-axis block partition: this process's chunk and the chunk table of
/// every process along the axis.
pub struct Distribution {
    /// Size of the chunk of the current process.
    pub sz: usize,
    /// First global index of the chunk of the current process.
    pub st: usize,
    /// Last global index of the chunk of the current process.
    pub en: usize,
    /// Chunk size of every process, by rank.
    pub sz_procs: Vec<usize>,
    /// First global index of every process, by rank.
    pub st_procs: Vec<usize>,
    /// Last global index of every process, by rank.
    pub en_procs: Vec<usize>,
}

impl Distribution {
    /// Number of chunks in the table.
    pub open spec fn nprocs(self) -> int {
        self.sz_procs@.len() as int
    }

    /// The chunk table partitions `[0, n)`: chunks are non-empty,
    /// contiguous, rank-ordered, start at zero and end at `n - 1`.
    pub open spec fn table_wf(self, n: int) -> bool {
        let p = self.nprocs();
        &&& p >= 1
        &&& self.st_procs@.len() == p
        &&& self.en_procs@.len() == p
        &&& self.st_procs@[0] == 0
        &&& self.en_procs@[p - 1] == n - 1
        &&& forall|i: int|
            0 <= i < p ==> #[trigger] self.en_procs@[i] == self.st_procs@[i] + self.sz_procs@[i]
                - 1
        &&& forall|i: int| 0 < i < p ==> #[trigger] self.st_procs@[i] == self.en_procs@[i - 1] + 1
        &&& forall|i: int| 0 <= i < p ==> 1 <= #[trigger] self.sz_procs@[i]
        &&& forall|i: int| 0 <= i < p ==> #[trigger] self.en_procs@[i] < n
    }

    /// The chunk table is exactly the balanced partition of `[0, n)`.
    pub open spec fn balanced(self, n: int) -> bool {
        forall|i: int|
            0 <= i < self.nprocs() ==> #[trigger] self.sz_procs@[i] as int == chunk_size(
                n,
                self.nprocs(),
                i,
            )
    }

    /// A valid distribution of `n` points over `p` processes as seen by
    /// process `rank`: a well-formed table with this process's own triple
    /// taken from row `rank`.
    pub open spec fn is_for(self, n: int, p: int, rank: int) -> bool {
        &&& self.table_wf(n)
        &&& self.nprocs() == p
        &&& 0 <= rank < p
        &&& self.sz == self.sz_procs@[rank]
        &&& self.st == self.st_procs@[rank]
        &&& self.en == self.en_procs@[rank]
    }

    /// Contiguous decomposition: one chunk holding the whole axis.
    pub fn contiguous(n_global: usize) -> (r: Distribution)
        requires
            n_global >= 1,
        ensures
            r.is_for(n_global as int, 1, 0),
            r.balanced(n_global as int),
            r.sz == n_global,
            r.st == 0,
            r.en == n_global - 1,
    {
        let st: usize = 0;
        let en: usize = n_global - 1;
        let sz: usize = n_global;
        let mut st_procs: Vec<usize> = Vec::new();
        let mut en_procs: Vec<usize> = Vec::new();
        let mut sz_procs: Vec<usize> = Vec::new();
        st_procs.push(st);
        en_procs.push(en);
        sz_procs.push(sz);
        let r = Distribution { sz, st, en, sz_procs, st_procs, en_procs };
        proof {
            vstd::arithmetic::div_mod::lemma_fundamental_div_mod(n_global as int, 1);
            vstd::arithmetic::div_mod::lemma_mod_division_less_than_divisor(n_global as int, 1);
        }
        r
    }

    /// Balanced decomposition of `n_global` points over `nprocs` processes,
    /// seen by process `nrank`.
    pub fn split(n_global: usize, nprocs: usize, nrank: usize) -> (r: Distribution)
        requires
            1 <= nprocs <= n_global,
            nrank < nprocs,
        ensures
            r.is_for(n_global as int, nprocs as int, nrank as int),
            r.balanced(n_global as int),
    {
        let (st_procs, en_procs, sz_procs) = Self::distribute(n_global, nprocs);
        let st = st_procs[nrank];
        let en = en_procs[nrank];
        let sz = sz_procs[nrank];
        let r = Distribution { sz, st, en, sz_procs, st_procs, en_procs };
        proof {
            lemma_chunk_table_wf(r, n_global as int, nprocs as int);
        }
        r
    }

    /// Balanced chunk table for `n_global` points over `nprocs` processes:
    /// start index, end index and size of every rank's chunk.
    pub fn distribute(n_global: usize, nprocs: usize) -> (r: (Vec<usize>, Vec<usize>, Vec<usize>))
        requires
            1 <= nprocs <= n_global,
        ensures
            r.0@.len() == nprocs,
            r.1@.len() == nprocs,
            r.2@.len() == nprocs,
            forall|i: int|
                0 <= i < nprocs ==> #[trigger] r.0@[i] as int == chunk_start(
                    n_global as int,
                    nprocs as int,
                    i,
                ),
            forall|i: int|
                0 <= i < nprocs ==> #[trigger] r.2@[i] as int == chunk_size(
                    n_global as int,
                    nprocs as int,
                    i,
                ),
            forall|i: int|
                0 <= i < nprocs ==> #[trigger] r.1@[i] as int == chunk_start(
                    n_global as int,
                    nprocs as int,
                    i,
                ) + chunk_size(n_global as int, nprocs as int, i) - 1,
    {
        let ghost n = n_global as int;
        let ghost p = nprocs as int;
        let size = n_global / nprocs;
        let mut st = zeroes(nprocs);
        let mut en = zeroes(nprocs);
        let mut sz = zeroes(nprocs);
        proof {
            lemma_chunk_math(n, p, 0);
        }
        st[0] = 0;
        sz[0] = size;
        en[0] = size - 1;
        proof {
            vstd::arithmetic::div_mod::lemma_fundamental_div_mod(n, p);
            vstd::arithmetic::div_mod::lemma_mod_division_less_than_divisor(n, p);
            assert(size as int * nprocs as int == p * (n / p)) by (nonlinear_arith)
                requires
                    size as int == n / p,
                    p == nprocs as int,
            ;
        }
        // The first `nl` ranks hold `size` points, the rest hold `size + 1`.
        let nu = n_global - size * nprocs;
        let nl = nprocs - nu;
        proof {
            assert(nu as int == n % p);
            assert(nl >= 1);
        }
        let mut i: usize = 1;
        while i < nl
            invariant
                1 <= i <= nl,
                nl as int == p - n % p,
                size as int == n / p,
                1 <= p <= n,
                n == n_global as int,
                p == nprocs as int,
                nl <= nprocs,
                st@.len() == p,
                en@.len() == p,
                sz@.len() == p,
                forall|k: int| 0 <= k < i ==> #[trigger] st@[k] as int == chunk_start(n, p, k),
                forall|k: int| 0 <= k < i ==> #[trigger] sz@[k] as int == chunk_size(n, p, k),
                forall|k: int|
                    0 <= k < i ==> #[trigger] en@[k] as int == chunk_start(n, p, k) + chunk_size(
                        n,
                        p,
                        k,
                    ) - 1,
            decreases nl - i,
        {
            proof {
                lemma_chunk_math(n, p, i as int);
                lemma_chunk_math(n, p, i as int - 1);
                assert(chunk_size(n, p, i as int - 1) == size);
                assert(chunk_size(n, p, i as int) == size);
            }
            let prev_st = st[i - 1];
            let prev_en = en[i - 1];
            st[i] = prev_st + size;
            sz[i] = size;
            en[i] = prev_en + size;
            i += 1;
        }
        let mut j: usize = nl;
        while j < nprocs
            invariant
                1 <= j,
                j <= nprocs,
                nl as int <= j,
                nl as int == p - n % p,
                size as int == n / p,
                1 <= p <= n,
                n == n_global as int,
                p == nprocs as int,
                st@.len() == p,
                en@.len() == p,
                sz@.len() == p,
                forall|k: int| 0 <= k < j ==> #[trigger] st@[k] as int == chunk_start(n, p, k),
                forall|k: int| 0 <= k < j ==> #[trigger] sz@[k] as int == chunk_size(n, p, k),
                forall|k: int|
                    0 <= k < j ==> #[trigger] en@[k] as int == chunk_start(n, p, k) + chunk_size(
                        n,
                        p,
                        k,
                    ) - 1,
            decreases nprocs - j,
        {
            proof {
                lemma_chunk_math(n, p, j as int);
                lemma_chunk_math(n, p, j as int - 1);
                assert(j as int >= p - n % p);
                assert(n % p >= 1);
                assert(chunk_size(n, p, j as int) == n / p + 1);
                vstd::arithmetic::div_mod::lemma_fundamental_div_mod(n, p);
                assert(size as int + 1 <= n) by (nonlinear_arith)
                    requires
                        size as int == n / p,
                        n == p * (n / p) + n % p,
                        n % p >= 1,
                        p >= 1,
                ;
            }
            let size1 = size + 1;
            let prev_en = en[j - 1];
            st[j] = prev_en + 1;
            sz[j] = size1;
            en[j] = prev_en + size1;
            j += 1;
        }
        // Defensive rewrite of the very last chunk; the closed forms show
        // it stores the values the loop already produced.
        proof {
            lemma_chunk_math(n, p, p - 1);
        }
        let last_en = n_global - 1;
        let last_st = st[nprocs - 1];
        en[nprocs - 1] = last_en;
        sz[nprocs - 1] = last_en - last_st + 1;
        (st, en, sz)
    }
}

/// A table whose rows follow the balanced chunk formulas is a well-formed
/// partition table.
proof fn lemma_chunk_table_wf(d: Distribution, n: int, p: int)
    requires
        1 <= p <= n,
        d.sz_procs@.len() == p,
        d.st_procs@.len() == p,
        d.en_procs@.len() == p,
        forall|i: int| 0 <= i < p ==> #[trigger] d.st_procs@[i] as int == chunk_start(n, p, i),
        forall|i: int| 0 <= i < p ==> #[trigger] d.sz_procs@[i] as int == chunk_size(n, p, i),
        forall|i: int|
            0 <= i < p ==> #[trigger] d.en_procs@[i] as int == chunk_start(n, p, i) + chunk_size(
                n,
                p,
                i,
            ) - 1,
    ensures
        d.table_wf(n),
        d.balanced(n),
{
    assert forall|i: int| 0 <= i < p implies 1 <= #[trigger] d.sz_procs@[i] && d.en_procs@[i]
        < n by {
        lemma_chunk_math(n, p, i);
    }
    assert forall|i: int|
        0 < i < p implies #[trigger] d.st_procs@[i] == d.en_procs@[i - 1] + 1 by {
        lemma_chunk_math(n, p, i);
    }
    lemma_chunk_math(n, p, 0);
    lemma_chunk_math(n, p, p - 1);
    assert(d.nprocs() == p);
    assert(d.st_procs@[0] == 0);
    assert(d.en_procs@[p - 1] == n - 1);
    assert(forall|i: int|
        0 <= i < p ==> #[trigger] d.en_procs@[i] == d.st_procs@[i] + d.sz_procs@[i] - 1);
    assert(forall|i: int| 0 <= i < p ==> 1 <= #[trigger] d.sz_procs@[i]);
    assert(forall|i: int| 0 <= i < p ==> #[trigger] d.en_procs@[i] < n);
}

/// Fresh vector of `n` zero sizes.
fn zeroes(n: usize) -> (v: Vec<usize>)
    ensures
        v@.len() == n,
        forall|i: int| 0 <= i < n ==> v@[i] == 0usize,
{
    let mut v: Vec<usize> = Vec::new();
    let mut i: usize = 0;
    while i < n
        invariant
            i <= n,
            v@.len() == i,
            forall|k: int| 0 <= k < i ==> v@[k] == 0usize,
        decreases n - i,
    {
        v.push(0);
        i += 1;
    }
    v
}

/// Partition completeness: the chunk sizes of a well-formed table sum to
/// the axis length, because each prefix of chunks covers exactly the
/// indices up to the end of its last chunk.
pub proof fn lemma_table_sum(d: Distribution, n: int)
    requires
        d.table_wf(n),
    ensures
        seq_sum(d.sz_procs@) == n,
{
    let p = d.nprocs();
    lemma_table_prefix_sum(d, n, p);
    assert(d.sz_procs@.take(p) =~= d.sz_procs@);
}

/// The sum of the first `k` chunk sizes equals the start of chunk `k` (or
/// `n` when `k == p`).
pub proof fn lemma_table_prefix_sum(d: Distribution, n: int, k: int)
    requires
        d.table_wf(n),
        0 <= k <= d.nprocs(),
    ensures
        seq_sum(d.sz_procs@.take(k)) == if k < d.nprocs() {
            d.st_procs@[k] as int
        } else {
            n
        },
    decreases k,
{
    let p = d.nprocs();
    if k == 0 {
    } else {
        lemma_table_prefix_sum(d, n, k - 1);
        lemma_seq_sum_take_succ(d.sz_procs@, k - 1);
        if k < p {
            assert(d.st_procs@[k] == d.en_procs@[k - 1] + 1);
            assert(d.en_procs@[k - 1] == d.st_procs@[k - 1] + d.sz_procs@[k - 1] - 1);
        } else {
            assert(d.en_procs@[p - 1] == n - 1);
        }
    }
}

/// Chunk ends grow with the rank.
pub proof fn lemma_table_en_monotone(d: Distribution, n: int, i: int, j: int)
    requires
        d.table_wf(n),
        0 <= i <= j < d.nprocs(),
    ensures
        d.en_procs@[i] <= d.en_procs@[j],
    decreases j - i,
{
    if i < j {
        lemma_table_en_monotone(d, n, i, j - 1);
        assert(d.st_procs@[j] == d.en_procs@[j - 1] + 1);
        assert(d.en_procs@[j] == d.st_procs@[j] + d.sz_procs@[j] - 1);
        assert(1 <= d.sz_procs@[j]);
    }
}

/// Chunks of distinct ranks do not overlap: an earlier chunk ends before a
/// later chunk starts.
pub proof fn lemma_table_disjoint(d: Distribution, n: int, i: int, j: int)
    requires
        d.table_wf(n),
        0 <= i < j < d.nprocs(),
    ensures
        d.en_procs@[i] < d.st_procs@[j],
{
    lemma_table_en_monotone(d, n, i, j - 1);
    assert(d.st_procs@[j] == d.en_procs@[j - 1] + 1);
}

/// Every global index lies in some chunk; starting the search at a rank
/// whose chunk starts at or before `g` finds it.
proof fn lemma_table_covers_from(d: Distribution, n: int, g: int, j: int)
    requires
        d.table_wf(n),
        0 <= g < n,
        0 <= j < d.nprocs(),
        d.st_procs@[j] <= g,
    ensures
        exists|i: int|
            0 <= i < d.nprocs() && #[trigger] d.st_procs@[i] <= g && g <= d.en_procs@[i],
    decreases d.nprocs() - j,
{
    let p = d.nprocs();
    if g <= d.en_procs@[j] {
        assert(d.st_procs@[j] <= g && g <= d.en_procs@[j]);
    } else {
        lemma_table_en_monotone(d, n, j, p - 1);
        assert(j < p - 1);
        assert(d.st_procs@[j + 1] == d.en_procs@[j] + 1);
        lemma_table_covers_from(d, n, g, j + 1);
    }
}

/// Partition coverage: every global index in `[0, n)` lies in exactly one
/// chunk of a well-formed table.
pub proof fn lemma_table_covers(d: Distribution, n: int, g: int)
    requires
        d.table_wf(n),
        0 <= g < n,
    ensures
        exists|i: int|
            0 <= i < d.nprocs() && #[trigger] d.st_procs@[i] <= g && g <= d.en_procs@[i],
        forall|i: int, j: int|
            0 <= i < d.nprocs() && 0 <= j < d.nprocs() && #[trigger] d.st_procs@[i] <= g && g
                <= d.en_procs@[i] && #[trigger] d.st_procs@[j] <= g && g <= d.en_procs@[j] ==> i
                == j,
{
    lemma_table_covers_from(d, n, g, 0);
    assert forall|i: int, j: int|
        0 <= i < d.nprocs() && 0 <= j < d.nprocs() && #[trigger] d.st_procs@[i] <= g && g
            <= d.en_procs@[i] && #[trigger] d.st_procs@[j] <= g && g
            <= d.en_procs@[j] implies i == j by {
        if i < j {
            lemma_table_disjoint(d, n, i, j);
        }
        if j < i {
            lemma_table_disjoint(d, n, j, i);
        }
    }
}

/// Balance: in a balanced table, any two chunk sizes differ by at most one.
pub proof fn lemma_table_balance(d: Distribution, n: int, i: int, j: int)
    requires
        d.table_wf(n),
        d.balanced(n),
        1 <= d.nprocs() <= n,
        0 <= i < d.nprocs(),
        0 <= j < d.nprocs(),
    ensures
        d.sz_procs@[i] - d.sz_procs@[j] <= 1,
        d.sz_procs@[j] - d.sz_procs@[i] <= 1,
{
    let p = d.nprocs();
    lemma_chunk_math(n, p, i);
    lemma_chunk_math(n, p, j);
}

} // verus!
