use pencil_decomp::Decomp3;
use pencil_decomp::pencil::recv_counts_all_to_all;
use pencil_decomp::pencil::send_counts_all_to_all;
use pencil_decomp::Pencil;

const P0: usize = 2;
const P1: usize = 3;

fn value(i: usize, j: usize, k: usize) -> u64 {
    (i + j * 10 + k * 100) as u64
}

fn decomps(n_global: Vec<usize>) -> Vec<Decomp3> {
    let mut dcs = Vec::new();
    for c0 in 0..P0 {
        for c1 in 0..P1 {
            dcs.push(Decomp3::new(
                n_global.clone(),
                vec![P0, P1],
                vec![c0, c1],
                vec![false, false],
            ));
        }
    }
    dcs
}

// Local array of one pencil, filled with the value of the global index.
fn fill(pencil: &Pencil) -> Vec<u64> {
    let d0 = &pencil.dists[0];
    let d1 = &pencil.dists[1];
    let d2 = &pencil.dists[2];
    let mut data = Vec::new();
    for i in d0.st..=d0.en {
        for j in d1.st..=d1.en {
            for k in d2.st..=d2.en {
                data.push(value(i, j, k));
            }
        }
    }
    data
}

// The variable-count all-to-all exchange within one sub-group line,
// performed locally.
fn exchange(
    bufs: &[Vec<u64>],
    scounts: &[Vec<usize>],
    sdispls: &[Vec<usize>],
    rcounts: &[Vec<usize>],
    rdispls: &[Vec<usize>],
) -> Vec<Vec<u64>> {
    let p = bufs.len();
    (0..p)
        .map(|r| {
            let total: usize = rcounts[r].iter().sum();
            let mut rbuf = vec![0u64; total];
            for q in 0..p {
                let seg = &bufs[q][sdispls[q][r]..sdispls[q][r] + scounts[q][r]];
                rbuf[rdispls[r][q]..rdispls[r][q] + rcounts[r][q]].copy_from_slice(seg);
            }
            rbuf
        })
        .collect()
}

// Sub-group lines along process-grid dimension 0 (coordinate 1 fixed).
fn lines_dim0() -> Vec<Vec<usize>> {
    (0..P1).map(|c1| (0..P0).map(|c0| c0 * P1 + c1).collect()).collect()
}

// Sub-group lines along process-grid dimension 1 (coordinate 0 fixed).
fn lines_dim1() -> Vec<Vec<usize>> {
    (0..P0).map(|c0| (0..P1).map(|c1| c0 * P1 + c1).collect()).collect()
}

fn x_to_y_all(dcs: &[Decomp3], xs: &[Vec<u64>]) -> Vec<Vec<u64>> {
    let mut ys: Vec<Vec<u64>> = vec![Vec::new(); dcs.len()];
    for line in lines_dim0() {
        let bufs: Vec<Vec<u64>> =
            line.iter().map(|&m| dcs[m].transpose_x_to_y_pack(&xs[m])).collect();
        let mut scounts = Vec::new();
        let mut sdispls = Vec::new();
        let mut rcounts = Vec::new();
        let mut rdispls = Vec::new();
        for &m in &line {
            let (sc, sd) = send_counts_all_to_all(&dcs[m].x_pencil, &dcs[m].y_pencil);
            let (rc, rd) = recv_counts_all_to_all(&dcs[m].x_pencil, &dcs[m].y_pencil);
            scounts.push(sc);
            sdispls.push(sd);
            rcounts.push(rc);
            rdispls.push(rd);
        }
        let rbufs = exchange(&bufs, &scounts, &sdispls, &rcounts, &rdispls);
        for (li, &m) in line.iter().enumerate() {
            let mut out = vec![0u64; dcs[m].y_pencil.len()];
            dcs[m].transpose_x_to_y_unpack(&rbufs[li], &mut out);
            ys[m] = out;
        }
    }
    ys
}

fn y_to_x_all(dcs: &[Decomp3], ys: &[Vec<u64>]) -> Vec<Vec<u64>> {
    let mut xs: Vec<Vec<u64>> = vec![Vec::new(); dcs.len()];
    for line in lines_dim0() {
        let bufs: Vec<Vec<u64>> =
            line.iter().map(|&m| dcs[m].transpose_y_to_x_pack(&ys[m])).collect();
        let mut scounts = Vec::new();
        let mut sdispls = Vec::new();
        let mut rcounts = Vec::new();
        let mut rdispls = Vec::new();
        for &m in &line {
            let (sc, sd) = send_counts_all_to_all(&dcs[m].y_pencil, &dcs[m].x_pencil);
            let (rc, rd) = recv_counts_all_to_all(&dcs[m].y_pencil, &dcs[m].x_pencil);
            scounts.push(sc);
            sdispls.push(sd);
            rcounts.push(rc);
            rdispls.push(rd);
        }
        let rbufs = exchange(&bufs, &scounts, &sdispls, &rcounts, &rdispls);
        for (li, &m) in line.iter().enumerate() {
            let mut out = vec![0u64; dcs[m].x_pencil.len()];
            dcs[m].transpose_y_to_x_unpack(&rbufs[li], &mut out);
            xs[m] = out;
        }
    }
    xs
}

fn y_to_z_all(dcs: &[Decomp3], ys: &[Vec<u64>]) -> Vec<Vec<u64>> {
    let mut zs: Vec<Vec<u64>> = vec![Vec::new(); dcs.len()];
    for line in lines_dim1() {
        let bufs: Vec<Vec<u64>> =
            line.iter().map(|&m| dcs[m].transpose_y_to_z_pack(&ys[m])).collect();
        let mut scounts = Vec::new();
        let mut sdispls = Vec::new();
        let mut rcounts = Vec::new();
        let mut rdispls = Vec::new();
        for &m in &line {
            let (sc, sd) = send_counts_all_to_all(&dcs[m].y_pencil, &dcs[m].z_pencil);
            let (rc, rd) = recv_counts_all_to_all(&dcs[m].y_pencil, &dcs[m].z_pencil);
            scounts.push(sc);
            sdispls.push(sd);
            rcounts.push(rc);
            rdispls.push(rd);
        }
        let rbufs = exchange(&bufs, &scounts, &sdispls, &rcounts, &rdispls);
        for (li, &m) in line.iter().enumerate() {
            let mut out = vec![0u64; dcs[m].z_pencil.len()];
            dcs[m].transpose_y_to_z_unpack(&rbufs[li], &mut out);
            zs[m] = out;
        }
    }
    zs
}

fn z_to_y_all(dcs: &[Decomp3], zs: &[Vec<u64>]) -> Vec<Vec<u64>> {
    let mut ys: Vec<Vec<u64>> = vec![Vec::new(); dcs.len()];
    for line in lines_dim1() {
        let bufs: Vec<Vec<u64>> =
            line.iter().map(|&m| dcs[m].transpose_z_to_y_pack(&zs[m])).collect();
        let mut scounts = Vec::new();
        let mut sdispls = Vec::new();
        let mut rcounts = Vec::new();
        let mut rdispls = Vec::new();
        for &m in &line {
            let (sc, sd) = send_counts_all_to_all(&dcs[m].z_pencil, &dcs[m].y_pencil);
            let (rc, rd) = recv_counts_all_to_all(&dcs[m].z_pencil, &dcs[m].y_pencil);
            scounts.push(sc);
            sdispls.push(sd);
            rcounts.push(rc);
            rdispls.push(rd);
        }
        let rbufs = exchange(&bufs, &scounts, &sdispls, &rcounts, &rdispls);
        for (li, &m) in line.iter().enumerate() {
            let mut out = vec![0u64; dcs[m].y_pencil.len()];
            dcs[m].transpose_z_to_y_unpack(&rbufs[li], &mut out);
            ys[m] = out;
        }
    }
    ys
}

#[test]
fn transpose_3d_matches_global_indexing() {
    let dcs = decomps(vec![6, 7, 9]);
    let xs: Vec<Vec<u64>> = dcs.iter().map(|dc| fill(&dc.x_pencil)).collect();
    let ys = x_to_y_all(&dcs, &xs);
    for (dc, y) in dcs.iter().zip(ys.iter()) {
        assert_eq!(*y, fill(&dc.y_pencil));
    }
    let zs = y_to_z_all(&dcs, &ys);
    for (dc, z) in dcs.iter().zip(zs.iter()) {
        assert_eq!(*z, fill(&dc.z_pencil));
    }
    let ys2 = z_to_y_all(&dcs, &zs);
    for (dc, y) in dcs.iter().zip(ys2.iter()) {
        assert_eq!(*y, fill(&dc.y_pencil));
    }
    let xs2 = y_to_x_all(&dcs, &ys2);
    for (dc, x) in dcs.iter().zip(xs2.iter()) {
        assert_eq!(*x, fill(&dc.x_pencil));
    }
}

#[test]
fn transpose_3d_full_cycle_returns_original() {
    // global shape [6, 7, 9], process grid [2, 3]: the full cycle
    // x -> y -> z -> y -> x returns every per-process array unchanged
    let dcs = decomps(vec![6, 7, 9]);
    let xs: Vec<Vec<u64>> = dcs
        .iter()
        .enumerate()
        .map(|(rank, dc)| {
            (0..dc.x_pencil.len()).map(|pos| (rank * 1000 + pos * 13 + 5) as u64).collect()
        })
        .collect();
    let ys = x_to_y_all(&dcs, &xs);
    let zs = y_to_z_all(&dcs, &ys);
    let ys2 = z_to_y_all(&dcs, &zs);
    let xs2 = y_to_x_all(&dcs, &ys2);
    assert_eq!(xs2, xs);
}
