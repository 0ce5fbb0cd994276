use pencil_decomp::Decomp2;
use pencil_decomp::pencil::recv_counts_all_to_all;
use pencil_decomp::pencil::send_counts_all_to_all;

fn value(i: usize, j: usize) -> u64 {
    (i * 10 + j) as u64
}

fn decomps(n_global: Vec<usize>, nprocs: usize) -> Vec<Decomp2> {
    (0..nprocs)
        .map(|rank| Decomp2::new(n_global.clone(), vec![nprocs], vec![rank], vec![false]))
        .collect()
}

// Local x-pencil array of one rank, filled with the value of the global index.
fn x_fill(dc: &Decomp2) -> Vec<u64> {
    let d0 = &dc.x_pencil.dists[0];
    let d1 = &dc.x_pencil.dists[1];
    let mut data = Vec::new();
    for i in d0.st..=d0.en {
        for j in d1.st..=d1.en {
            data.push(value(i, j));
        }
    }
    data
}

// Local y-pencil array of one rank, filled with the value of the global index.
fn y_fill(dc: &Decomp2) -> Vec<u64> {
    let d0 = &dc.y_pencil.dists[0];
    let d1 = &dc.y_pencil.dists[1];
    let mut data = Vec::new();
    for i in d0.st..=d0.en {
        for j in d1.st..=d1.en {
            data.push(value(i, j));
        }
    }
    data
}

// The variable-count all-to-all exchange, performed locally: receiver r's
// buffer gets sender q's segment for r at receiver displacement q.
fn exchange(
    bufs: &[Vec<u64>],
    scounts: &[Vec<usize>],
    sdispls: &[Vec<usize>],
    rcounts: &[Vec<usize>],
    rdispls: &[Vec<usize>],
) -> Vec<Vec<u64>> {
    let p = bufs.len();
    (0..p)
        .map(|r| {
            let total: usize = rcounts[r].iter().sum();
            let mut rbuf = vec![0u64; total];
            for q in 0..p {
                let seg = &bufs[q][sdispls[q][r]..sdispls[q][r] + scounts[q][r]];
                rbuf[rdispls[r][q]..rdispls[r][q] + rcounts[r][q]].copy_from_slice(seg);
            }
            rbuf
        })
        .collect()
}

fn transpose_x_to_y_all(dcs: &[Decomp2], xs: &[Vec<u64>]) -> Vec<Vec<u64>> {
    let p = dcs.len();
    let bufs: Vec<Vec<u64>> = (0..p).map(|q| dcs[q].transpose_x_to_y_pack(&xs[q])).collect();
    let mut scounts = Vec::new();
    let mut sdispls = Vec::new();
    let mut rcounts = Vec::new();
    let mut rdispls = Vec::new();
    for q in 0..p {
        let (sc, sd) = send_counts_all_to_all(&dcs[q].x_pencil, &dcs[q].y_pencil);
        let (rc, rd) = recv_counts_all_to_all(&dcs[q].x_pencil, &dcs[q].y_pencil);
        scounts.push(sc);
        sdispls.push(sd);
        rcounts.push(rc);
        rdispls.push(rd);
    }
    let rbufs = exchange(&bufs, &scounts, &sdispls, &rcounts, &rdispls);
    (0..p)
        .map(|r| {
            let mut out = vec![0u64; dcs[r].y_pencil.len()];
            dcs[r].transpose_x_to_y_unpack(&rbufs[r], &mut out);
            out
        })
        .collect()
}

fn transpose_y_to_x_all(dcs: &[Decomp2], ys: &[Vec<u64>]) -> Vec<Vec<u64>> {
    let p = dcs.len();
    let bufs: Vec<Vec<u64>> = (0..p).map(|q| dcs[q].transpose_y_to_x_pack(&ys[q])).collect();
    let mut scounts = Vec::new();
    let mut sdispls = Vec::new();
    let mut rcounts = Vec::new();
    let mut rdispls = Vec::new();
    for q in 0..p {
        let (sc, sd) = send_counts_all_to_all(&dcs[q].y_pencil, &dcs[q].x_pencil);
        let (rc, rd) = recv_counts_all_to_all(&dcs[q].y_pencil, &dcs[q].x_pencil);
        scounts.push(sc);
        sdispls.push(sd);
        rcounts.push(rc);
        rdispls.push(rd);
    }
    let rbufs = exchange(&bufs, &scounts, &sdispls, &rcounts, &rdispls);
    (0..p)
        .map(|r| {
            let mut out = vec![0u64; dcs[r].x_pencil.len()];
            dcs[r].transpose_y_to_x_unpack(&rbufs[r], &mut out);
            out
        })
        .collect()
}

#[test]
fn transpose_x_to_y_matches_global_indexing() {
    let dcs = decomps(vec![6, 5], 2);
    let xs: Vec<Vec<u64>> = dcs.iter().map(x_fill).collect();
    let ys = transpose_x_to_y_all(&dcs, &xs);
    for (dc, y) in dcs.iter().zip(ys.iter()) {
        assert_eq!(*y, y_fill(dc));
    }
}

#[test]
fn transpose_y_to_x_matches_global_indexing() {
    let dcs = decomps(vec![6, 5], 2);
    let ys: Vec<Vec<u64>> = dcs.iter().map(y_fill).collect();
    let xs = transpose_y_to_x_all(&dcs, &ys);
    for (dc, x) in dcs.iter().zip(xs.iter()) {
        assert_eq!(*x, x_fill(dc));
    }
}

#[test]
fn transpose_round_trip_2d() {
    // arbitrary data, not derived from the global index
    let dcs = decomps(vec![7, 5], 3);
    let xs: Vec<Vec<u64>> = dcs
        .iter()
        .enumerate()
        .map(|(rank, dc)| {
            (0..dc.x_pencil.len()).map(|pos| (1000 * rank + 7 * pos + 3) as u64).collect()
        })
        .collect();
    let ys = transpose_x_to_y_all(&dcs, &xs);
    let back = transpose_y_to_x_all(&dcs, &ys);
    assert_eq!(back, xs);
}

#[test]
fn transpose_round_trip_uneven() {
    let dcs = decomps(vec![5, 9], 4);
    let xs: Vec<Vec<u64>> = dcs
        .iter()
        .enumerate()
        .map(|(rank, dc)| {
            (0..dc.x_pencil.len()).map(|pos| (rank * 17 + pos * 31) as u64).collect()
        })
        .collect();
    let ys = transpose_x_to_y_all(&dcs, &xs);
    let back = transpose_y_to_x_all(&dcs, &ys);
    assert_eq!(back, xs);
}
