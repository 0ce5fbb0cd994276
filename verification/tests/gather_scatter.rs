use pencil_decomp::Decomp2;
use pencil_decomp::pencil::recv_counts_gather_axis;

fn value(i: usize, j: usize) -> u64 {
    (i * 100 + j) as u64
}

fn decomps(n_global: Vec<usize>, nprocs: usize) -> Vec<Decomp2> {
    (0..nprocs)
        .map(|rank| Decomp2::new(n_global.clone(), vec![nprocs], vec![rank], vec![false]))
        .collect()
}

fn global_fill(n0: usize, n1: usize) -> Vec<u64> {
    let mut g = Vec::new();
    for i in 0..n0 {
        for j in 0..n1 {
            g.push(value(i, j));
        }
    }
    g
}

fn x_fill(dc: &Decomp2) -> Vec<u64> {
    let d0 = &dc.x_pencil.dists[0];
    let d1 = &dc.x_pencil.dists[1];
    let mut data = Vec::new();
    for i in d0.st..=d0.en {
        for j in d1.st..=d1.en {
            data.push(value(i, j));
        }
    }
    data
}

fn y_fill(dc: &Decomp2) -> Vec<u64> {
    let d0 = &dc.y_pencil.dists[0];
    let d1 = &dc.y_pencil.dists[1];
    let mut data = Vec::new();
    for i in d0.st..=d0.en {
        for j in d1.st..=d1.en {
            data.push(value(i, j));
        }
    }
    data
}

// Gather performed locally: the root's buffer is the rank-ordered
// concatenation of the packed per-rank buffers, cut by the count table.
fn gather(bufs: &[Vec<u64>], counts: &[usize], displs: &[usize]) -> Vec<u64> {
    let total: usize = counts.iter().sum();
    let mut gbuf = vec![0u64; total];
    for q in 0..bufs.len() {
        gbuf[displs[q]..displs[q] + counts[q]].copy_from_slice(&bufs[q]);
    }
    gbuf
}

// Scatter performed locally: each rank gets its segment of the root's
// packed buffer.
fn scatter(gbuf: &[u64], counts: &[usize], displs: &[usize]) -> Vec<Vec<u64>> {
    (0..counts.len()).map(|q| gbuf[displs[q]..displs[q] + counts[q]].to_vec()).collect()
}

#[test]
fn gather_x_reassembles_global() {
    let dcs = decomps(vec![6, 5], 2);
    let packed: Vec<Vec<u64>> =
        dcs.iter().map(|dc| dc.gather_x_pack(&x_fill(dc))).collect();
    let (counts, displs) = recv_counts_gather_axis(&dcs[0].x_pencil, 1);
    let gbuf = gather(&packed, &counts, &displs);
    let mut root = vec![0u64; 6 * 5];
    dcs[0].gather_x_unpack(&gbuf, &mut root);
    assert_eq!(root, global_fill(6, 5));
}

#[test]
fn gather_y_reassembles_global() {
    let dcs = decomps(vec![6, 5], 2);
    let packed: Vec<Vec<u64>> =
        dcs.iter().map(|dc| dc.gather_y_pack(&y_fill(dc))).collect();
    let (counts, displs) = recv_counts_gather_axis(&dcs[0].y_pencil, 0);
    let gbuf = gather(&packed, &counts, &displs);
    let mut root = vec![0u64; 6 * 5];
    dcs[0].gather_y_unpack(&gbuf, &mut root);
    assert_eq!(root, global_fill(6, 5));
}

#[test]
fn scatter_x_distributes_global() {
    let dcs = decomps(vec![6, 5], 2);
    let g = global_fill(6, 5);
    let packed = dcs[0].scatter_x_pack(&g);
    let (counts, displs) = recv_counts_gather_axis(&dcs[0].x_pencil, 1);
    let segs = scatter(&packed, &counts, &displs);
    for (dc, seg) in dcs.iter().zip(segs.iter()) {
        let mut local = vec![0u64; dc.x_pencil.len()];
        dc.scatter_x_unpack(seg, &mut local);
        assert_eq!(local, x_fill(dc));
    }
}

#[test]
fn scatter_y_distributes_global() {
    let dcs = decomps(vec![6, 5], 2);
    let g = global_fill(6, 5);
    let packed = dcs[0].scatter_y_pack(&g);
    let (counts, displs) = recv_counts_gather_axis(&dcs[0].y_pencil, 0);
    let segs = scatter(&packed, &counts, &displs);
    for (dc, seg) in dcs.iter().zip(segs.iter()) {
        let mut local = vec![0u64; dc.y_pencil.len()];
        dc.scatter_y_unpack(seg, &mut local);
        assert_eq!(local, y_fill(dc));
    }
}

#[test]
fn scatter_then_gather_is_identity_x() {
    // arbitrary global data, scattered over the x-pencils and gathered back
    let dcs = decomps(vec![7, 9], 3);
    let g: Vec<u64> = (0..63).map(|pos| (pos * 37 + 11) as u64).collect();
    let (counts, displs) = recv_counts_gather_axis(&dcs[0].x_pencil, 1);
    let packed = dcs[0].scatter_x_pack(&g);
    let segs = scatter(&packed, &counts, &displs);
    let mut locals = Vec::new();
    for (dc, seg) in dcs.iter().zip(segs.iter()) {
        let mut local = vec![0u64; dc.x_pencil.len()];
        dc.scatter_x_unpack(seg, &mut local);
        locals.push(local);
    }
    let repacked: Vec<Vec<u64>> =
        dcs.iter().zip(locals.iter()).map(|(dc, l)| dc.gather_x_pack(l)).collect();
    let gbuf = gather(&repacked, &counts, &displs);
    let mut back = vec![0u64; 63];
    dcs[0].gather_x_unpack(&gbuf, &mut back);
    assert_eq!(back, g);
}

#[test]
fn scatter_then_gather_is_identity_y() {
    let dcs = decomps(vec![8, 6], 4);
    let g: Vec<u64> = (0..48).map(|pos| (pos * 23 + 7) as u64).collect();
    let (counts, displs) = recv_counts_gather_axis(&dcs[0].y_pencil, 0);
    let packed = dcs[0].scatter_y_pack(&g);
    let segs = scatter(&packed, &counts, &displs);
    let mut locals = Vec::new();
    for (dc, seg) in dcs.iter().zip(segs.iter()) {
        let mut local = vec![0u64; dc.y_pencil.len()];
        dc.scatter_y_unpack(seg, &mut local);
        locals.push(local);
    }
    let repacked: Vec<Vec<u64>> =
        dcs.iter().zip(locals.iter()).map(|(dc, l)| dc.gather_y_pack(l)).collect();
    let gbuf = gather(&repacked, &counts, &displs);
    let mut back = vec![0u64; 48];
    dcs[0].gather_y_unpack(&gbuf, &mut back);
    assert_eq!(back, g);
}
