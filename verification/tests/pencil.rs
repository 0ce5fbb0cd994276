use pencil_decomp::Pencil;
use pencil_decomp::pencil::recv_counts_gather_axis;
use pencil_decomp::pencil::recv_counts_all_to_all;
use pencil_decomp::pencil::send_counts_all_to_all;

fn x_pencil_2d(rank: usize) -> Pencil {
    Pencil::new(vec![6, 5], 0, vec![2], vec![rank], vec![false])
}

fn y_pencil_2d(rank: usize) -> Pencil {
    Pencil::new(vec![6, 5], 1, vec![2], vec![rank], vec![false])
}

#[test]
fn shapes_and_lengths() {
    // 5 points over 2 processes: the first rank gets 2, the second gets 3
    let x0 = x_pencil_2d(0);
    assert_eq!(x0.shape(), vec![6, 2]);
    assert_eq!(x0.len(), 12);
    let x1 = x_pencil_2d(1);
    assert_eq!(x1.shape(), vec![6, 3]);
    assert_eq!(x1.len(), 18);
    assert_eq!(x0.shape_global(), vec![6, 5]);
    assert_eq!(x1.len_global(), 30);
    assert!(!x0.is_empty());
}

#[test]
fn topology_queries() {
    let x0 = x_pencil_2d(1);
    assert_eq!(x0.cart_dims(), vec![2]);
    assert_eq!(x0.cart_coords(), vec![1]);
    assert_eq!(x0.cart_periodic(), vec![false]);
    assert_eq!(x0.nprocs_along_axis(1), 2);
    let sub = x0.subcomm_along_axis(1);
    assert_eq!(sub.retain, vec![true]);
    assert_eq!(sub.size, 2);
    assert_eq!(sub.rank, 1);
}

#[test]
fn subgroup_3d() {
    // process grid [2, 3], this process at (1, 2)
    let y = Pencil::new(vec![6, 7, 9], 1, vec![2, 3], vec![1, 2], vec![false, false]);
    assert_eq!(y.shape(), vec![3, 7, 3]);
    let sub0 = y.subcomm_along_axis(0);
    assert_eq!(sub0.retain, vec![true, false]);
    assert_eq!(sub0.size, 2);
    assert_eq!(sub0.rank, 1);
    let sub2 = y.subcomm_along_axis(2);
    assert_eq!(sub2.retain, vec![false, true]);
    assert_eq!(sub2.size, 3);
    assert_eq!(sub2.rank, 2);
}

#[test]
fn gather_counts_scenario() {
    // global shape [6, 5], two processes split along axis 1 with chunk
    // sizes [2, 3]: gathering axis 1 needs counts [12, 18], displacements
    // [0, 12]
    let pencil = x_pencil_2d(0);
    let (counts, displs) = recv_counts_gather_axis(&pencil, 1);
    assert_eq!(counts, vec![12, 18]);
    assert_eq!(displs, vec![0, 12]);
}

#[test]
fn transpose_counts_sum_to_length() {
    for rank in 0..2 {
        let x = x_pencil_2d(rank);
        let y = y_pencil_2d(rank);
        let (sc, sd) = send_counts_all_to_all(&x, &y);
        let (rc, rd) = recv_counts_all_to_all(&x, &y);
        assert_eq!(sc.iter().sum::<usize>(), x.len());
        assert_eq!(rc.iter().sum::<usize>(), y.len());
        // displacements are the exclusive prefix sums
        let mut acc: usize = 0;
        for (c, d) in sc.iter().zip(sd.iter()) {
            assert_eq!(*d, acc);
            acc += c;
        }
        let mut acc: usize = 0;
        for (c, d) in rc.iter().zip(rd.iter()) {
            assert_eq!(*d, acc);
            acc += c;
        }
    }
}

#[test]
fn transpose_counts_values_2d() {
    // x -> y at rank 0: count for peer r is sz0[r] * sz1[0] = 3 * 2
    let x = x_pencil_2d(0);
    let y = y_pencil_2d(0);
    let (sc, _) = send_counts_all_to_all(&x, &y);
    assert_eq!(sc, vec![6, 6]);
    let x1 = x_pencil_2d(1);
    let y1 = y_pencil_2d(1);
    let (sc1, sd1) = send_counts_all_to_all(&x1, &y1);
    assert_eq!(sc1, vec![9, 9]);
    assert_eq!(sd1, vec![0, 9]);
}
