use pencil_decomp::Distribution;

#[test]
fn contiguous_holds_whole_axis() {
    let d = Distribution::contiguous(7);
    assert_eq!(d.sz, 7);
    assert_eq!(d.st, 0);
    assert_eq!(d.en, 6);
    assert_eq!(d.sz_procs, vec![7]);
    assert_eq!(d.st_procs, vec![0]);
    assert_eq!(d.en_procs, vec![6]);
}

#[test]
fn split_even() {
    let d = Distribution::split(6, 2, 0);
    assert_eq!(d.sz_procs, vec![3, 3]);
    assert_eq!(d.st_procs, vec![0, 3]);
    assert_eq!(d.en_procs, vec![2, 5]);
    assert_eq!(d.sz, 3);
    assert_eq!(d.st, 0);
    assert_eq!(d.en, 2);
    let d1 = Distribution::split(6, 2, 1);
    assert_eq!(d1.sz, 3);
    assert_eq!(d1.st, 3);
    assert_eq!(d1.en, 5);
}

#[test]
fn split_with_remainder() {
    // 10 over 3: the first process gets 3, the last two get 4 each
    let d = Distribution::split(10, 3, 1);
    assert_eq!(d.sz_procs, vec![3, 3, 4]);
    assert_eq!(d.st_procs, vec![0, 3, 6]);
    assert_eq!(d.en_procs, vec![2, 5, 9]);
    assert_eq!(d.sz, 3);
    assert_eq!(d.st, 3);
    assert_eq!(d.en, 5);
}

#[test]
fn split_one_each() {
    let d = Distribution::split(4, 4, 2);
    assert_eq!(d.sz_procs, vec![1, 1, 1, 1]);
    assert_eq!(d.st_procs, vec![0, 1, 2, 3]);
    assert_eq!(d.en_procs, vec![0, 1, 2, 3]);
}

#[test]
fn partition_complete_and_contiguous() {
    // sizes sum to n; chunks are contiguous with no gaps or overlaps
    for &(n, p) in &[(6usize, 2usize), (10, 3), (7, 7), (23, 5), (100, 7), (5, 1)] {
        let d = Distribution::split(n, p, 0);
        let total: usize = d.sz_procs.iter().sum();
        assert_eq!(total, n);
        assert_eq!(d.st_procs[0], 0);
        assert_eq!(d.en_procs[p - 1], n - 1);
        for i in 0..p {
            assert_eq!(d.en_procs[i], d.st_procs[i] + d.sz_procs[i] - 1);
            if i > 0 {
                assert_eq!(d.st_procs[i], d.en_procs[i - 1] + 1);
            }
        }
    }
}

#[test]
fn partition_balanced() {
    // max chunk size minus min chunk size is at most one
    for &(n, p) in &[(6usize, 2usize), (10, 3), (7, 7), (23, 5), (100, 7), (999, 13)] {
        let d = Distribution::split(n, p, 0);
        let max = *d.sz_procs.iter().max().unwrap();
        let min = *d.sz_procs.iter().min().unwrap();
        assert!(max - min <= 1, "unbalanced split of {} over {}", n, p);
    }
}
