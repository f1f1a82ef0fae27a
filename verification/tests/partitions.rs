use integer_partitions::Partitions;

/// Advances and reads until exhaustion, collecting every held partition.
fn drain(mut p: Partitions) -> Vec<Vec<usize>> {
    let mut out: Vec<Vec<usize>> = Vec::new();
    loop {
        p.advance();
        match p.get() {
            Some(x) => out.push(x.to_vec()),
            None => break,
        }
    }
    out
}

#[test]
fn oeis() {
    // Tests the first few entries of A000041.

    let tests: &[usize] = &[
        1, 1, 2, 3, 5, 7, 11, 15, 22,
        30, 42, 56, 77, 101, 135, 176, 231,
        297, 385, 490, 627, 792, 1002, 1255, 1575,
        1958, 2436, 3010, 3718, 4565, 5604, 6842, 8349,
        10143, 12310, 14883, 17977, 21637, 26015, 31185, 37338,
        44583, 53174, 63261, 75175, 89134, 105558, 124754, 147273,
        173525,
    ];

    for (i, &n) in tests.iter().enumerate().skip(1) {
        let mut p = Partitions::new(i);
        let mut c = 0;

        loop {
            p.advance();
            match p.get() {
                Some(x) => {
                    let sum: usize = x.iter().cloned().sum();
                    assert_eq!(sum, i);
                    c += 1;
                }
                None => break,
            }
        }

        assert_eq!(c, n);
    }
}

#[test]
fn n0() {
    // Tests the special case n == 0.

    let mut p = Partitions::new(0);
    p.advance();
    assert_eq!(p.get().unwrap().len(), 0);
    p.advance();
    assert!(p.get().is_none());
}

#[test]
fn n1() {
    let mut p = Partitions::new(1);
    p.advance();
    assert_eq!(p.get().unwrap(), &[1]);
    p.advance();
    assert!(p.get().is_none());
}

#[test]
fn n4_multiset() {
    let mut got = drain(Partitions::new(4));
    got.sort();
    let mut want = vec![
        vec![4],
        vec![1, 3],
        vec![2, 2],
        vec![1, 1, 2],
        vec![1, 1, 1, 1],
    ];
    want.sort();
    assert_eq!(got, want);
}

#[test]
fn parts_positive_sorted_and_sum() {
    for n in 0..12usize {
        for part in drain(Partitions::new(n)) {
            let sum: usize = part.iter().cloned().sum();
            assert_eq!(sum, n);
            for &v in &part {
                assert!(v >= 1);
            }
            for w in part.windows(2) {
                assert!(w[0] <= w[1]);
            }
        }
    }
}

#[test]
fn no_partition_repeats() {
    for n in 0..12usize {
        let got = drain(Partitions::new(n));
        for i in 0..got.len() {
            for j in 0..i {
                assert_ne!(got[i], got[j]);
            }
        }
    }
}

#[test]
fn emissions_increase_lexicographically() {
    for n in 0..10usize {
        let got = drain(Partitions::new(n));
        for w in got.windows(2) {
            assert!(w[0] < w[1]);
        }
    }
}

#[test]
fn exhaustion_is_stable() {
    let mut p = Partitions::new(3);
    loop {
        p.advance();
        if p.get().is_none() {
            break;
        }
    }
    for _ in 0..5 {
        assert!(p.get().is_none());
        p.advance();
    }
    assert!(p.get().is_none());
}

#[test]
fn read_before_first_advance_is_none() {
    let p = Partitions::new(6);
    assert!(p.get().is_none());
}

#[test]
fn recycled_storage_matches_fresh() {
    let mut p = Partitions::new(5);
    loop {
        p.advance();
        if p.get().is_none() {
            break;
        }
    }
    let storage = p.end();

    let mut reused = drain(Partitions::recycle(7, storage));
    let mut fresh = drain(Partitions::new(7));
    reused.sort();
    fresh.sort();
    assert_eq!(reused, fresh);
}

#[test]
fn recycle_to_zero() {
    let storage = Partitions::new(9).end();
    let mut p = Partitions::recycle(0, storage);
    p.advance();
    assert_eq!(p.get().unwrap().len(), 0);
    p.advance();
    assert!(p.get().is_none());
}
