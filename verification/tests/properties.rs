use algonium::{
    adj4_iter, lower_bound, next_permutation, prev_permutation, upper_bound, BitArray, MaxOp,
    MinOp, SegmentTree, UnionFind, XorShift, BIT, BITRange, RMQ,
};

#[test]
fn fresh_structures_read_as_zero() {
    let bit = BIT::new(17);
    assert_eq!(17, bit.len());
    for b in 0..17 {
        for e in b..18 {
            assert_eq!(0, bit.get(b, e));
        }
    }
    let range = BITRange::new(9);
    for b in 0..9 {
        for e in b..10 {
            assert_eq!(0, range.get(b, e));
        }
    }
    let tree: SegmentTree<MinOp, i64> = SegmentTree::from_vec(Vec::new());
    assert_eq!(0, tree.size());
    assert_eq!(None, tree.query(0, 0));
    let bits = BitArray::new(70);
    assert_eq!(70, bits.len());
    assert!(!bits.is_empty());
    for i in 0..70 {
        assert_eq!(false, bits.get(i));
    }
    assert!(BitArray::new(0).is_empty());
}

#[test]
fn fenwick_point_scenario() {
    let mut bit = BIT::new(10);
    bit.add(5, 100);
    assert_eq!(100, bit.get(3, 6));
    bit.add(5, 10);
    assert_eq!(110, bit.get(3, 6));
}

#[test]
fn fenwick_matches_naive_on_random_ops() {
    let mut rng = XorShift::new();
    let n = 23;
    let mut naive = vec![0i64; n];
    let mut bit = BIT::new(n);
    for _ in 0..300 {
        let i = (rng.next_u32() as usize) % n;
        let v = (rng.next_u32() % 2001) as i64 - 1000;
        naive[i] += v;
        bit.add(i, v);
        let b = (rng.next_u32() as usize) % (n + 1);
        let e = (rng.next_u32() as usize) % (n + 1);
        let expected: i64 = if b < e { naive[b..e].iter().sum() } else { 0 };
        assert_eq!(expected, bit.get(b, e));
    }
}

#[test]
fn fenwick_range_matches_naive_on_range_combinations() {
    let n = 12;
    let mut naive = vec![0i64; n];
    let mut range = BITRange::new(n);
    let updates = [(0, 12, 3i64), (4, 4, 99), (2, 7, -5), (7, 8, 11), (0, 1, 1), (11, 12, -2)];
    for &(b, e, d) in updates.iter() {
        for k in b..e {
            naive[k] += d;
        }
        range.add(b, e, d);
        for qb in 0..n + 1 {
            for qe in 0..n + 1 {
                let expected: i64 = if qb < qe { naive[qb..qe].iter().sum() } else { 0 };
                assert_eq!(expected, range.get(qb, qe));
            }
        }
    }
}

#[test]
fn min_segment_tree_scenario() {
    let mut rms = RMQ::from_vec(vec![1, 5, 4, 8, 6, 9, 2, 0]);
    assert_eq!(Some(0), rms.query(0, 8));
    assert_eq!(Some(4), rms.query(1, 4));
    rms.update(7, 5);
    assert_eq!(Some(1), rms.query(0, 8));
    assert_eq!(Some(5), rms.query(7, 8));
    for k in 0..9 {
        assert_eq!(None, rms.query(k, k));
    }
}

#[test]
fn max_segment_tree_matches_naive() {
    let values = vec![3i64, -1, 7, 7, 0, 5, -9, 2, 4];
    let tree: SegmentTree<MaxOp, i64> = SegmentTree::from_vec(values.clone());
    assert_eq!(values.len(), tree.size());
    for b in 0..values.len() {
        for e in b..values.len() + 1 {
            assert_eq!(values[b..e].iter().cloned().max(), tree.query(b, e));
        }
    }
}

#[test]
fn union_find_scenario() {
    let mut uf = UnionFind::new(4);
    assert!(uf.unite(0, 1));
    assert_eq!(2, uf.size(0));
    assert!(uf.unite(1, 2));
    assert!(uf.same(0, 2));
    assert_eq!(3, uf.size(0));
    assert!(!uf.unite(0, 2));
}

#[test]
fn union_find_sizes_count_connected_elements() {
    let n = 16;
    let mut uf = UnionFind::new(n);
    let pairs = [(0, 1), (2, 3), (1, 3), (5, 6), (7, 7), (6, 5), (14, 15), (13, 14), (3, 0)];
    for &(x, y) in pairs.iter() {
        let before = uf.same(x, y);
        let merged = uf.unite(x, y);
        assert_eq!(merged, !before);
        // connectivity stays an equivalence relation, checked exhaustively
        for a in 0..n {
            assert!(uf.same(a, a));
            for b in 0..n {
                let ab = uf.same(a, b);
                assert_eq!(ab, uf.same(b, a));
                if ab {
                    for c in 0..n {
                        assert_eq!(uf.same(a, c), uf.same(b, c));
                    }
                    assert_eq!(uf.size(a), uf.size(b));
                }
            }
            assert_eq!(uf.size(a) as usize, (0..n).filter(|&c| uf.same(a, c)).count());
        }
    }
}

#[test]
fn bit_array_ops_match_bitwise_semantics_on_random_pairs() {
    let mut rng = XorShift::new();
    let n = 131;
    for _ in 0..10 {
        let mut left = vec![false; n];
        let mut right = vec![false; n];
        let mut a = BitArray::new(n);
        let mut b = BitArray::new(n);
        for i in 0..n {
            if rng.next_u32() % 2 == 0 {
                left[i] = true;
                a.set(i, true);
            }
            if rng.next_u32() % 3 == 0 {
                right[i] = true;
                b.set(i, true);
            }
        }
        let mode = rng.next_u32() % 3;
        match mode {
            0 => a.union(&b),
            1 => a.intersect(&b),
            _ => a.difference(&b),
        }
        for i in 0..n {
            let expected = match mode {
                0 => left[i] || right[i],
                1 => left[i] && right[i],
                _ => left[i] && !right[i],
            };
            assert_eq!(expected, a.get(i), "bit {} after mode {}", i, mode);
        }
    }
}

#[test]
fn bounds_on_empty_and_uniform_slices() {
    let empty: [i64; 0] = [];
    assert_eq!(0, lower_bound(&empty, &5));
    assert_eq!(0, upper_bound(&empty, &5));
    let same = [7i64, 7, 7, 7];
    assert_eq!(0, lower_bound(&same, &7));
    assert_eq!(4, upper_bound(&same, &7));
}

#[test]
fn permutation_stops_at_the_ends() {
    let mut last = [4i64, 3, 2, 1, 0];
    assert!(!next_permutation(&mut last));
    assert_eq!(&last, &[4, 3, 2, 1, 0]);
    let mut first = [0i64, 1, 2, 3, 4];
    assert!(!prev_permutation(&mut first));
    assert_eq!(&first, &[0, 1, 2, 3, 4]);
    let mut single = [9i64];
    assert!(!next_permutation(&mut single));
    assert!(!prev_permutation(&mut single));
}

#[test]
fn adj4_covers_single_cell_grid() {
    let mut iter = adj4_iter(0, 0, 1, 1);
    assert_eq!(None, iter.next());
    assert_eq!(None, iter.next());
}
