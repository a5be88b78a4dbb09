use algonium::{BitArray, BIT, BITRange, RMQ, UnionFind};

#[test]
fn test_empty_range() {
    let mut bit = BITRange::new(10);
    bit.add(9, 0, 100);
    bit.add(7, 3, 100);
    assert_eq!(0, bit.get(0, 9));
    assert_eq!(0, bit.get(0, 5));
    assert_eq!(0, bit.get(2, 5));
}

#[test]
fn bit_test_simple() {
    let mut bit = BIT::new(10);
    bit.add(2, 1);
    bit.add(3, 3);
    bit.add(5, 10);
    bit.add(0, -4);
    bit.add(9, -5);
    assert_eq!(5, bit.get(0, 10));
    assert_eq!(4, bit.get(2, 4));
    assert_eq!(1, bit.get(2, 3));
    assert_eq!(0, bit.get(2, 2));
    assert_eq!(0, bit.get(2, 0));
    assert_eq!(-4, bit.get(0, 1));
    assert_eq!(5, bit.get(5, 10));

    let mut bit = BITRange::new(10);
    bit.add(1, 3, 1);
    bit.add(2, 5, 2);
    assert_eq!(1, bit.get(1, 2));
    assert_eq!(4, bit.get(1, 3));
    assert_eq!(6, bit.get(1, 4));
    assert_eq!(6, bit.get(0, 4));
}

#[test]
fn test_get_and_set() {
    let mut bit = BitArray::new(5);
    assert_eq!(false, bit.get(0));
    assert_eq!(false, bit.get(2));
    assert_eq!(false, bit.get(4));
    bit.set(0, true);
    bit.set(1, true);
    bit.set(4, true);
    assert_eq!(true, bit.get(0));
    assert_eq!(false, bit.get(2));
    assert_eq!(true, bit.get(4));
}

#[test]
fn test_get_and_set_100() {
    let mut bit = BitArray::new(100);
    for i in 0..100 {
        bit.set(i, i % 2 == 0);
    }
    for i in 0..100 {
        assert_eq!(i % 2 == 0, bit.get(i));
    }
}

#[test]
fn test_intersect() {
    let mut bit1 = {
        let mut bit = BitArray::new(5);
        bit.set(0, true);
        bit.set(1, true);
        bit.set(4, true);
        bit
    };
    let bit2 = {
        let mut bit = BitArray::new(5);
        bit.set(0, true);
        bit.set(2, true);
        bit.set(4, true);
        bit
    };
    bit1.intersect(&bit2);
    assert_eq!(true, bit1.get(0));
    assert_eq!(false, bit1.get(1));
    assert_eq!(false, bit1.get(2));
    assert_eq!(false, bit1.get(3));
    assert_eq!(true, bit1.get(4));
}

#[test]
fn test_union() {
    let mut bit1 = {
        let mut bit = BitArray::new(5);
        bit.set(0, true);
        bit.set(1, true);
        bit.set(4, true);
        bit
    };
    let bit2 = {
        let mut bit = BitArray::new(5);
        bit.set(0, true);
        bit.set(2, true);
        bit.set(4, true);
        bit
    };
    bit1.union(&bit2);
    assert_eq!(true, bit1.get(0));
    assert_eq!(true, bit1.get(1));
    assert_eq!(true, bit1.get(2));
    assert_eq!(false, bit1.get(3));
    assert_eq!(true, bit1.get(4));
}

#[test]
fn test_difference() {
    let mut bit1 = {
        let mut bit = BitArray::new(5);
        bit.set(0, true);
        bit.set(1, true);
        bit.set(4, true);
        bit
    };
    let bit2 = {
        let mut bit = BitArray::new(5);
        bit.set(0, true);
        bit.set(2, true);
        bit.set(4, true);
        bit
    };
    bit1.difference(&bit2);
    assert_eq!(false, bit1.get(0));
    assert_eq!(true, bit1.get(1));
    assert_eq!(false, bit1.get(2));
    assert_eq!(false, bit1.get(3));
    assert_eq!(false, bit1.get(4));
}

#[test]
fn test_rms() {
    let mut test = vec![1, 5, 4, 8, 6, 9, 2, 0, 8, 1];
    let mut rms = RMQ::from_vec(test.clone());
    for i in 0..test.len() {
        for j in i..test.len() + 1 {
            assert_eq!(test[i..j].iter().cloned().min(), rms.query(i, j));
        }
    }
    rms.update(7, 5);
    test[7] = 5;
    for i in 0..test.len() {
        for j in i..test.len() + 1 {
            assert_eq!(test[i..j].iter().cloned().min(), rms.query(i, j));
        }
    }
}

#[test]
fn union_find_test_simple() {
    let mut uf = UnionFind::new(3);
    assert_eq!(1, uf.size(0));
    assert_eq!(1, uf.size(1));
    assert_eq!(1, uf.size(2));
    assert_eq!(0, uf.root(0));
    assert_eq!(1, uf.root(1));
    assert_eq!(2, uf.root(2));
    assert!(!uf.same(1, 2));
    uf.unite(1, 2);
    assert_ne!(uf.root(0), uf.root(2));
    assert_eq!(uf.root(1), uf.root(2));
    assert_eq!(1, uf.size(0));
    assert_eq!(2, uf.size(1));
    assert_eq!(2, uf.size(2));
    assert!(uf.same(1, 2));
    uf.unite(0, 1);
    assert_eq!(uf.root(0), uf.root(2));
    assert_eq!(uf.root(1), uf.root(2));
    assert_eq!(3, uf.size(0));
    assert_eq!(3, uf.size(1));
    assert_eq!(3, uf.size(2));
    assert!(uf.same(1, 2));
    assert!(uf.same(0, 2));
}
