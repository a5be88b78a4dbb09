use algonium::{adj4_iter, lower_bound, next_permutation, prev_permutation, upper_bound, XorShift};

#[test]
fn test_lower_bound() {
    let data = [0, 0, 1, 1, 2];
    assert_eq!(0, lower_bound(&data, &-1));
    assert_eq!(0, lower_bound(&data, &0));
    assert_eq!(2, lower_bound(&data, &1));
    assert_eq!(4, lower_bound(&data, &2));
    assert_eq!(5, lower_bound(&data, &3));
}

#[test]
fn test_upper_bound() {
    let data = [0, 0, 1, 1, 2];
    assert_eq!(0, upper_bound(&data, &-1));
    assert_eq!(2, upper_bound(&data, &0));
    assert_eq!(4, upper_bound(&data, &1));
    assert_eq!(5, upper_bound(&data, &2));
    assert_eq!(5, upper_bound(&data, &3));
}

#[test]
fn test_adj4_normal() {
    let mut iter = adj4_iter(2, 1, 4, 4);
    assert_eq!(Some((2, 2)), iter.next());
    assert_eq!(Some((3, 1)), iter.next());
    assert_eq!(Some((2, 0)), iter.next());
    assert_eq!(Some((1, 1)), iter.next());
    assert_eq!(None, iter.next());
}

#[test]
fn test_adj4_upperleft() {
    let mut iter = adj4_iter(0, 0, 4, 4);
    assert_eq!(Some((0, 1)), iter.next());
    assert_eq!(Some((1, 0)), iter.next());
    assert_eq!(None, iter.next());
}

#[test]
fn test_adj4_lowerright() {
    let mut iter = adj4_iter(3, 3, 4, 4);
    assert_eq!(Some((3, 2)), iter.next());
    assert_eq!(Some((2, 3)), iter.next());
    assert_eq!(None, iter.next());
}

#[test]
fn permutation_test_simple() {
    let mut data = [0, 0, 1, 1, 2];
    next_permutation(&mut data);
    assert_eq!(&data, &[0, 0, 1, 2, 1]);
    next_permutation(&mut data);
    assert_eq!(&data, &[0, 0, 2, 1, 1]);
    next_permutation(&mut data);
    assert_eq!(&data, &[0, 1, 0, 1, 2]);
    next_permutation(&mut data);
    assert_eq!(&data, &[0, 1, 0, 2, 1]);
    next_permutation(&mut data);
    assert_eq!(&data, &[0, 1, 1, 0, 2]);
    prev_permutation(&mut data);
    assert_eq!(&data, &[0, 1, 0, 2, 1]);
    prev_permutation(&mut data);
    assert_eq!(&data, &[0, 1, 0, 1, 2]);
    prev_permutation(&mut data);
    assert_eq!(&data, &[0, 0, 2, 1, 1]);
    prev_permutation(&mut data);
    assert_eq!(&data, &[0, 0, 1, 2, 1]);
    prev_permutation(&mut data);
    assert_eq!(&data, &[0, 0, 1, 1, 2]);
    assert!(!prev_permutation(&mut data));
}

#[test]
fn test_basic() {
    let mut xorshift = XorShift::new();
    assert_eq!(3701687786, xorshift.next_u32());
    assert_eq!(458299110, xorshift.next_u32());
}
