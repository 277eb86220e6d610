use joesort::{joe_sort, moej_sort, Shape, SortOrder};
use rand::Rng;

fn gen_rands(size: usize) -> Vec<i32> {
    let mut rng = rand::thread_rng();
    (0..size).map(|_| rng.gen()).collect()
}

#[test]
fn moej_sort_ints_test() {
    let mut nums: Vec<i32> = gen_rands(10_000);

    let ushape = Shape::from_slice(&nums);

    // totally unsorted
    assert!(!ushape.sorted());
    assert!(!ushape.descending());
    assert!(!ushape.ascending());

    moej_sort(&mut nums, SortOrder::Ascending);
    // ascending order shape
    let ashape = Shape::from_slice(&nums);

    assert!(ashape.sorted());
    assert!(ashape.ascending());
    assert!(!ashape.descending());

    moej_sort(&mut nums, SortOrder::Descending);
    // descending order shape
    let dshape = Shape::from_slice(&nums);
    assert!(dshape.descending() && dshape.sorted());
    assert!(!dshape.ascending());
}

#[test]
fn sort_ascending_scenario() {
    let mut nums: Vec<i32> = vec![4, 0, 2, 1, 3];
    joe_sort(&mut nums);
    assert_eq!(nums, vec![0, 1, 2, 3, 4]);

    let shape = Shape::from_slice(&nums);
    assert_eq!(shape.sum() as f64 / shape.values() as f64, 2.0);
    assert_eq!(shape.min(), Some(0));
    assert_eq!(shape.max(), Some(4));
    assert!(shape.ascending());
    assert!(shape.sorted());
}

#[test]
fn sort_descending_scenario() {
    let mut nums: Vec<i32> = vec![0, 1, 2, 3, 4];
    moej_sort(&mut nums, SortOrder::Descending);
    assert_eq!(nums, vec![4, 3, 2, 1, 0]);
}

#[test]
fn sort_is_idempotent() {
    let mut asc: Vec<i32> = vec![-7, -7, 0, 3, 3, 9];
    joe_sort(&mut asc);
    assert_eq!(asc, vec![-7, -7, 0, 3, 3, 9]);

    let mut desc: Vec<i32> = vec![9, 3, 3, 0, -7, -7];
    moej_sort(&mut desc, SortOrder::Descending);
    assert_eq!(desc, vec![9, 3, 3, 0, -7, -7]);
}

#[test]
fn sort_keeps_duplicates() {
    let mut nums: Vec<i32> = vec![3, 1, 3, 2, 1, 3];
    joe_sort(&mut nums);
    assert_eq!(nums, vec![1, 1, 2, 3, 3, 3]);
}

#[test]
fn sort_small_and_extreme_inputs() {
    let mut empty: Vec<i32> = vec![];
    joe_sort(&mut empty);
    assert_eq!(empty, Vec::<i32>::new());

    let mut single: Vec<i32> = vec![42];
    joe_sort(&mut single);
    assert_eq!(single, vec![42]);

    let mut pair: Vec<i32> = vec![2, 1];
    joe_sort(&mut pair);
    assert_eq!(pair, vec![1, 2]);

    let mut extremes: Vec<i32> = vec![0, i32::MAX, i32::MIN, -1];
    joe_sort(&mut extremes);
    assert_eq!(extremes, vec![i32::MIN, -1, 0, i32::MAX]);
}

#[test]
fn sorted_output_has_sorted_shape() {
    let mut nums: Vec<i32> = gen_rands(1_000);
    joe_sort(&mut nums);
    let shape = Shape::from_slice(&nums);
    assert!(shape.ascending());
    assert!(shape.sorted());
}
