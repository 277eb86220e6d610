use joesort::Shape;

fn mean_of(shape: &Shape) -> f64 {
    shape.sum() as f64 / shape.values() as f64
}

fn variance_of(shape: &Shape) -> f64 {
    let n = shape.values() as f64;
    let mean = shape.sum() as f64 / n;
    shape.sum_sq() as f64 / n - mean * mean
}

#[test]
fn shape_basic_test() {
    let asc_int: Vec<i32> = vec![0, 1, 2, 3, 4];
    let desc_int: Vec<i32> = vec![4, 3, 2, 1, 0];
    let unsorted_int: Vec<i32> = vec![4, 0, 2, 1, 3];

    let a_shape = Shape::from_slice(&asc_int);
    let d_shape = Shape::from_slice(&desc_int);
    let u_shape = Shape::from_slice(&unsorted_int);

    assert!(a_shape.sorted() && a_shape.ascending());
    assert!(d_shape.sorted() && d_shape.descending());
    assert!(!u_shape.sorted());

    assert_eq!(2.0, mean_of(&a_shape));
    assert_eq!(2.0, mean_of(&d_shape));
    assert_eq!(2.0, mean_of(&u_shape));

    let similar_shape_desc: Vec<i32> = vec![4, 2, 2, 2, 0];
    let ssd_shape = Shape::from_slice(&similar_shape_desc);
    assert!(ssd_shape.sorted());
    assert!(ssd_shape.descending());
    assert!(mean_of(&ssd_shape) == mean_of(&d_shape));
    assert!(ssd_shape.max() == d_shape.max());
    assert!(ssd_shape.min() == d_shape.min());
    // variance is different, so they're not the same shape
    assert!(ssd_shape != d_shape);

    let ssd_shape2 = Shape::from_slice(&similar_shape_desc);
    assert!(ssd_shape == ssd_shape2);
}

#[test]
fn shape_mean_and_variance_are_exact() {
    let desc: Vec<i32> = vec![4, 3, 2, 1, 0];
    let flat: Vec<i32> = vec![4, 2, 2, 2, 0];

    let d_shape = Shape::from_slice(&desc);
    assert_eq!(d_shape.sum(), 10);
    assert_eq!(d_shape.sum_sq(), 30);
    assert_eq!(mean_of(&d_shape), 2.0);
    assert_eq!(variance_of(&d_shape), 2.0);

    let f_shape = Shape::from_slice(&flat);
    assert_eq!(f_shape.sum(), 10);
    assert_eq!(f_shape.sum_sq(), 28);
    assert_eq!(mean_of(&f_shape), 2.0);
    assert!((variance_of(&f_shape) - 1.6).abs() < 1e-9);
}

#[test]
fn shape_empty_and_single() {
    let empty = Shape::new();
    assert_eq!(empty.size(), 0);
    assert_eq!(empty.len(), 0);
    assert_eq!(empty.values(), 0);
    assert_eq!(empty.min(), None);
    assert_eq!(empty.max(), None);
    assert!(empty.sorted());
    assert!(empty.ascending());
    assert!(empty.descending());

    let mut one = Shape::new();
    one.add(-5);
    assert_eq!(one.size(), 1);
    assert_eq!(one.min(), Some(-5));
    assert_eq!(one.max(), Some(-5));
    assert!(one.sorted() && one.ascending() && one.descending());
}

#[test]
fn shape_equal_samples_keep_both_flags() {
    let mut shape = Shape::new();
    shape.add(7);
    shape.add(7);
    shape.add(7);
    assert!(shape.ascending());
    assert!(shape.descending());
    assert!(shape.sorted());
    assert_eq!(shape.min(), Some(7));
    assert_eq!(shape.max(), Some(7));
}

#[test]
fn shape_flags_downgrade_monotonically() {
    let mut shape = Shape::new();
    shape.add(1);
    shape.add(3);
    assert!(shape.ascending() && !shape.descending());
    shape.add(2);
    assert!(!shape.ascending() && !shape.descending());
    assert!(!shape.sorted());
    // once cleared, later monotone samples never restore the flags
    shape.add(5);
    shape.add(7);
    assert!(!shape.ascending());
    assert!(!shape.sorted());
}

#[test]
fn shape_add_null_only_grows_population() {
    let mut shape = Shape::new();
    shape.add(2);
    shape.add(4);
    let before_sum = shape.sum();
    shape.add_null();
    assert_eq!(shape.size(), 3);
    assert_eq!(shape.len(), 3);
    assert_eq!(shape.values(), 2);
    assert_eq!(shape.sum(), before_sum);
    assert_eq!(shape.min(), Some(2));
    assert_eq!(shape.max(), Some(4));
    assert!(shape.ascending());
    assert_eq!(mean_of(&shape), 3.0);
}

#[test]
fn shape_incremental_matches_bulk() {
    let nums: Vec<i32> = vec![-3, 8, 8, 0, -1];
    let bulk = Shape::from_slice(&nums);
    let mut inc = Shape::new();
    for n in nums {
        inc.add(n);
    }
    assert!(bulk == inc);
    assert_eq!(bulk.size(), 5);
    assert_eq!(bulk.min(), Some(-3));
    assert_eq!(bulk.max(), Some(8));
    assert!(!bulk.sorted());
}
