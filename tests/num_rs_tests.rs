use num_rs::{nr_add, nr_arange, nr_matmul, nr_mul, nr_random, nr_reshape_new, Array, ArrayError};

#[test]
fn test_arange_i32() {
    let arr = nr_arange(1i32, 7, 1).unwrap();
    assert_eq!(arr.shape, vec![6]);
    assert_eq!(arr.data, vec![1, 2, 3, 4, 5, 6]);
}

#[test]
fn test_arange_f32() {
    let arr = nr_arange(1i64, 7, 1).unwrap();
    assert_eq!(arr.shape, vec![6]);
    assert_eq!(arr.data, vec![1, 2, 3, 4, 5, 6]);
}

#[test]
fn test_reshape() {
    let a = nr_arange(1i32, 7, 1).unwrap();
    let b = nr_reshape_new(&a, &[2, 3], 2).unwrap();
    assert_eq!(b.shape, vec![2, 3]);
    assert_eq!(b.data, vec![1, 2, 3, 4, 5, 6]);
}

#[test]
fn test_add_f64() {
    let a = nr_arange(1i64, 7, 1).unwrap();
    let b = nr_arange(1i64, 7, 1).unwrap();
    let c = nr_add(&a, &b).unwrap();
    assert_eq!(c.data, vec![2, 4, 6, 8, 10, 12]);
}

#[test]
fn test_add_with_broadcasting() {
    let a = nr_reshape_new(&nr_arange(1i32, 4, 1).unwrap(), &[1, 3], 2).unwrap();
    let b = nr_reshape_new(&nr_arange(1i32, 3, 1).unwrap(), &[2, 1], 2).unwrap();
    let c = nr_add(&a, &b).unwrap();
    assert_eq!(c.shape, vec![2, 3]);
    assert_eq!(c.data, vec![2, 3, 4, 3, 4, 5]);
}

#[test]
fn test_mul_i32() {
    let a = nr_arange(1i32, 7, 1).unwrap();
    let b = nr_arange(1i32, 7, 1).unwrap();
    let c = nr_mul(&a, &b).unwrap();
    assert_eq!(c.data, vec![1, 4, 9, 16, 25, 36]);
}

#[test]
fn test_matmul_f32() {
    let a = nr_reshape_new(&nr_arange(1i64, 5, 1).unwrap(), &[2, 2], 2).unwrap();
    let b = nr_reshape_new(&nr_arange(5i64, 9, 1).unwrap(), &[2, 2], 2).unwrap();
    let c = nr_matmul(&a, &b).unwrap();
    assert_eq!(c.shape, vec![2, 2]);
    assert_eq!(c.data, vec![19, 22, 43, 50]);
}

#[test]
fn test_matmul_i32() {
    let a = nr_reshape_new(&nr_arange(1i32, 5, 1).unwrap(), &[2, 2], 2).unwrap();
    let b = nr_reshape_new(&nr_arange(5i32, 9, 1).unwrap(), &[2, 2], 2).unwrap();
    let c = nr_matmul(&a, &b).unwrap();
    assert_eq!(c.shape, vec![2, 2]);
    assert_eq!(c.data, vec![19, 22, 43, 50]);
}

#[test]
fn test_random() {
    let arr = nr_random::<i64>(&[5, 5], 2, 0, 1).unwrap();
    assert_eq!(arr.shape, vec![5, 5]);
    assert_eq!(arr.totalsize, 25);
    for val in arr.data {
        assert!(val >= 0 && val < 1);
    }
}

#[test]
fn random_values_stay_in_range() {
    let arr = nr_random::<i32>(&[4, 8], 2, -3, 4).unwrap();
    assert_eq!(arr.totalsize, 32);
    assert!(arr.data.iter().all(|v| *v >= -3 && *v < 4));
    let fixed = nr_random::<i32>(&[3], 1, 5, 6).unwrap();
    assert_eq!(fixed.data, vec![5, 5, 5]);
}

#[test]
fn random_rejects_empty_range() {
    assert_eq!(nr_random::<i32>(&[3], 1, 4, 4).unwrap_err(), ArrayError::InvalidRange);
    assert_eq!(nr_random::<i32>(&[0], 1, 0, 4).unwrap_err(), ArrayError::InvalidShape);
}

#[test]
fn create_sets_sizes_and_zeros() {
    let a = Array::<i32>::nr_create(&[2, 3, 4], 3).unwrap();
    assert_eq!(a.totalsize, 24);
    assert_eq!(a.data.len(), 24);
    assert!(a.data.iter().all(|v| *v == 0));
    assert_eq!(a.ndim, 3);
    assert_eq!(a.itemsize, 4);
}

#[test]
fn create_computes_strides_and_flags() {
    let a = Array::<i32>::nr_create(&[2, 3, 4], 3).unwrap();
    assert_eq!(a.strides, vec![48, 16, 4]);
    assert_eq!(a.backstrides, vec![-48, -32, -12]);
    assert!(a.c_order);
    assert!(!a.f_order);
    let b = Array::<i64>::nr_create(&[5], 1).unwrap();
    assert_eq!(b.strides, vec![8]);
    assert_eq!(b.backstrides, vec![-32]);
    assert!(b.c_order && b.f_order);
}

#[test]
fn create_builds_index_tables() {
    let a = Array::<i32>::nr_create(&[2, 3], 2).unwrap();
    assert_eq!(a.idxs.count, 6);
    assert_eq!(
        a.idxs.indices,
        vec![vec![0, 0], vec![0, 1], vec![0, 2], vec![1, 0], vec![1, 1], vec![1, 2]]
    );
    assert_eq!(a.lidxs.count, 6);
    assert_eq!(a.lidxs.indices, vec![0, 1, 2, 3, 4, 5]);
}

#[test]
fn array_indices_follow_odometer_order() {
    let t = Array::<i32>::create_array_indices(&[2, 1, 3], 3);
    assert_eq!(t.count, 6);
    assert_eq!(
        t.indices,
        vec![
            vec![0, 0, 0],
            vec![0, 0, 1],
            vec![0, 0, 2],
            vec![1, 0, 0],
            vec![1, 0, 1],
            vec![1, 0, 2]
        ]
    );
    let empty = Array::<i32>::create_array_indices(&[], 0);
    assert_eq!(empty.count, 1);
    assert_eq!(empty.indices, vec![Vec::<i32>::new()]);
}

#[test]
fn linear_indices_divide_by_itemsize() {
    let l = Array::<i32>::create_linear_indices(&[2, 3], &[12, 4], 4, 6);
    assert_eq!(l.count, 6);
    assert_eq!(l.indices, vec![0, 1, 2, 3, 4, 5]);
}

#[test]
fn create_rejects_bad_shapes() {
    assert_eq!(Array::<i32>::nr_create(&[], 0).unwrap_err(), ArrayError::InvalidShape);
    assert_eq!(Array::<i32>::nr_create(&[2, 0], 2).unwrap_err(), ArrayError::InvalidShape);
    assert_eq!(Array::<i32>::nr_create(&[2, -1], 2).unwrap_err(), ArrayError::InvalidShape);
    assert_eq!(Array::<i32>::nr_create(&[2, 3], 3).unwrap_err(), ArrayError::InvalidShape);
    assert_eq!(
        Array::<i32>::nr_create(&[65536, 65536], 2).unwrap_err(),
        ArrayError::InvalidShape
    );
}

#[test]
fn arange_rounds_length_up() {
    let a = nr_arange(1i32, 8, 3).unwrap();
    assert_eq!(a.shape, vec![3]);
    assert_eq!(a.data, vec![1, 4, 7]);
    let b = nr_arange(-3i64, 4, 2).unwrap();
    assert_eq!(b.data, vec![-3, -1, 1, 3]);
}

#[test]
fn arange_rejects_bad_ranges() {
    assert_eq!(nr_arange(7i32, 1, 1).unwrap_err(), ArrayError::InvalidRange);
    assert_eq!(nr_arange(1i32, 1, 1).unwrap_err(), ArrayError::InvalidRange);
    assert_eq!(nr_arange(1i32, 7, 0).unwrap_err(), ArrayError::InvalidRange);
    assert_eq!(nr_arange(1i32, 7, -1).unwrap_err(), ArrayError::InvalidRange);
    assert_eq!(nr_arange(i32::MIN, i32::MAX, 1).unwrap_err(), ArrayError::InvalidShape);
}

#[test]
fn reshape_round_trip_restores_data() {
    let a = nr_arange(1i32, 13, 1).unwrap();
    let b = nr_reshape_new(&a, &[3, 4], 2).unwrap();
    assert_eq!(b.strides, vec![16, 4]);
    let c = nr_reshape_new(&b, &a.shape, a.ndim).unwrap();
    assert_eq!(c.shape, a.shape);
    assert_eq!(c.data, a.data);
}

#[test]
fn reshape_rejects_mismatched_count() {
    let a = nr_arange(1i32, 7, 1).unwrap();
    assert_eq!(nr_reshape_new(&a, &[4, 2], 2).unwrap_err(), ArrayError::InvalidReshape);
    assert_eq!(nr_reshape_new(&a, &[2, -3], 2).unwrap_err(), ArrayError::InvalidShape);
    assert_eq!(nr_reshape_new(&a, &[2, 3], 3).unwrap_err(), ArrayError::InvalidShape);
}

#[test]
fn add_rejects_incompatible_shapes() {
    let a = Array::<i32>::nr_create(&[2, 3], 2).unwrap();
    let b = Array::<i32>::nr_create(&[4, 5], 2).unwrap();
    assert_eq!(nr_add(&a, &b).unwrap_err(), ArrayError::BroadcastIncompatible);
    assert_eq!(nr_mul(&a, &b).unwrap_err(), ArrayError::BroadcastIncompatible);
}

#[test]
fn add_broadcasts_lower_rank_operand() {
    let a = nr_arange(1i32, 4, 1).unwrap();
    let b = nr_reshape_new(&nr_arange(10i32, 70, 10).unwrap(), &[2, 3], 2).unwrap();
    let c = nr_add(&a, &b).unwrap();
    assert_eq!(c.shape, vec![2, 3]);
    assert_eq!(c.data, vec![11, 22, 33, 41, 52, 63]);
    let d = nr_add(&b, &a).unwrap();
    assert_eq!(d.data, c.data);
}

#[test]
fn mul_broadcasts_column_and_row() {
    let col = nr_reshape_new(&nr_arange(1i32, 3, 1).unwrap(), &[2, 1], 2).unwrap();
    let row = nr_reshape_new(&nr_arange(1i32, 4, 1).unwrap(), &[1, 3], 2).unwrap();
    let c = nr_mul(&col, &row).unwrap();
    assert_eq!(c.shape, vec![2, 3]);
    assert_eq!(c.data, vec![1, 2, 3, 2, 4, 6]);
}

#[test]
fn broadcast_too_large_result_is_rejected() {
    let col = Array::<i32>::nr_create(&[65536, 1], 2).unwrap();
    let row = Array::<i32>::nr_create(&[1, 65536], 2).unwrap();
    assert_eq!(nr_add(&col, &row).unwrap_err(), ArrayError::InvalidShape);
}

#[test]
fn arithmetic_wraps_on_overflow() {
    let a = nr_arange(i32::MAX - 1, i32::MAX, 1).unwrap();
    let one = nr_arange(2i32, 3, 1).unwrap();
    assert_eq!(nr_add(&a, &one).unwrap().data, vec![i32::MIN]);
    assert_eq!(nr_mul(&a, &one).unwrap().data, vec![-4]);
}

#[test]
fn matmul_batched_against_shared_matrix() {
    let a = nr_reshape_new(&nr_arange(1i32, 9, 1).unwrap(), &[2, 2, 2], 3).unwrap();
    let b = nr_reshape_new(&nr_arange(0i32, 4, 1).unwrap(), &[2, 2], 2).unwrap();
    let c = nr_matmul(&a, &b).unwrap();
    assert_eq!(c.shape, vec![2, 2, 2]);
    // [[1,2],[3,4]] x [[0,1],[2,3]] and [[5,6],[7,8]] x [[0,1],[2,3]]
    assert_eq!(c.data, vec![4, 7, 8, 15, 12, 23, 16, 31]);
}

#[test]
fn matmul_rectangular() {
    let a = nr_reshape_new(&nr_arange(1i32, 7, 1).unwrap(), &[2, 3], 2).unwrap();
    let b = nr_reshape_new(&nr_arange(1i32, 7, 1).unwrap(), &[3, 2], 2).unwrap();
    let c = nr_matmul(&a, &b).unwrap();
    assert_eq!(c.shape, vec![2, 2]);
    assert_eq!(c.data, vec![22, 28, 49, 64]);
}

#[test]
fn matmul_rejects_bad_operands() {
    let v = nr_arange(1i32, 4, 1).unwrap();
    let m = Array::<i32>::nr_create(&[2, 3], 2).unwrap();
    assert_eq!(nr_matmul(&v, &m).unwrap_err(), ArrayError::RankTooLow);
    assert_eq!(nr_matmul(&m, &m).unwrap_err(), ArrayError::DimensionMismatch);
    let a = Array::<i32>::nr_create(&[2, 2, 3], 3).unwrap();
    let b = Array::<i32>::nr_create(&[3, 3, 2], 3).unwrap();
    assert_eq!(nr_matmul(&a, &b).unwrap_err(), ArrayError::BroadcastIncompatible);
}
