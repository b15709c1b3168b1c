use nlmrs::array::{
    binary_rand_arr, fill_rand, flatten, indices_arr, ones_arr, rand_arr, rand_sub_arr, sub_arr,
    value_arr, value_mask, zeros_arr,
};
use std::cell::Cell;

#[test]
fn value_arr_fills_every_cell() {
    let arr = value_arr(2, 3, 7.5f64);
    assert_eq!(arr, vec![vec![7.5, 7.5, 7.5], vec![7.5, 7.5, 7.5]]);
}

#[test]
fn zeros_and_ones_hold_the_constants() {
    assert_eq!(zeros_arr::<f64>(2, 2), vec![vec![0.0, 0.0], vec![0.0, 0.0]]);
    assert_eq!(ones_arr::<f64>(1, 3), vec![vec![1.0, 1.0, 1.0]]);
}

#[test]
fn constructors_give_no_rows_without_cells() {
    assert_eq!(zeros_arr::<f64>(0, 4).len(), 0);
    assert_eq!(zeros_arr::<f64>(4, 0).len(), 0);
    assert_eq!(ones_arr::<f64>(0, 0).len(), 0);
    assert_eq!(value_arr(3, 0, 1.5f64).len(), 0);
    assert_eq!(rand_arr(3, 0, &|| 0.25f64).len(), 0);
    assert_eq!(binary_rand_arr::<f64>(0, 3).len(), 0);
    let (rows, cols) = indices_arr::<f64>(0, 0);
    assert_eq!(rows.len(), 0);
    assert_eq!(cols.len(), 0);
}

#[test]
fn rand_arr_draws_row_by_row() {
    let next = Cell::new(0.0f64);
    let unit = || {
        let v = next.get();
        next.set(v + 1.0);
        v
    };
    let arr = rand_arr(2, 3, &unit);
    assert_eq!(arr, vec![vec![0.0, 1.0, 2.0], vec![3.0, 4.0, 5.0]]);
}

#[test]
fn fill_rand_replaces_every_cell() {
    let mut arr = vec![vec![9.0f64, 9.0], vec![9.0], vec![]];
    let next = Cell::new(1.0f64);
    let unit = || {
        let v = next.get();
        next.set(v * 2.0);
        v
    };
    fill_rand(&mut arr, &unit);
    assert_eq!(arr, vec![vec![1.0, 2.0], vec![4.0], vec![]]);
}

#[test]
fn binary_rand_arr_holds_zeros_and_ones() {
    let arr = binary_rand_arr::<f64>(20, 30);
    assert_eq!(arr.len(), 20);
    let mut zeros = 0;
    let mut ones = 0;
    for row in arr.iter() {
        assert_eq!(row.len(), 30);
        for v in row.iter() {
            assert!(*v == 0.0 || *v == 1.0);
            if *v == 0.0 {
                zeros += 1;
            } else {
                ones += 1;
            }
        }
    }
    assert!(zeros > 0);
    assert!(ones > 0);
}

#[test]
fn value_mask_marks_equal_cells() {
    let arr = vec![vec![0.0f64, 1.0], vec![2.0, 0.0]];
    assert_eq!(value_mask(&arr, 0.0), vec![vec![true, false], vec![false, true]]);
    assert_eq!(value_mask(&arr, 2.0), vec![vec![false, false], vec![true, false]]);
}

#[test]
fn value_mask_keeps_ragged_shape() {
    let arr = vec![vec![1u32], vec![], vec![1, 2, 1]];
    assert_eq!(value_mask(&arr, 1), vec![vec![true], vec![], vec![true, false, true]]);
}

#[test]
fn flatten_joins_rows_in_order() {
    let arr = vec![vec![1.0f64, 2.0], vec![], vec![3.0], vec![4.0, 5.0, 6.0]];
    assert_eq!(flatten(arr), vec![1.0, 2.0, 3.0, 4.0, 5.0, 6.0]);
    let none: Vec<Vec<String>> = Vec::new();
    assert_eq!(flatten(none).len(), 0);
}

#[test]
fn indices_arr_holds_row_and_column_indices() {
    let (row_idx, col_idx) = indices_arr::<f64>(3, 3);
    assert_eq!(row_idx, vec![vec![0.0, 0.0, 0.0], vec![1.0, 1.0, 1.0], vec![2.0, 2.0, 2.0]]);
    assert_eq!(col_idx, vec![vec![0.0, 1.0, 2.0], vec![0.0, 1.0, 2.0], vec![0.0, 1.0, 2.0]]);
}

#[test]
fn indices_arr_of_a_wide_grid() {
    let (row_idx, col_idx) = indices_arr::<u64>(2, 4);
    assert_eq!(row_idx, vec![vec![0, 0, 0, 0], vec![1, 1, 1, 1]]);
    assert_eq!(col_idx, vec![vec![0, 1, 2, 3], vec![0, 1, 2, 3]]);
}

#[test]
fn sub_arr_copies_the_window() {
    let arr = vec![
        vec![1.0f64, 2.0, 3.0, 4.0],
        vec![5.0, 6.0, 7.0, 8.0],
        vec![9.0, 10.0, 11.0, 12.0],
    ];
    assert_eq!(sub_arr(&arr, 1, 2, 2, 2), vec![vec![7.0, 8.0], vec![11.0, 12.0]]);
    assert_eq!(sub_arr(&arr, 0, 0, 1, 4), vec![vec![1.0, 2.0, 3.0, 4.0]]);
    assert_eq!(sub_arr(&arr, 2, 1, 0, 2).len(), 0);
    assert_eq!(sub_arr(&arr, 1, 1, 2, 0).len(), 0);
}

#[test]
fn rand_sub_arr_hands_back_a_grid_that_is_not_larger() {
    let arr = vec![vec![1.0f64, 2.0], vec![3.0, 4.0]];
    assert_eq!(rand_sub_arr(arr.clone(), 2, 2), arr);
    assert_eq!(rand_sub_arr(arr.clone(), 5, 2), arr);
    assert_eq!(rand_sub_arr(arr.clone(), 3, 7), arr);
}

#[test]
fn rand_sub_arr_cuts_a_window_of_the_grid() {
    let mut arr: Vec<Vec<f64>> = Vec::new();
    for i in 0..9 {
        let mut row = Vec::new();
        for j in 0..9 {
            row.push((i * 9 + j) as f64);
        }
        arr.push(row);
    }
    for _ in 0..50 {
        let out = rand_sub_arr(arr.clone(), 4, 6);
        assert_eq!(out.len(), 4);
        let first = out[0][0] as usize;
        let (r0, c0) = (first / 9, first % 9);
        assert!(r0 + 4 < 9);
        assert!(c0 + 6 < 9);
        for i in 0..4 {
            assert_eq!(out[i].len(), 6);
            for j in 0..6 {
                assert_eq!(out[i][j], arr[r0 + i][c0 + j]);
            }
        }
    }
}

#[test]
fn rand_sub_arr_keeps_a_full_side_in_place() {
    let arr = vec![vec![1.0f64, 2.0, 3.0], vec![4.0, 5.0, 6.0], vec![7.0, 8.0, 9.0]];
    for _ in 0..20 {
        let out = rand_sub_arr(arr.clone(), 3, 1);
        assert_eq!(out.len(), 3);
        let c0 = out[0][0] as usize - 1;
        assert!(c0 < 2);
        for i in 0..3 {
            assert_eq!(out[i], vec![arr[i][c0]]);
        }
    }
}
