use nlmrs::hill::{apply_kernel, default_kernel, hill_grow_next_point, valid_kernel};
use nlmrs::hill_grow;
use rand::distributions::{Distribution, WeightedIndex};
use std::cell::RefCell;

fn pick(weights: &Vec<f64>) -> usize {
    WeightedIndex::new(weights).unwrap().sample(&mut rand::thread_rng())
}

fn check_unit_grid(arr: &Vec<Vec<f64>>, rows: usize, cols: usize) {
    assert_eq!(arr.len(), rows);
    for row in arr.iter() {
        assert_eq!(row.len(), cols);
        for v in row.iter() {
            assert!(!v.is_nan());
            assert!(0.0 <= *v && *v <= 1.0);
        }
    }
}

#[test]
fn valid_kernel_wants_an_odd_square() {
    assert!(valid_kernel(&vec![vec![1.0f64]]));
    assert!(valid_kernel(&vec![vec![0.0f64; 3]; 3]));
    assert!(valid_kernel(&vec![vec![0.0f64; 5]; 5]));
    assert!(!valid_kernel(&Vec::<Vec<f64>>::new()));
    assert!(!valid_kernel(&vec![vec![0.0f64; 2]; 2]));
    assert!(!valid_kernel(&vec![vec![0.0f64; 3]; 2]));
    assert!(!valid_kernel(&vec![vec![0.0f64; 2]; 3]));
    assert!(!valid_kernel(&vec![vec![0.0f64; 3], vec![0.0; 3], vec![0.0; 2]]));
    assert!(!valid_kernel(&vec![vec![0.0f64; 3], vec![0.0; 4], vec![0.0; 3]]));
}

#[test]
fn default_kernel_is_a_plus() {
    assert_eq!(
        default_kernel::<f64>(),
        vec![vec![0.0, 0.5, 0.0], vec![0.5, 1.0, 0.5], vec![0.0, 0.5, 0.0]]
    );
}

#[test]
fn apply_kernel_stamps_around_the_centre() {
    let mut arr = vec![vec![1.0f64; 4]; 4];
    let kernel = vec![vec![1.0, 2.0, 3.0], vec![4.0, 5.0, 6.0], vec![7.0, 8.0, 9.0]];
    apply_kernel(&mut arr, 1, 2, &kernel, Some(0.5));
    assert_eq!(
        arr,
        vec![
            vec![1.0, 1.5, 2.0, 2.5],
            vec![1.0, 3.0, 3.5, 4.0],
            vec![1.0, 4.5, 5.0, 5.5],
            vec![1.0, 1.0, 1.0, 1.0],
        ]
    );
}

#[test]
fn apply_kernel_drops_what_juts_out() {
    let mut arr = vec![vec![0.0f64; 3]; 2];
    let kernel = vec![vec![1.0, 2.0, 3.0], vec![4.0, 5.0, 6.0], vec![7.0, 8.0, 9.0]];
    apply_kernel(&mut arr, 0, 0, &kernel, Some(1.0));
    assert_eq!(arr, vec![vec![5.0, 6.0, 0.0], vec![8.0, 9.0, 0.0]]);
    let mut arr = vec![vec![0.0f64; 3]; 2];
    apply_kernel(&mut arr, 1, 2, &kernel, Some(1.0));
    assert_eq!(arr, vec![vec![0.0, 1.0, 2.0], vec![0.0, 4.0, 5.0]]);
}

#[test]
fn apply_kernel_off_the_grid_changes_nothing() {
    let mut arr = vec![vec![2.0f64; 3]; 3];
    let kernel = vec![vec![1.0f64; 3]; 3];
    apply_kernel(&mut arr, 7, 1, &kernel, Some(1.0));
    assert_eq!(arr, vec![vec![2.0f64; 3]; 3]);
    apply_kernel(&mut arr, usize::MAX, usize::MAX, &kernel, Some(1.0));
    assert_eq!(arr, vec![vec![2.0f64; 3]; 3]);
}

#[test]
fn apply_kernel_stops_at_zero() {
    let mut arr = vec![vec![0.25f64, 1.0, 0.5]];
    let kernel = vec![vec![0.0f64; 3], vec![1.0, 1.0, 1.0], vec![0.0; 3]];
    apply_kernel(&mut arr, 0, 1, &kernel, Some(-0.5));
    assert_eq!(arr, vec![vec![0.0, 0.5, 0.0]]);
}

#[test]
fn apply_kernel_scales_by_a_tenth_by_default() {
    let mut arr = vec![vec![0.0f64; 3]; 3];
    let kernel = default_kernel::<f64>();
    apply_kernel(&mut arr, 1, 1, &kernel, None);
    assert_eq!(arr, vec![vec![0.0, 0.05, 0.0], vec![0.05, 0.1, 0.05], vec![0.0, 0.05, 0.0]]);
}

#[test]
fn apply_kernel_of_side_five() {
    let mut arr = vec![vec![0.0f64; 5]; 1];
    let mut kernel = vec![vec![0.0f64; 5]; 5];
    kernel[2] = vec![1.0, 2.0, 3.0, 4.0, 5.0];
    apply_kernel(&mut arr, 0, 1, &kernel, Some(1.0));
    assert_eq!(arr, vec![vec![2.0, 3.0, 4.0, 5.0, 0.0]]);
}

#[test]
fn next_point_lies_on_the_grid() {
    let arr = vec![vec![0.5f64; 3]; 7];
    let mut rng = rand::thread_rng();
    let mut rows_seen = [false; 7];
    let mut cols_seen = [false; 3];
    for _ in 0..500 {
        let (row, col) = hill_grow_next_point(&arr, false, &mut rng, &pick);
        assert!(row < 7);
        assert!(col < 3);
        rows_seen[row] = true;
        cols_seen[col] = true;
    }
    assert!(rows_seen.iter().all(|seen| *seen));
    assert!(cols_seen.iter().all(|seen| *seen));
}

#[test]
fn weighted_point_is_the_picked_cell() {
    let arr = vec![vec![0.0f64, 1.0, 2.0], vec![3.0, 4.0, 5.0]];
    let mut rng = rand::thread_rng();
    let seen = RefCell::new(Vec::new());
    let fourth = |weights: &Vec<f64>| {
        seen.borrow_mut().push(weights.clone());
        4
    };
    assert_eq!(hill_grow_next_point(&arr, true, &mut rng, &fourth), (1, 1));
    assert_eq!(*seen.borrow(), vec![vec![0.0, 1.0, 2.0, 3.0, 4.0, 5.0]]);
    assert_eq!(hill_grow_next_point(&arr, true, &mut rng, &|_: &Vec<f64>| 2), (0, 2));
    assert_eq!(hill_grow_next_point(&arr, true, &mut rng, &|_: &Vec<f64>| 3), (1, 0));
}

#[test]
fn weighted_point_on_a_flat_zero_grid_weighs_all_cells_alike() {
    let arr = vec![vec![0.0f64; 2]; 2];
    let mut rng = rand::thread_rng();
    let seen = RefCell::new(Vec::new());
    let last = |weights: &Vec<f64>| {
        seen.borrow_mut().push(weights.clone());
        weights.len() - 1
    };
    assert_eq!(hill_grow_next_point(&arr, true, &mut rng, &last), (1, 1));
    assert_eq!(*seen.borrow(), vec![vec![1.0, 1.0, 1.0, 1.0]]);
}

#[test]
fn weighted_point_never_falls_on_a_weightless_cell() {
    let arr = vec![vec![0.0f64, 0.0, 3.0], vec![0.0, 1.0, 0.0]];
    let mut rng = rand::thread_rng();
    for _ in 0..200 {
        let point = hill_grow_next_point(&arr, true, &mut rng, &pick);
        assert!(point == (0, 2) || point == (1, 1));
    }
}

#[test]
fn hill_grow_without_cells_has_no_rows() {
    assert_eq!(hill_grow::<f64, _>(0, 0, 10, true, None, None, &pick).len(), 0);
    assert_eq!(hill_grow::<f64, _>(0, 5, 10, false, None, None, &pick).len(), 0);
    assert_eq!(hill_grow::<f64, _>(5, 0, 10, true, None, Some(true), &pick).len(), 0);
}

#[test]
fn hill_grow_without_steps_is_the_midpoint() {
    let arr = hill_grow::<f64, _>(3, 4, 0, true, None, Some(true), &pick);
    assert_eq!(arr, vec![vec![0.5f64; 4]; 3]);
    let arr = hill_grow::<f64, _>(2, 2, 0, false, None, None, &pick);
    assert_eq!(arr, vec![vec![0.5f64; 2]; 2]);
}

#[test]
fn hill_grow_with_a_bad_kernel_hands_back_the_flat_grid() {
    let bad = vec![vec![1.0f64; 2]; 2];
    let arr = hill_grow(3, 2, 100, true, Some(bad.clone()), Some(true), &pick);
    assert_eq!(arr, vec![vec![0.0f64; 2]; 3]);
    let arr = hill_grow(3, 2, 100, false, Some(bad), None, &pick);
    assert_eq!(arr, vec![vec![0.5f64; 2]; 3]);
    let ragged = vec![vec![1.0f64; 3], vec![1.0; 3], vec![1.0]];
    let arr = hill_grow(2, 2, 5, false, Some(ragged), Some(false), &pick);
    assert_eq!(arr, vec![vec![0.5f64; 2]; 2]);
}

#[test]
fn hill_grow_of_one_growing_hill() {
    // One stamp of the plus-shaped kernel on a grid of one row leaves 0.05,
    // 0.1, 0.05 around the picked cell, which ends highest.
    let arr = hill_grow(1, 3, 1, true, None, Some(true), &|_: &Vec<f64>| 1);
    assert_eq!(arr, vec![vec![0.0, 1.0, 0.0]]);
    let arr = hill_grow(1, 3, 1, true, None, Some(true), &|_: &Vec<f64>| 0);
    assert_eq!(arr, vec![vec![1.0, 0.5, 0.0]]);
}

#[test]
fn test_hill_grow() {
    let cases = [(0usize, 0usize), (1, 1), (2, 1), (3, 2), (4, 3), (5, 5), (10, 10), (30, 20)];
    for (rows, cols) in cases {
        let arr = hill_grow::<f64, _>(rows, cols, 2000, true, None, Some(false), &pick);
        check_unit_grid(&arr, rows, cols);
    }
}

#[test]
fn hill_grow_without_runaway() {
    for (rows, cols) in [(1usize, 1usize), (4, 3), (25, 40)] {
        let arr = hill_grow::<f64, _>(rows, cols, 5000, false, None, None, &pick);
        check_unit_grid(&arr, rows, cols);
        let arr = hill_grow::<f64, _>(rows, cols, 5000, false, None, Some(true), &pick);
        check_unit_grid(&arr, rows, cols);
    }
}

#[test]
fn hill_grow_with_a_kernel_of_corners() {
    let kernel = vec![vec![1.0f64, 0.0, 1.0], vec![0.0, 0.0, 0.0], vec![1.0, 0.0, 1.0]];
    let arr = hill_grow(40, 40, 3000, true, Some(kernel), Some(false), &pick);
    check_unit_grid(&arr, 40, 40);
}

#[test]
fn test_write_to_json() {
    let kernel = vec![vec![1., 0., 1.], vec![0., 0., 0.], vec![1., 0., 1.]];
    let arr = hill_grow(100, 100, 20000, true, Some(kernel), Some(false), &pick);
    check_unit_grid(&arr, 100, 100);
    let text = serde_json::to_string(&arr).unwrap();
    let back: Vec<Vec<f64>> = serde_json::from_str(&text).unwrap();
    assert_eq!(back.len(), 100);
    for (read, written) in back.iter().zip(arr.iter()) {
        assert_eq!(read.len(), 100);
        for (r, w) in read.iter().zip(written.iter()) {
            assert!((r - w).abs() <= 1e-12);
        }
    }
}
