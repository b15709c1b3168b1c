use nlmrs::operation::{
    abs, add, add_value, interpolate, invert, map_cells, max, min, min_and_max, multiply,
    multiply_value, nearest_neighbour, scale,
};

#[test]
fn min_and_max_find_the_extremes() {
    let arr = vec![vec![3.0f64, -1.5, 2.0], vec![8.25, 0.0, -1.0]];
    assert_eq!(min_and_max(&arr), Some((-1.5, 8.25)));
    assert_eq!(min(&arr), Some(-1.5));
    assert_eq!(max(&arr), Some(8.25));
}

#[test]
fn max_of_negative_cells_is_negative() {
    let arr = vec![vec![-3.0f64, -2.0], vec![-7.0, -4.5]];
    assert_eq!(max(&arr), Some(-2.0));
    assert_eq!(min(&arr), Some(-7.0));
}

#[test]
fn extremes_of_a_grid_without_cells() {
    let none: Vec<Vec<f64>> = Vec::new();
    assert_eq!(min_and_max(&none), None);
    let hollow: Vec<Vec<f64>> = vec![vec![], vec![]];
    assert_eq!(min_and_max(&hollow), None);
    assert_eq!(min(&hollow), None);
    assert_eq!(max(&hollow), None);
}

#[test]
fn extremes_skip_empty_rows() {
    let arr = vec![vec![], vec![4u32, 9, 2], vec![], vec![7]];
    assert_eq!(min_and_max(&arr), Some((2, 9)));
}

#[test]
fn scale_maps_the_extremes_to_zero_and_one() {
    let mut arr = vec![vec![2.0f64, 4.0], vec![6.0, 10.0]];
    scale(&mut arr);
    assert_eq!(arr, vec![vec![0.0, 0.25], vec![0.5, 1.0]]);
}

#[test]
fn scale_sends_a_constant_grid_to_the_midpoint() {
    let mut arr = vec![vec![5.0f64; 4]; 3];
    scale(&mut arr);
    assert_eq!(arr, vec![vec![0.5f64; 4]; 3]);
}

#[test]
fn scale_sends_a_single_cell_to_the_midpoint() {
    let mut arr = vec![vec![-3.0f64]];
    scale(&mut arr);
    assert_eq!(arr, vec![vec![0.5]]);
}

#[test]
fn scale_leaves_a_normalized_grid_as_it_is() {
    let mut arr = vec![vec![0.0f64, 0.125, 0.75], vec![1.0, 0.3, 0.9]];
    let before = arr.clone();
    scale(&mut arr);
    assert_eq!(arr, before);
    scale(&mut arr);
    assert_eq!(arr, before);
}

#[test]
fn scale_of_a_grid_without_cells() {
    let mut none: Vec<Vec<f64>> = Vec::new();
    scale(&mut none);
    assert_eq!(none.len(), 0);
    let mut hollow: Vec<Vec<f64>> = vec![vec![], vec![]];
    scale(&mut hollow);
    assert_eq!(hollow, vec![Vec::<f64>::new(), Vec::new()]);
}

#[test]
fn scale_handles_negative_cells() {
    let mut arr = vec![vec![-4.0f64, -2.0, 0.0, 4.0]];
    scale(&mut arr);
    assert_eq!(arr, vec![vec![0.0, 0.25, 0.5, 1.0]]);
}

#[test]
fn invert_subtracts_from_one() {
    let mut arr = vec![vec![0.0f64, 1.0], vec![0.25, -1.0]];
    invert(&mut arr);
    assert_eq!(arr, vec![vec![1.0, 0.0], vec![0.75, 2.0]]);
}

#[test]
fn multiply_value_scales_every_cell() {
    let mut arr = vec![vec![1.0f64, -2.0], vec![0.5]];
    multiply_value(&mut arr, 4.0);
    assert_eq!(arr, vec![vec![4.0, -8.0], vec![2.0]]);
}

#[test]
fn multiply_goes_cell_by_cell() {
    let mut arr = vec![vec![1.0f64, 2.0], vec![3.0, 4.0]];
    multiply(&mut arr, vec![vec![2.0, 0.5], vec![-1.0, 0.0]]);
    assert_eq!(arr, vec![vec![2.0, 1.0], vec![-3.0, 0.0]]);
}

#[test]
fn add_goes_cell_by_cell() {
    let mut arr = vec![vec![1.0f64, 2.0], vec![3.0, 4.0]];
    add(&mut arr, vec![vec![2.0, 0.5], vec![-1.0, 0.0]]);
    assert_eq!(arr, vec![vec![3.0, 2.5], vec![2.0, 4.0]]);
}

#[test]
fn add_value_shifts_every_cell() {
    let mut arr = vec![vec![1.0f64, -2.0], vec![0.5]];
    add_value(&mut arr, 1.5);
    assert_eq!(arr, vec![vec![2.5, -0.5], vec![2.0]]);
}

#[test]
fn abs_negates_what_lies_below_zero() {
    let mut arr = vec![vec![1.0f64, -2.0], vec![0.0, -0.25]];
    abs(&mut arr);
    assert_eq!(arr, vec![vec![1.0, 2.0], vec![0.0, 0.25]]);
}

#[test]
fn map_cells_applies_the_function() {
    let mut arr = vec![vec![1.0f64, 2.0], vec![3.0]];
    map_cells(&mut arr, &|v: f64| v * v + 1.0);
    assert_eq!(arr, vec![vec![2.0, 5.0], vec![10.0]]);
}

#[test]
fn nearest_neighbour_prefers_the_cell_below() {
    let arr = vec![vec![1.0f64, 2.0, 3.0], vec![4.0, 5.0, 6.0], vec![7.0, 8.0, 9.0]];
    assert_eq!(nearest_neighbour(&arr, 0, 0), 4.0);
    assert_eq!(nearest_neighbour(&arr, 1, 2), 9.0);
    assert_eq!(nearest_neighbour(&arr, 2, 1), 5.0);
    assert_eq!(nearest_neighbour(&arr, 2, 2), 6.0);
}

#[test]
fn nearest_neighbour_in_a_single_row() {
    let arr = vec![vec![1.0f64, 2.0, 3.0]];
    assert_eq!(nearest_neighbour(&arr, 0, 0), 2.0);
    assert_eq!(nearest_neighbour(&arr, 0, 1), 3.0);
    assert_eq!(nearest_neighbour(&arr, 0, 2), 2.0);
}

#[test]
fn nearest_neighbour_in_a_single_column() {
    let arr = vec![vec![1.0f64], vec![2.0], vec![3.0]];
    assert_eq!(nearest_neighbour(&arr, 0, 0), 2.0);
    assert_eq!(nearest_neighbour(&arr, 2, 0), 2.0);
}

#[test]
fn interpolate_fills_masked_cells_from_below() {
    let mut arr = vec![vec![0.0f64, 2.0], vec![3.0, 4.0], vec![5.0, 6.0]];
    let mask = vec![vec![true, false], vec![false, true], vec![false, false]];
    interpolate(&mut arr, mask);
    assert_eq!(arr, vec![vec![3.0, 2.0], vec![3.0, 6.0], vec![5.0, 6.0]]);
}

#[test]
fn interpolate_reads_the_grid_as_the_fill_left_it() {
    let mut arr = vec![vec![1.0f64, 2.0], vec![3.0, 4.0]];
    let mask = vec![vec![true, false], vec![true, true]];
    interpolate(&mut arr, mask);
    // (0, 0) takes 3 from below; (1, 0) then reads it back from above;
    // (1, 1) reads the untouched cell above it.
    assert_eq!(arr, vec![vec![3.0, 2.0], vec![3.0, 2.0]]);
}

#[test]
fn interpolate_in_a_single_row() {
    let mut arr = vec![vec![1.0f64, 2.0, 3.0]];
    interpolate(&mut arr, vec![vec![true, true, true]]);
    // Each cell takes its right neighbour as it stood; the last one reads
    // back what the cell to its left was filled with.
    assert_eq!(arr, vec![vec![2.0, 3.0, 3.0]]);
    let mut arr = vec![vec![1.0f64, 2.0, 3.0]];
    interpolate(&mut arr, vec![vec![false, false, true]]);
    assert_eq!(arr, vec![vec![1.0, 2.0, 2.0]]);
}

#[test]
fn interpolate_without_marks_changes_nothing() {
    let mut arr = vec![vec![1.0f64]];
    interpolate(&mut arr, vec![vec![false]]);
    assert_eq!(arr, vec![vec![1.0]]);
    let mut none: Vec<Vec<f64>> = Vec::new();
    interpolate(&mut none, Vec::new());
    assert_eq!(none.len(), 0);
}
