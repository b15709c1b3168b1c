use nlmrs::nlm::{fold_about_mid, label_cells, plane, stamp, surface_dim};
use nlmrs::{
    distance_gradient, edge_gradient, midpoint_displacement, planar_gradient, random, random_arr,
    random_element, wave_gradient,
};
use rand::Rng;
use std::cell::Cell;

fn unit() -> f64 {
    rand::thread_rng().gen()
}

fn root(d: u64) -> f64 {
    (d as f64).sqrt()
}

fn slopes(direction: f64) -> (f64, f64) {
    (-direction.cos(), direction.sin())
}

fn nan_count(arr: &Vec<Vec<f64>>) -> usize {
    let mut count = 0;
    for i in 0..arr.len() {
        count += arr[i].iter().filter(|n| n.is_nan()).count();
    }
    count
}

fn zero_count(arr: &Vec<Vec<f64>>) -> usize {
    let mut count = 0;
    for i in 0..arr.len() {
        count += arr[i].iter().filter(|n| **n == 0.).count();
    }
    count
}

fn one_count(arr: &Vec<Vec<f64>>) -> usize {
    let mut count = 0;
    for i in 0..arr.len() {
        count += arr[i].iter().filter(|n| **n == 1.).count();
    }
    count
}

fn zero_to_one_count(arr: &Vec<Vec<f64>>) -> usize {
    let mut count = 0;
    for i in 0..arr.len() {
        count += arr[i].iter().filter(|n| **n >= 0. && **n <= 1.).count();
    }
    count
}

fn check(arr: &Vec<Vec<f64>>, rows: usize, cols: usize) {
    assert_eq!(arr.len(), rows);
    for row in arr.iter() {
        assert_eq!(row.len(), cols);
    }
    assert_eq!(nan_count(arr), 0);
    assert_eq!(zero_to_one_count(arr), rows * cols);
}

const SIZES: [(usize, usize); 9] =
    [(0, 0), (1, 1), (2, 1), (3, 2), (4, 3), (5, 5), (10, 10), (100, 100), (150, 300)];

#[test]
fn test_random() {
    for (rows, cols) in SIZES {
        let arr = random(rows, cols, &unit);
        check(&arr, rows, cols);
    }
}

#[test]
fn test_random_element() {
    for (rows, cols) in SIZES {
        let arr = random_element::<f64>(rows, cols, 900);
        check(&arr, rows, cols);
    }
}

#[test]
fn test_planar_gradient() {
    let (down, right) = slopes(90.);
    for (rows, cols) in SIZES {
        let arr = planar_gradient(rows, cols, down, right);
        check(&arr, rows, cols);
    }
}

#[test]
fn test_edge_gradient() {
    let (down, right) = slopes(90.);
    for (rows, cols) in SIZES {
        let arr = edge_gradient(rows, cols, down, right);
        check(&arr, rows, cols);
    }
}

#[test]
fn test_distance_gradient() {
    for (rows, cols) in [(0usize, 0usize), (1, 1), (2, 1), (3, 2), (4, 3), (5, 5), (10, 10), (40, 40)] {
        let arr = distance_gradient(rows, cols, &root);
        check(&arr, rows, cols);
    }
}

#[test]
fn test_wave_gradient() {
    let (down, right) = slopes(90.);
    let period = 2.0f64;
    let wave = |v: f64| (v * 2. * std::f64::consts::PI * period).sin();
    for (rows, cols) in SIZES {
        let arr = wave_gradient(rows, cols, down, right, &wave);
        check(&arr, rows, cols);
        if rows > 0 && cols > 0 && (rows > 1 || cols > 1) {
            assert_eq!(one_count(&arr), 1);
            assert_eq!(zero_count(&arr), 1);
        }
    }
}

#[test]
fn test_midpoint_displacement() {
    let decay = |d: f64| d.powf(-1.) * 2.;
    for (rows, cols) in SIZES {
        let arr = midpoint_displacement(rows, cols, &unit, &decay);
        check(&arr, rows, cols);
    }
}

#[test]
fn generators_give_no_rows_without_columns() {
    let (down, right) = slopes(90.);
    assert_eq!(random(3, 0, &unit).len(), 0);
    assert_eq!(random_element::<f64>(3, 0, 900).len(), 0);
    assert_eq!(planar_gradient(3, 0, down, right).len(), 0);
    assert_eq!(edge_gradient(3, 0, down, right).len(), 0);
    assert_eq!(wave_gradient(3, 0, down, right, &|v: f64| v).len(), 0);
    assert_eq!(distance_gradient(3, 0, &root).len(), 0);
    assert_eq!(midpoint_displacement(3, 0, &unit, &|d: f64| d).len(), 0);
    assert_eq!(midpoint_displacement(0, 3, &unit, &|d: f64| d).len(), 0);
}

#[test]
fn random_arr_fills_the_window() {
    let mut first = [9.0f64, 9.0, 9.0];
    let mut second = [9.0f64, 9.0, 9.0];
    let mut third = [9.0f64, 9.0, 9.0];
    let next = Cell::new(0.0f64);
    let count = || {
        let v = next.get();
        next.set(v + 1.0);
        v
    };
    {
        let mut rows: [&mut [f64]; 3] = [&mut first, &mut second, &mut third];
        random_arr(&mut rows, 2, 2, &count);
    }
    assert_eq!(first, [0.0, 1.0, 9.0]);
    assert_eq!(second, [2.0, 3.0, 9.0]);
    assert_eq!(third, [9.0, 9.0, 9.0]);
}

#[test]
fn random_element_leaves_no_cell_unfilled() {
    let arr = random_element::<f64>(10, 10, 900);
    check(&arr, 10, 10);
    // The smallest label goes to 0 and the largest to 1.
    assert!(zero_count(&arr) >= 1);
    assert_eq!(one_count(&arr), 1);
}

#[test]
fn random_element_with_a_low_bound_is_flat() {
    assert_eq!(random_element::<f64>(3, 3, 0), vec![vec![0.5f64; 3]; 3]);
    assert_eq!(random_element::<f64>(3, 3, 1), vec![vec![0.5f64; 3]; 3]);
    // The only number below 2 is 1, which every cell holds already.
    assert_eq!(random_element::<f64>(3, 3, 2), vec![vec![0.5f64; 3]; 3]);
}

#[test]
fn stamp_labels_a_fresh_cell_only() {
    let mut labels = vec![vec![1u32, 4], vec![1, 1]];
    stamp(&mut labels, 1, 0, 7);
    assert_eq!(labels, vec![vec![1, 4], vec![7, 1]]);
    stamp(&mut labels, 0, 1, 8);
    assert_eq!(labels, vec![vec![1, 4], vec![7, 1]]);
    stamp(&mut labels, 1, 0, 9);
    assert_eq!(labels, vec![vec![1, 4], vec![7, 1]]);
}

#[test]
fn label_cells_gives_each_label_once() {
    for _ in 0..20 {
        let labels = label_cells(6, 5, 40);
        assert_eq!(labels.len(), 6);
        let mut seen = vec![0usize; 40];
        for row in labels.iter() {
            assert_eq!(row.len(), 5);
            for label in row.iter() {
                assert!(1 <= *label && *label < 40);
                seen[*label as usize] += 1;
            }
        }
        for label in 2..40 {
            assert!(seen[label] <= 1);
        }
    }
}

#[test]
fn label_cells_with_a_bound_that_labels_nothing() {
    assert_eq!(label_cells(2, 3, 0), vec![vec![1u32; 3]; 2]);
    assert_eq!(label_cells(2, 3, 2), vec![vec![1u32; 3]; 2]);
}

#[test]
fn plane_rises_by_its_slopes() {
    let arr = plane(3, 2, 10.0f64, 0.5);
    assert_eq!(arr, vec![vec![0.0, 0.5], vec![10.0, 10.5], vec![20.0, 20.5]]);
}

#[test]
fn planar_gradient_across_the_columns() {
    let arr = planar_gradient(2, 5, 0.0f64, 2.0);
    assert_eq!(arr, vec![vec![0.0, 0.25, 0.5, 0.75, 1.0], vec![0.0, 0.25, 0.5, 0.75, 1.0]]);
}

#[test]
fn planar_gradient_down_the_rows() {
    let arr = planar_gradient(3, 2, -1.0f64, 0.0);
    assert_eq!(arr, vec![vec![1.0, 1.0], vec![0.5, 0.5], vec![0.0, 0.0]]);
}

#[test]
fn fold_about_mid_peaks_at_the_midpoint() {
    assert_eq!(fold_about_mid(0.5f64), 1.0);
    assert_eq!(fold_about_mid(0.0f64), 0.0);
    assert_eq!(fold_about_mid(1.0f64), 0.0);
    assert_eq!(fold_about_mid(0.25f64), 0.5);
    assert_eq!(fold_about_mid(0.875f64), 0.25);
}

#[test]
fn edge_gradient_is_highest_in_the_middle() {
    let arr = edge_gradient(1, 5, 0.0f64, 1.0);
    assert_eq!(arr, vec![vec![0.0, 0.5, 1.0, 0.5, 0.0]]);
}

#[test]
fn wave_gradient_sends_the_plane_through_the_wave() {
    let arr = wave_gradient(1, 5, 0.0f64, 1.0, &|v: f64| 4.0 * v * (1.0 - v));
    assert_eq!(arr, vec![vec![0.0, 0.75, 1.0, 0.75, 0.0]]);
}

#[test]
fn distance_gradient_of_one_cell_is_the_midpoint() {
    for _ in 0..10 {
        assert_eq!(distance_gradient(1, 1, &root), vec![vec![0.5]]);
    }
}

#[test]
fn surface_dim_is_the_next_power_of_two_plus_one() {
    assert_eq!(surface_dim(1), 2);
    assert_eq!(surface_dim(2), 2);
    assert_eq!(surface_dim(3), 3);
    assert_eq!(surface_dim(4), 5);
    assert_eq!(surface_dim(5), 5);
    assert_eq!(surface_dim(6), 9);
    assert_eq!(surface_dim(9), 9);
    assert_eq!(surface_dim(10), 17);
    assert_eq!(surface_dim(200), 257);
    assert_eq!(surface_dim(1000), 1025);
    assert_eq!(surface_dim(0x4000_0001), 0x4000_0001);
}

#[test]
fn midpoint_displacement_of_a_flat_surface_is_the_midpoint() {
    let arr = midpoint_displacement(6, 7, &|| 0.5f64, &|d: f64| d);
    assert_eq!(arr, vec![vec![0.5f64; 7]; 6]);
}

#[test]
fn test_write_to_csv() {
    let decay = |d: f64| d.powf(-0.6) * 2.;
    let arr = midpoint_displacement(1000, 1000, &unit, &decay);
    check(&arr, 1000, 1000);
    let mut wtr = csv::Writer::from_writer(Vec::new());
    for row in arr.iter() {
        wtr.serialize(row).unwrap();
    }
    let text = String::from_utf8(wtr.into_inner().unwrap()).unwrap();
    assert_eq!(text.lines().count(), 1000);
    let first: Vec<f64> = text.lines().next().unwrap().split(',').map(|v| v.parse().unwrap()).collect();
    assert_eq!(first, arr[0]);
}

#[test]
fn label_cells_on_one_cell_keeps_the_first_fresh_label() {
    // The first pick stamps a 1 onto the 1, the second a 2, and the rest
    // are lost on the labelled cell.
    assert_eq!(label_cells(1, 1, 5), vec![vec![2u32]]);
    assert_eq!(random_element::<f64>(1, 1, 5), vec![vec![0.5]]);
}

#[test]
fn label_cells_lands_the_second_label_on_some_cell() {
    for _ in 0..20 {
        let labels = label_cells(1, 2, 3);
        assert!(labels == vec![vec![2u32, 1]] || labels == vec![vec![1u32, 2]]);
        let arr = random_element::<f64>(1, 2, 3);
        assert!(arr == vec![vec![1.0, 0.0]] || arr == vec![vec![0.0, 1.0]]);
    }
}
