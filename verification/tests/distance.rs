use nlmrs::distance::{
    distance_field, euclidean_distance_transform, has_zero, nearest_zero, squared_distance,
};

fn root(d: u64) -> f64 {
    (d as f64).sqrt()
}

#[test]
fn squared_distance_is_the_sum_of_squares() {
    assert_eq!(squared_distance(0, 0, 3, 4), 25);
    assert_eq!(squared_distance(3, 4, 0, 0), 25);
    assert_eq!(squared_distance(7, 2, 7, 2), 0);
    assert_eq!(squared_distance(1, 5, 2, 3), 5);
}

#[test]
fn squared_distance_at_the_largest_coordinates() {
    let far = 0x7fff_ffff;
    assert_eq!(squared_distance(0, 0, far, far), 2 * 0x7fff_ffffu64 * 0x7fff_ffffu64);
}

#[test]
fn has_zero_finds_a_mark() {
    assert!(!has_zero(&vec![vec![false, false], vec![], vec![false]]));
    assert!(has_zero(&vec![vec![false, false], vec![], vec![true]]));
    assert!(!has_zero(&Vec::new()));
}

#[test]
fn nearest_zero_finds_the_nearest_mark() {
    let zero = vec![
        vec![true, false, false, false],
        vec![false, false, false, false],
        vec![false, false, false, true],
    ];
    assert_eq!(nearest_zero(&zero, 0, 1), Some((0, 0)));
    assert_eq!(nearest_zero(&zero, 2, 2), Some((2, 3)));
    assert_eq!(nearest_zero(&zero, 1, 3), Some((2, 3)));
    assert_eq!(nearest_zero(&zero, 0, 0), Some((0, 0)));
}

#[test]
fn nearest_zero_takes_the_first_of_equally_near_marks() {
    let zero = vec![
        vec![false, true, false],
        vec![true, false, true],
        vec![false, true, false],
    ];
    assert_eq!(nearest_zero(&zero, 1, 1), Some((0, 1)));
    assert_eq!(nearest_zero(&zero, 2, 2), Some((1, 2)));
    assert_eq!(nearest_zero(&zero, 2, 0), Some((1, 0)));
}

#[test]
fn nearest_zero_without_a_mark() {
    assert_eq!(nearest_zero(&vec![vec![false; 3]; 2], 1, 1), None);
    assert_eq!(nearest_zero(&Vec::new(), 0, 0), None);
}

#[test]
fn transform_of_a_single_zero_in_the_middle() {
    let mut arr = vec![vec![1.0f64, 1.0, 1.0], vec![1.0, 0.0, 1.0], vec![1.0, 1.0, 1.0]];
    assert!(euclidean_distance_transform(&mut arr, &root));
    let diagonal = 2.0f64.sqrt();
    assert_eq!(
        arr,
        vec![
            vec![diagonal, 1.0, diagonal],
            vec![1.0, 0.0, 1.0],
            vec![diagonal, 1.0, diagonal],
        ]
    );
}

#[test]
fn transform_measures_to_the_nearest_zero() {
    let mut arr = vec![vec![0.0f64, 7.0, 7.0, 7.0, 7.0], vec![7.0, 7.0, 7.0, 7.0, 0.0]];
    assert!(euclidean_distance_transform(&mut arr, &root));
    assert_eq!(
        arr,
        vec![
            vec![0.0, 1.0, 2.0, 2.0f64.sqrt(), 1.0],
            vec![1.0, 2.0f64.sqrt(), 2.0, 1.0, 0.0],
        ]
    );
}

#[test]
fn transform_does_not_read_its_own_distances_as_zeros() {
    // A distance that a whole-number root rounds down to 0 is written
    // before its neighbours are searched; it does not count as a zero cell.
    let mut arr = vec![vec![0u64, 5, 5, 5]];
    assert!(euclidean_distance_transform(&mut arr, &|d: u64| d / 2));
    assert_eq!(arr, vec![vec![0, 0, 2, 4]]);
}

#[test]
fn transform_without_a_zero_leaves_the_grid() {
    let mut arr = vec![vec![1.0f64, 0.5], vec![2.0, 1.0]];
    assert!(!euclidean_distance_transform(&mut arr, &root));
    assert_eq!(arr, vec![vec![1.0, 0.5], vec![2.0, 1.0]]);
    let mut none: Vec<Vec<f64>> = Vec::new();
    assert!(!euclidean_distance_transform(&mut none, &root));
}

#[test]
fn distance_field_keeps_marked_cells() {
    let mut arr = vec![vec![5.0f64, 6.0, 7.0]];
    let zero = vec![vec![false, true, false]];
    distance_field(&mut arr, &zero, &root);
    assert_eq!(arr, vec![vec![1.0, 6.0, 1.0]]);
}
