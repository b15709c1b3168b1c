use nlmrs::diamond::{
    check_diamond_coords, check_square_coords, diamond_square, diamond_step, displace_vals,
    random_displace, square_step, total,
};
use rand::Rng;
use std::cell::{Cell, RefCell};

fn unit() -> f64 {
    rand::thread_rng().gen()
}

#[test]
fn random_displace_centres_the_draw() {
    assert_eq!(random_displace(2.0f64, 0.5), 0.0);
    assert_eq!(random_displace(2.0f64, 0.0), -1.0);
    assert_eq!(random_displace(2.0f64, 0.75), 0.5);
    assert_eq!(random_displace(0.5f64, 1.0), 0.25);
}

#[test]
fn total_adds_from_the_left() {
    assert_eq!(total(&vec![1.0f64, 2.5, -0.5]), 3.0);
    assert_eq!(total(&Vec::<f64>::new()), 0.0);
    assert_eq!(total(&vec![3u32, 4, 5]), 12);
}

#[test]
fn displace_vals_of_four_takes_the_first_draw() {
    let vals = vec![1.0f64, 2.0, 3.0, 6.0];
    assert_eq!(displace_vals(&vals, 2.0, (0.5, 0.0)), Some(3.0));
    assert_eq!(displace_vals(&vals, 2.0, (1.0, 0.0)), Some(4.0));
    assert_eq!(displace_vals(&vals, 4.0, (0.25, 0.9)), Some(2.0));
}

#[test]
fn displace_vals_of_three_takes_the_second_draw() {
    let vals = vec![1.0f64, 2.0, 6.0];
    assert_eq!(displace_vals(&vals, 2.0, (0.0, 0.5)), Some(3.0));
    assert_eq!(displace_vals(&vals, 2.0, (0.0, 0.0)), Some(2.0));
    assert_eq!(displace_vals(&vals, 1.0, (0.3, 1.0)), Some(3.5));
}

#[test]
fn displace_vals_of_any_other_number_gives_nothing() {
    assert_eq!(displace_vals(&Vec::<f64>::new(), 2.0, (0.5, 0.5)), None);
    assert_eq!(displace_vals(&vec![1.0f64], 2.0, (0.5, 0.5)), None);
    assert_eq!(displace_vals(&vec![1.0f64, 2.0], 2.0, (0.5, 0.5)), None);
    assert_eq!(displace_vals(&vec![1.0f64; 5], 2.0, (0.5, 0.5)), None);
}

#[test]
fn diamond_coords_inside_the_surface() {
    assert_eq!(check_diamond_coords(2, 2, 5, 1), vec![(3, 2), (1, 2), (2, 1), (2, 3)]);
    assert_eq!(check_diamond_coords(2, 2, 5, 2), vec![(4, 2), (0, 2), (2, 0), (2, 4)]);
}

#[test]
fn diamond_coords_on_the_top_edge() {
    assert_eq!(check_diamond_coords(0, 2, 5, 2), vec![(2, 2), (0, 0), (0, 4)]);
}

#[test]
fn diamond_coords_on_the_bottom_edge() {
    assert_eq!(check_diamond_coords(4, 2, 5, 2), vec![(2, 2), (4, 0), (4, 4)]);
}

#[test]
fn diamond_coords_on_the_left_edge() {
    assert_eq!(check_diamond_coords(2, 0, 5, 2), vec![(4, 0), (0, 0), (2, 2)]);
}

#[test]
fn diamond_coords_on_the_right_edge() {
    assert_eq!(check_diamond_coords(2, 4, 5, 2), vec![(4, 4), (0, 4), (2, 2)]);
}

#[test]
fn diamond_coords_off_the_surface() {
    assert_eq!(check_diamond_coords(-1, 2, 5, 2), Vec::<(i32, i32)>::new());
    assert_eq!(check_diamond_coords(2, 6, 5, 2), Vec::<(i32, i32)>::new());
    assert_eq!(check_diamond_coords(6, 2, 5, 2), Vec::<(i32, i32)>::new());
    assert_eq!(check_diamond_coords(2, -3, 5, 2), Vec::<(i32, i32)>::new());
}

#[test]
fn square_coords_are_the_corners_on_the_surface() {
    assert_eq!(check_square_coords(0, 0, 5, 4), vec![(0, 0), (4, 0), (4, 4), (0, 4)]);
    assert_eq!(check_square_coords(2, 0, 5, 2), vec![(2, 0), (4, 0), (4, 2), (2, 2)]);
    assert_eq!(check_square_coords(4, 0, 5, 2), vec![(4, 0), (4, 2)]);
    assert_eq!(check_square_coords(0, 4, 5, 2), vec![(0, 4), (2, 4)]);
    assert_eq!(check_square_coords(4, 4, 5, 2), vec![(4, 4)]);
}

#[test]
fn square_step_writes_the_mean_of_the_corners() {
    let mut surface = vec![vec![0.0f64; 5]; 5];
    surface[0][0] = 1.0;
    surface[4][0] = 2.0;
    surface[4][4] = 3.0;
    surface[0][4] = 6.0;
    square_step(&mut surface, 2.0, 4, 5, &|| 0.5f64, 0, 0);
    let mut expected = vec![vec![0.0f64; 5]; 5];
    expected[0][0] = 1.0;
    expected[4][0] = 2.0;
    expected[4][4] = 3.0;
    expected[0][4] = 6.0;
    expected[2][2] = 3.0;
    assert_eq!(surface, expected);
}

#[test]
fn square_step_displaces_by_the_first_draw() {
    let mut surface = vec![vec![1.0f64; 3]; 3];
    let draws = RefCell::new(vec![0.0f64, 1.0]);
    let unit = || draws.borrow_mut().pop().unwrap();
    square_step(&mut surface, 2.0, 2, 3, &unit, 0, 0);
    // The first draw, 1, lifts the mean by half the displacement height.
    assert_eq!(surface[1][1], 2.0);
}

#[test]
fn diamond_step_on_an_edge_blends_three_cells() {
    let mut surface = vec![vec![0.0f64; 5]; 5];
    surface[2][2] = 3.0;
    surface[0][0] = 1.0;
    surface[0][4] = 5.0;
    let draws = RefCell::new(vec![0.75f64, 0.0]);
    let unit = || draws.borrow_mut().pop().unwrap();
    diamond_step(&mut surface, 2.0, 2, 5, &unit, 0, 2);
    // Three cells share a third each and take the second draw, 0.75.
    assert_eq!(surface[0][2], 3.5);
}

#[test]
fn diamond_step_inside_blends_four_cells() {
    let mut surface = vec![vec![0.0f64; 5]; 5];
    surface[3][2] = 1.0;
    surface[1][2] = 2.0;
    surface[2][1] = 3.0;
    surface[2][3] = 6.0;
    let before = surface.clone();
    diamond_step(&mut surface, 2.0, 1, 5, &|| 0.5f64, 2, 2);
    assert_eq!(surface[2][2], 3.0);
    for i in 0..5 {
        for j in 0..5 {
            if (i, j) != (2, 2) {
                assert_eq!(surface[i][j], before[i][j]);
            }
        }
    }
}

#[test]
fn diamond_square_has_the_side_asked_for() {
    for dim in [2usize, 3, 5, 9, 17, 33, 65] {
        let surface = diamond_square(dim, &unit, &|d: f64| d.powf(-1.0) * 2.0);
        assert_eq!(surface.len(), dim);
        for row in surface.iter() {
            assert_eq!(row.len(), dim);
            for v in row.iter() {
                assert!(v.is_finite());
            }
        }
    }
}

#[test]
fn diamond_square_of_the_smallest_surface_is_the_seed() {
    let next = Cell::new(0.0f64);
    let unit = || {
        let v = next.get();
        next.set(v + 0.25);
        v
    };
    let surface = diamond_square(2, &unit, &|d: f64| d);
    assert_eq!(surface, vec![vec![-1.0, -0.5], vec![0.0, 0.5]]);
}

#[test]
fn diamond_square_centre_is_the_displaced_mean_of_the_corners() {
    for _ in 0..50 {
        let surface = diamond_square(5, &unit, &|d: f64| d.powf(-1.0) * 2.0);
        assert_eq!(surface.len(), 5);
        for row in surface.iter() {
            assert_eq!(row.len(), 5);
            for v in row.iter() {
                assert!(v.is_finite());
            }
        }
        for corner in [surface[0][0], surface[0][4], surface[4][0], surface[4][4]] {
            assert!(-1.0 <= corner && corner < 1.0);
        }
        let mean = (surface[0][0] + surface[4][0] + surface[4][4] + surface[0][4]) * 0.25;
        // The first displacement height is 2, so the centre lies within 1
        // of the mean of the corners.
        assert!((surface[2][2] - mean).abs() <= 1.0 + 1e-12);
    }
}

#[test]
fn diamond_square_without_displacement_averages_the_seed() {
    // Every draw is 0.5: the seed is flat at 0 and nothing is displaced.
    let surface = diamond_square(9, &|| 0.5f64, &|d: f64| d * 0.5);
    assert_eq!(surface, vec![vec![0.0f64; 9]; 9]);
}

#[test]
fn diamond_square_decays_the_height_once_a_step() {
    let heights = RefCell::new(Vec::new());
    let decay = |d: f64| {
        heights.borrow_mut().push(d);
        d * 0.5
    };
    let surface = diamond_square(17, &unit, &decay);
    assert_eq!(surface.len(), 17);
    assert_eq!(*heights.borrow(), vec![2.0, 1.0, 0.5, 0.25]);
}

#[test]
fn diamond_square_first_steps_follow_the_order_of_the_passes() {
    // Draws count up, so each cell shows which draws made it.
    let next = Cell::new(0.0f64);
    let unit = || {
        let v = next.get();
        next.set(v + 1.0);
        v
    };
    let surface = diamond_square(3, &unit, &|d: f64| d);
    // Seed: draws 0..=8 spread to 2 * r - 1.
    assert_eq!(surface[0][0], -1.0);
    assert_eq!(surface[0][2], 3.0);
    assert_eq!(surface[2][0], 11.0);
    assert_eq!(surface[2][2], 15.0);
    // Centre: mean of the corners, 7, displaced by the draw 9.
    assert_eq!(surface[1][1], 7.0 + (9.0 * 2.0 - 1.0));
}

#[test]
fn diamond_square_cells_are_blends_of_their_sources() {
    let dim = 17usize;
    let last = dim - 1;
    for _ in 0..20 {
        let surface = diamond_square(dim, &unit, &|d: f64| d * 0.5);
        for x in 0..dim {
            for y in 0..dim {
                if (x == 0 || x == last) && (y == 0 || y == last) {
                    assert!(-1.0 <= surface[x][y] && surface[x][y] < 1.0);
                    continue;
                }
                // The step that writes the cell is the first one on whose
                // half mesh the cell lies.
                let mut inc = last;
                let mut height = 2.0f64;
                while x % (inc / 2) != 0 || y % (inc / 2) != 0 {
                    inc /= 2;
                    height *= 0.5;
                }
                let mid = inc / 2;
                let coords = if x % inc != 0 && y % inc != 0 {
                    check_square_coords((x - mid) as i32, (y - mid) as i32, dim as i32, inc as i32)
                } else {
                    check_diamond_coords(x as i32, y as i32, dim as i32, mid as i32)
                };
                assert!(coords.len() == 3 || coords.len() == 4);
                let sum: f64 = coords.iter().map(|c| surface[c.0 as usize][c.1 as usize]).sum();
                let mean = sum / coords.len() as f64;
                assert!((surface[x][y] - mean).abs() <= height * 0.5 + 1e-12);
            }
        }
    }
}
