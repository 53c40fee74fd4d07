use bsim::display_elems::{clear_screen, mark_obstacle, Screen, OCCUPIED_WEIGHT};
use bsim::path_find::{a_star_get_pts, heuristic_cost, is_valid, neighbours, OrdPt};

#[test]
fn test_heuristic_cost() {
    assert_eq!(heuristic_cost((0, 0), (1, 1)), 14);
    assert_eq!(heuristic_cost((0, 0), (1, 0)), 10);
}

fn make_screen() -> Screen {
    Screen::new(140, 80)
}

fn assert_route(pts: &[(i32, i32)], from: (i32, i32), to: (i32, i32), s: &Screen) {
    assert_eq!(pts.first(), Some(&from));
    assert_eq!(pts.last(), Some(&to));
    for p in pts {
        assert!(is_valid(p.0, p.1, s));
    }
    for w in pts.windows(2) {
        assert_ne!(w[0], w[1]);
        assert!((w[0].0 - w[1].0).abs() <= 1 && (w[0].1 - w[1].1).abs() <= 1);
    }
    for (i, p) in pts.iter().enumerate() {
        assert!(!pts[..i].contains(p), "{:?} is passed twice", p);
    }
}

#[test]
fn test_path() {
    let mut s = make_screen();
    s.set_weight(2, 7, OCCUPIED_WEIGHT);
    s.set_weight(3, 7, OCCUPIED_WEIGHT);
    let pts = a_star_get_pts((14, 5), (2, 4), &s);
    println!("\n->{:?}", pts);
    assert_route(&pts, (14, 5), (2, 4), &s);
    // one diagonal step and eleven straight ones
    assert_eq!(pts.len(), 13);
}

#[test]
fn heuristic_cost_mixes_diagonal_and_straight_steps() {
    assert_eq!(heuristic_cost((0, 0), (0, 0)), 0);
    assert_eq!(heuristic_cost((3, 7), (5, 2)), 2 * 14 + 3 * 10);
    assert_eq!(heuristic_cost((5, 2), (3, 7)), 2 * 14 + 3 * 10);
    assert_eq!(heuristic_cost((i32::MIN, 0), (i32::MAX, 0)), 0xffff_ffff_u64 * 10);
}

#[test]
fn route_to_the_same_cell_is_that_cell() {
    let s = make_screen();
    assert_eq!(a_star_get_pts((3, 3), (3, 3), &s), vec![(3, 3)]);
}

#[test]
fn route_off_the_grid_is_empty() {
    let s = Screen::new(4, 3);
    assert!(a_star_get_pts((0, 0), (4, 0), &s).is_empty());
    assert!(a_star_get_pts((0, 3), (1, 1), &s).is_empty());
    assert!(a_star_get_pts((-1, 0), (1, 1), &s).is_empty());
    assert_eq!(a_star_get_pts((0, 0), (3, 2), &s).len(), 4);
}

#[test]
fn route_goes_round_a_wall() {
    let mut s = Screen::new(7, 7);
    for y in 0..6 {
        s.set_weight(3, y, OCCUPIED_WEIGHT);
    }
    let pts = a_star_get_pts((0, 0), (6, 0), &s);
    assert_route(&pts, (0, 0), (6, 0), &s);
    assert!(pts.iter().all(|p| *s.at(p.0 as usize, p.1 as usize).unwrap() == 0));
    assert!(pts.contains(&(3, 6)));
}

#[test]
fn route_crosses_a_wall_that_cannot_be_passed_round() {
    let mut s = Screen::new(5, 1);
    s.set_weight(2, 0, OCCUPIED_WEIGHT);
    assert_eq!(
        a_star_get_pts((0, 0), (4, 0), &s),
        vec![(0, 0), (1, 0), (2, 0), (3, 0), (4, 0)]
    );
}

#[test]
fn neighbours_in_order_and_on_the_grid() {
    let s = Screen::new(3, 3);
    assert_eq!(
        neighbours(&(1, 1), &s),
        vec![(0, 1), (2, 1), (1, 0), (1, 2), (2, 2), (2, 0), (0, 2), (0, 0)]
    );
    assert_eq!(neighbours(&(0, 0), &s), vec![(1, 0), (0, 1), (1, 1)]);
    assert_eq!(neighbours(&(2, 2), &s), vec![(1, 2), (2, 1), (1, 1)]);
    assert!(neighbours(&(i32::MAX, i32::MAX), &s).is_empty());
    let p = OrdPt { pos: (0, 0), gcost: 4, hcost: 6 };
    assert_eq!(p.neighbours(&s), vec![(1, 0), (0, 1), (1, 1)]);
    assert!(p.is_valid(2, 2, &s));
    assert!(!p.is_valid(3, 2, &s));
    assert_eq!(p.fcost(), 10);
    assert_eq!(OrdPt { pos: (0, 0), gcost: u64::MAX, hcost: 6 }.fcost(), u64::MAX);
}

#[test]
fn screen_cells() {
    let mut s = Screen::new(3, 2);
    assert_eq!(s.logical_width(), 3);
    assert_eq!(s.logical_height(), 2);
    assert_eq!(s.at(2, 1), Some(&0));
    assert_eq!(s.at(3, 1), None);
    assert_eq!(s.at(2, 2), None);
    assert!(s.set_weight(2, 1, 7));
    assert!(!s.set_weight(3, 1, 7));
    assert_eq!(s.at(2, 1), Some(&7));
    s.resize(4, 1);
    assert_eq!((s.logical_width(), s.logical_height()), (4, 1));
    assert_eq!(s.at(3, 0), Some(&0));
    assert_eq!(s.at(2, 1), None);
    s.resize(3, 2);
    assert_eq!(s.at(2, 1), Some(&0));
    s.set_weight(0, 0, OCCUPIED_WEIGHT);
    clear_screen(&mut s);
    assert_eq!(s.at(0, 0), Some(&0));
    assert_eq!((s.logical_width(), s.logical_height()), (3, 2));
}

#[test]
fn obstacles_are_marked_on_the_grid_only() {
    let mut s = Screen::new(4, 3);
    s.set_weight(0, 0, 5);
    mark_obstacle(&mut s, 2, -1, 9, 2);
    let weights: Vec<Vec<usize>> = (0..3)
        .map(|y| (0..4).map(|x| *s.at(x, y).unwrap()).collect())
        .collect();
    let o = OCCUPIED_WEIGHT;
    assert_eq!(weights, vec![vec![5, 0, o, o], vec![0, 0, o, o], vec![0, 0, 0, 0]]);
    mark_obstacle(&mut s, 1, 1, 1, 3);
    mark_obstacle(&mut s, 3, 3, 0, 0);
    assert_eq!(s.at(1, 1), Some(&0));
    assert_eq!(s.at(1, 2), Some(&0));
}

fn cost_of(pts: &[(i32, i32)], s: &Screen) -> u64 {
    pts.windows(2)
        .map(|w| heuristic_cost(w[0], w[1]) + *s.at(w[1].0 as usize, w[1].1 as usize).unwrap() as u64)
        .sum()
}

#[test]
fn route_weighs_a_heavy_cell_against_the_way_round() {
    let mut s = Screen::new(3, 3);
    s.set_weight(1, 1, 100);
    let pts = a_star_get_pts((0, 1), (2, 1), &s);
    assert_route(&pts, (0, 1), (2, 1), &s);
    // two diagonal steps round the cell are cheaper than through it
    assert_eq!(pts.len(), 3);
    assert_ne!(pts[1], (1, 1));
    assert_eq!(cost_of(&pts, &s), 28);
    // a light cell is crossed: 10 + 5 + 10 against 28
    s.set_weight(1, 1, 5);
    let pts = a_star_get_pts((0, 1), (2, 1), &s);
    assert_eq!(pts, vec![(0, 1), (1, 1), (2, 1)]);
    assert_eq!(cost_of(&pts, &s), 25);
    // the weight of the cell left does not count, that of the cell entered does
    s.set_weight(0, 1, 1000);
    s.set_weight(2, 1, 7);
    let pts = a_star_get_pts((0, 1), (2, 1), &s);
    assert_eq!(cost_of(&pts, &s), 32);
}

#[test]
fn route_is_no_dearer_than_any_other_on_a_small_grid() {
    let mut s = Screen::new(4, 3);
    let weights = [[0usize, 9, 0, 3], [4, 30, 2, 0], [0, 1, 8, 0]];
    for y in 0..3 {
        for x in 0..4 {
            s.set_weight(x, y, weights[y][x]);
        }
    }
    let from = (0, 0);
    let to = (3, 2);
    let pts = a_star_get_pts(from, to, &s);
    assert_route(&pts, from, to, &s);
    // the cheapest cost by relaxing every step until nothing changes
    let mut best = vec![vec![u64::MAX; 4]; 3];
    best[0][0] = 0;
    for _ in 0..12 {
        for y in 0..3i32 {
            for x in 0..4i32 {
                for (dx, dy) in [(-1, -1), (-1, 0), (-1, 1), (0, -1), (0, 1), (1, -1), (1, 0), (1, 1)] {
                    let (px, py) = (x + dx, y + dy);
                    if px < 0 || py < 0 || px >= 4 || py >= 3 || best[py as usize][px as usize] == u64::MAX {
                        continue;
                    }
                    let c = best[py as usize][px as usize]
                        + heuristic_cost((px, py), (x, y))
                        + weights[y as usize][x as usize] as u64;
                    if c < best[y as usize][x as usize] {
                        best[y as usize][x as usize] = c;
                    }
                }
            }
        }
    }
    assert_eq!(cost_of(&pts, &s), best[2][3]);
}
