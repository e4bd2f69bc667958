use flowfree::grid::{parse_grid, Grid, GridError};
use flowfree::paths::{generate_paths, get_neighbors, get_smart_neighbors, has_arrived, Path};
use flowfree::point::{check_endpoints, count_color, find_other_point, Point};
use flowfree::propagate::{
    check_reachable, filter_paths_forced, filter_paths_single, generate_forced_grid,
    generate_single_grid, get_forced_coord, get_single_coords, is_impossible, is_solved,
};

fn grid_of(text: &str) -> Grid {
    let chars: Vec<char> = text.chars().collect();
    parse_grid(&chars).unwrap()
}

#[test]
fn parse_reads_digits_and_skips_short_lines() {
    let g = grid_of("x\n0.1\n\n.10\n");
    assert_eq!(g.data, vec![vec![Some(0), None, Some(1)], vec![None, Some(1), Some(0)]]);
    assert_eq!(g.get_dims(), (2, 3));
}

#[test]
fn parse_rejects_empty_text() {
    let chars: Vec<char> = "a\n\nb".chars().collect();
    assert_eq!(parse_grid(&chars).err(), Some(GridError::Empty));
}

#[test]
fn parse_rejects_ragged_rows() {
    let chars: Vec<char> = "0..\n0.\n".chars().collect();
    assert_eq!(parse_grid(&chars).err(), Some(GridError::NotRectangular));
}

#[test]
fn parse_rejects_unpaired_colors() {
    for text in ["0.1\n...\n..0", "0.0\n0..", "2.2\n...", "00\n.."] {
        let chars: Vec<char> = text.chars().collect();
        let expected = if text == "00\n.." { None } else { Some(GridError::BadEndpoints) };
        assert_eq!(parse_grid(&chars).err(), expected);
    }
}

#[test]
fn new_grid_is_empty_and_set_writes_one_cell() {
    let mut g = Grid::new(&(2, 3));
    assert_eq!(g.get_dims(), (2, 3));
    assert_eq!(g.get(&(1, 2)), None);
    g.set(&(1, 2), Some(4));
    assert_eq!(g.get(&(1, 2)), Some(4));
    assert_eq!(g.get(&(0, 2)), None);
    assert_eq!(g.get(&(1, 1)), None);
}

#[test]
fn find_points_is_row_major() {
    let g = grid_of(".1\n0.\n01");
    let pts = g.find_points();
    assert_eq!(
        pts,
        vec![Point::new((0, 1), 1), Point::new((1, 0), 0), Point::new((2, 0), 0), Point::new((2, 1), 1)]
    );
    assert!(check_endpoints(&pts));
    assert!(!check_endpoints(&pts[..3].to_vec()));
    assert_eq!(count_color(&pts, 0), 2);
    assert_eq!(count_color(&pts, 5), 0);
}

#[test]
fn find_other_point_finds_the_partner() {
    let pts = vec![Point::new((0, 1), 1), Point::new((1, 0), 0), Point::new((2, 1), 1)];
    assert_eq!(find_other_point(&pts, &pts[0]), Some(pts[2]));
    assert_eq!(find_other_point(&pts, &Point::new((3, 2), 1)), Some(pts[0]));
    assert_eq!(find_other_point(&pts, &pts[1]), None);
}

#[test]
fn has_arrived_only_for_orthogonal_neighbors() {
    assert!(has_arrived(&(1, 1), &(0, 1)));
    assert!(has_arrived(&(1, 1), &(1, 2)));
    assert!(!has_arrived(&(1, 1), &(1, 1)));
    assert!(!has_arrived(&(1, 1), &(2, 2)));
    assert!(!has_arrived(&(0, 0), &(0, 2)));
}

#[test]
fn adjacent_endpoints_give_one_path_of_two_cells() {
    let g = grid_of("01.\n..1\n0..");
    let start: Path = vec![(0, 0)];
    let found = generate_paths(&(2, 0), &start, &g);
    assert_eq!(found, vec![vec![(0, 0), (1, 0), (2, 0)]]);
    let g2 = grid_of("00.\n...");
    let found2 = generate_paths(&(0, 1), &vec![(0, 0)], &g2);
    assert_eq!(found2, vec![vec![(0, 0), (0, 1)]]);
}

#[test]
fn neighbors_in_grid_order() {
    let g = Grid::new(&(3, 3));
    assert_eq!(get_neighbors(&(1, 1), &g), vec![(0, 1), (2, 1), (1, 0), (1, 2)]);
    assert_eq!(get_neighbors(&(0, 0), &g), vec![(1, 0), (0, 1)]);
    assert_eq!(get_neighbors(&(2, 2), &g), vec![(1, 2), (2, 1)]);
}

#[test]
fn smart_neighbors_avoid_colored_and_touching_cells() {
    let g = grid_of("0.1\n...\n01.");
    let path: Path = vec![(0, 0), (0, 1), (1, 1)];
    assert_eq!(get_smart_neighbors(&path, &g), vec![(1, 2)]);
    let path2: Path = vec![(1, 0), (1, 1)];
    assert_eq!(get_smart_neighbors(&path2, &grid_of("...\n...\n...")), vec![(0, 1), (2, 1), (1, 2)]);
}

#[test]
fn forced_coords_are_shared_by_all_paths() {
    let paths: Vec<Path> = vec![vec![(0, 0), (0, 1), (1, 1)], vec![(0, 0), (1, 0), (1, 1)]];
    assert_eq!(get_forced_coord(&paths, &(2, 2)), vec![(0, 0), (1, 1)]);
    assert_eq!(get_forced_coord(&vec![], &(2, 2)), vec![]);
}

#[test]
fn forced_grid_marks_forced_cells() {
    let cands: Vec<Vec<Path>> = vec![
        vec![vec![(0, 0), (0, 1)]],
        vec![vec![(1, 0), (1, 1)], vec![(1, 0), (0, 0)]],
    ];
    let g = generate_forced_grid(&cands, &(2, 2));
    assert_eq!(g.data, vec![vec![Some(0), Some(0)], vec![Some(1), None]]);
}

#[test]
fn forced_filter_drops_paths_through_other_colors() {
    let mut cands: Vec<Vec<Path>> = vec![
        vec![vec![(0, 0), (0, 1)]],
        vec![vec![(1, 0), (1, 1)], vec![(1, 0), (0, 0)]],
    ];
    filter_paths_forced(&mut cands, &(2, 2));
    assert_eq!(cands[0], vec![vec![(0, 0), (0, 1)]]);
    assert_eq!(cands[1], vec![vec![(1, 0), (1, 1)]]);
}

#[test]
fn single_grid_and_coords() {
    let cands: Vec<Vec<Path>> = vec![
        vec![vec![(0, 0), (0, 1)], vec![(0, 0), (1, 0)]],
        vec![vec![(1, 1), (1, 0)], vec![(1, 1), (0, 1)]],
    ];
    let g = generate_single_grid(&cands, &(2, 2));
    assert_eq!(g.data, vec![vec![Some(0), None], vec![None, Some(1)]]);
    assert_eq!(get_single_coords(&g, &1), vec![(1, 1)]);
}

#[test]
fn single_filter_keeps_paths_covering_exclusive_cells() {
    let mut cands: Vec<Vec<Path>> = vec![
        vec![vec![(0, 0), (0, 1), (0, 2)], vec![(0, 0), (1, 0)]],
        vec![vec![(1, 2), (1, 1)], vec![(1, 2), (1, 1), (1, 0)]],
    ];
    filter_paths_single(&mut cands, &(2, 3));
    assert_eq!(cands[0], vec![vec![(0, 0), (0, 1), (0, 2)]]);
    assert_eq!(cands[1].len(), 2);
}

#[test]
fn reachability_needs_every_cell() {
    let cands: Vec<Vec<Path>> = vec![vec![vec![(0, 0), (0, 1)]], vec![vec![(1, 0), (1, 1)]]];
    assert!(check_reachable(&cands, &(2, 2)));
    assert!(!check_reachable(&cands, &(2, 3)));
}

#[test]
fn solved_and_impossible_checks() {
    let one: Vec<Vec<Path>> = vec![vec![vec![(0, 0)]], vec![vec![(1, 0)]]];
    let two: Vec<Vec<Path>> = vec![vec![vec![(0, 0)], vec![(0, 1)]], vec![]];
    assert!(is_solved(&one));
    assert!(!is_impossible(&one));
    assert!(!is_solved(&two));
    assert!(is_impossible(&two));
}

#[test]
fn to_string_draws_pipes_numbers_and_spaces() {
    let g = Grid {
        data: vec![
            vec![Some(0), Some(0), Some(0)],
            vec![Some(1), None, Some(1)],
            vec![None, Some(2), None],
        ],
    };
    assert_eq!(g.to_string(), "0─0\n1 1\n 2 ");
    let mut h = Grid::new(&(3, 3));
    for &c in &[(0, 0), (0, 1), (1, 1), (2, 1), (2, 2)] {
        h.set(&c, Some(12));
    }
    assert_eq!(h.to_string(), "12╮ \n │ \n ╰12");
}
