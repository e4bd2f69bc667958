use flowfree::grid::{parse_grid, Grid};
use flowfree::paths::{generate_all_paths, has_arrived, Path};
use flowfree::search::{backtrack, generate_final_grid, get_paths_refs, prune, solve};

fn grid_of(text: &str) -> Grid {
    let chars: Vec<char> = text.chars().collect();
    parse_grid(&chars).unwrap()
}

fn is_simple(p: &Path) -> bool {
    for i in 0..p.len() {
        for j in 0..p.len() {
            if i != j && p[i] == p[j] {
                return false;
            }
        }
    }
    for i in 1..p.len() {
        if !has_arrived(&p[i - 1], &p[i]) {
            return false;
        }
    }
    true
}

fn painted_rows(text: &str) -> Vec<Vec<Option<usize>>> {
    let grid = grid_of(text);
    let sol = solve(&grid).expect("a solution");
    generate_final_grid(&sol, &grid.get_dims()).data
}

#[test]
fn stripes_have_their_unique_solution() {
    let rows = painted_rows("0...0\n1...1\n2...2\n3...3\n4...4\n");
    for r in 0..5 {
        for c in 0..5 {
            assert_eq!(rows[r][c], Some(r));
        }
    }
}

#[test]
fn small_stripes_solution_paths() {
    let grid = grid_of("0.0\n1.1\n2.2");
    let sol = solve(&grid).expect("a solution");
    assert_eq!(sol.len(), 3);
    for c in 0..3 {
        assert_eq!(sol[c].len(), 1);
        assert_eq!(sol[c][0], vec![(c, 0), (c, 1), (c, 2)]);
    }
}

#[test]
fn two_flows_cover_a_five_by_five_board() {
    let text = "0....\n1....\n..0..\n.1...\n.....";
    let grid = grid_of(text);
    let sol = solve(&grid).expect("a solution");
    assert_eq!(sol.len(), 2);
    let mut seen = vec![vec![0usize; 5]; 5];
    for c in 0..2 {
        assert_eq!(sol[c].len(), 1);
        let p = &sol[c][0];
        assert!(is_simple(p));
        for &(r, k) in p {
            seen[r][k] += 1;
        }
    }
    assert_eq!(sol[0][0][0], (0, 0));
    assert_eq!(*sol[0][0].last().unwrap(), (2, 2));
    assert_eq!(sol[1][0][0], (1, 0));
    assert_eq!(*sol[1][0].last().unwrap(), (3, 1));
    for r in 0..5 {
        for k in 0..5 {
            assert_eq!(seen[r][k], 1);
        }
    }
    let rows = generate_final_grid(&sol, &grid.get_dims()).data;
    assert!(rows.iter().all(|row| row.iter().all(|v| v.is_some())));
}

#[test]
fn blocked_endpoints_have_no_solution() {
    let grid = grid_of("01\n10");
    assert!(solve(&grid).is_none());
    let all = generate_all_paths(&grid).unwrap();
    assert_eq!(all[0].len(), 0);
}

#[test]
fn crossing_flows_have_no_solution() {
    let grid = grid_of("0.1\n...\n1.0");
    assert!(solve(&grid).is_none());
}

#[test]
fn missing_partner_is_reported() {
    let mut grid = Grid::new(&(3, 3));
    grid.set(&(0, 0), Some(0));
    grid.set(&(0, 2), Some(1));
    assert!(generate_all_paths(&grid).is_none());
    assert!(solve(&grid).is_none());
}

#[test]
fn every_generated_path_is_a_simple_flow() {
    let grid = grid_of("0....\n1....\n..0..\n.1...\n.....");
    let all = generate_all_paths(&grid).unwrap();
    let ends = [((0, 0), (2, 2)), ((1, 0), (3, 1))];
    for c in 0..2 {
        assert!(!all[c].is_empty());
        for p in &all[c] {
            assert!(is_simple(p));
            assert_eq!(p[0], ends[c].0);
            assert_eq!(*p.last().unwrap(), ends[c].1);
            for cell in &p[1..p.len() - 1] {
                assert_eq!(grid.get(cell), None);
            }
        }
    }
}

#[test]
fn search_only_shrinks_candidates() {
    let grid = grid_of("0....\n1....\n..0..\n.1...\n.....");
    let all = generate_all_paths(&grid).unwrap();
    let mut work = get_paths_refs(&all);
    assert_eq!(work, all);
    let dims = grid.get_dims();
    assert!(backtrack(&mut work, &dims));
    for c in 0..2 {
        assert_eq!(work[c].len(), 1);
        assert!(all[c].contains(&work[c][0]));
    }
}

#[test]
fn prune_at_fixpoint_then_again_changes_nothing() {
    let grid = grid_of("0...0\n1...1\n2...2\n3...3\n4...4");
    let all = generate_all_paths(&grid).unwrap();
    let mut work = get_paths_refs(&all);
    let dims = grid.get_dims();
    let r = prune(&mut work, &dims);
    if r.is_none() {
        let before = work.clone();
        flowfree::propagate::filter_paths_forced(&mut work, &dims);
        assert_eq!(work, before);
    }
    for c in 0..5 {
        assert!(work[c].len() <= all[c].len());
    }
}

#[test]
fn prune_reports_an_empty_color() {
    let mut cands: Vec<Vec<Path>> = vec![vec![], vec![vec![(0, 0), (0, 1)]]];
    assert_eq!(prune(&mut cands, &(1, 2)), Some(false));
}

#[test]
fn prune_solves_a_single_candidate_per_color() {
    let mut cands: Vec<Vec<Path>> = vec![vec![vec![(0, 0), (0, 1)]], vec![vec![(1, 0), (1, 1)]]];
    assert_eq!(prune(&mut cands, &(2, 2)), Some(true));
    assert_eq!(cands[0].len(), 1);
}

#[test]
fn prune_without_colors_fails() {
    let mut cands: Vec<Vec<Path>> = vec![];
    assert_eq!(prune(&mut cands, &(1, 2)), Some(false));
}

#[test]
fn prune_fails_when_every_list_is_empty() {
    let mut cands: Vec<Vec<Path>> = vec![vec![]];
    assert_eq!(prune(&mut cands, &(1, 2)), Some(false));
}

#[test]
fn single_candidates_that_overlap_are_no_solution() {
    let start: Vec<Vec<Path>> = vec![
        vec![vec![(0, 0), (0, 1)], vec![(0, 3), (0, 4)]],
        vec![vec![(0, 1), (0, 2)], vec![(0, 3), (0, 4)]],
    ];
    let mut cands = start.clone();
    assert_eq!(prune(&mut cands, &(1, 5)), Some(false));
    assert_eq!(cands, vec![vec![vec![(0, 0), (0, 1)]], vec![vec![(0, 1), (0, 2)]]]);
    let mut again = start.clone();
    assert!(!backtrack(&mut again, &(1, 5)));
    assert_eq!(again, cands);
}

#[test]
fn single_candidates_that_leave_a_cell_empty_are_no_solution() {
    let grid = grid_of("00.\n...");
    assert!(solve(&grid).is_none());
}

#[test]
fn final_grid_paints_each_first_candidate() {
    let cands: Vec<Vec<Path>> = vec![vec![vec![(0, 0), (0, 1)]], vec![vec![(1, 1), (1, 0)]]];
    let g = generate_final_grid(&cands, &(2, 3));
    assert_eq!(g.data, vec![vec![Some(0), Some(0), None], vec![Some(1), Some(1), None]]);
}

#[test]
fn diagonal_corner_pairs_cannot_tile_a_five_by_five_board() {
    let grid = grid_of("0...1\n.....\n.....\n.....\n1...0");
    assert!(solve(&grid).is_none());
}

#[test]
fn adjacent_endpoints_solve_with_two_cell_paths() {
    let grid = grid_of("01\n01");
    let all = generate_all_paths(&grid).unwrap();
    assert_eq!(all, vec![vec![vec![(0, 0), (1, 0)]], vec![vec![(0, 1), (1, 1)]]]);
    let sol = solve(&grid).expect("a solution");
    assert_eq!(sol, all);
    let rows = generate_final_grid(&sol, &grid.get_dims()).data;
    assert_eq!(rows, vec![vec![Some(0), Some(1)], vec![Some(0), Some(1)]]);
    assert_eq!(generate_final_grid(&sol, &grid.get_dims()).to_string(), "01\n01");
}

#[test]
fn undetermined_prune_is_a_fixpoint_of_both_filters() {
    let mut cands: Vec<Vec<Path>> = vec![
        vec![vec![(0, 0), (0, 1)], vec![(0, 0), (1, 0)]],
        vec![vec![(1, 1), (1, 0)], vec![(1, 1), (0, 1)]],
    ];
    let start = cands.clone();
    assert_eq!(prune(&mut cands, &(2, 2)), None);
    assert_eq!(cands, start);
    flowfree::propagate::filter_paths_forced(&mut cands, &(2, 2));
    assert_eq!(cands, start);
    flowfree::propagate::filter_paths_single(&mut cands, &(2, 2));
    assert_eq!(cands, start);
    assert!(backtrack(&mut cands, &(2, 2)));
    assert_eq!(cands, vec![vec![vec![(0, 0), (0, 1)]], vec![vec![(1, 1), (1, 0)]]]);
}
