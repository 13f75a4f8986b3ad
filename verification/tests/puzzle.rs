use raytracer::puzzle::board::Board;
use raytracer::puzzle::solver::{find_gap, gap_between, manhattan, solve};
use raytracer::puzzle::text::{push_decimal, push_line_feed, push_space};

fn board_of(rows: Vec<Vec<usize>>) -> Board {
    let gap = find_gap(&rows);
    let distance = manhattan(&rows);
    Board::new(rows, 0, gap, distance)
}

fn is_one_slide(a: &Board, b: &Board) -> bool {
    let (ar, ac) = a.blank();
    let (br, bc) = b.blank();
    let near = (ar == br && (ac + 1 == bc || bc + 1 == ac))
        || (ac == bc && (ar + 1 == br || br + 1 == ar));
    if !near {
        return false;
    }
    let mut expected = a.tiles();
    expected[ar][ac] = expected[br][bc];
    expected[br][bc] = 0;
    expected == b.tiles()
}

#[test]
fn manhattan_of_solved_grid_is_zero() {
    let rows = vec![vec![1, 2, 3], vec![4, 5, 6], vec![7, 8, 0]];
    assert_eq!(manhattan(&rows), 0);
}

#[test]
fn manhattan_sums_rows_and_columns() {
    // 8 is two rows and one column from home, 1 is two rows and two columns away.
    let rows = vec![vec![0, 8, 3], vec![4, 5, 6], vec![7, 2, 1]];
    // 8: home (2,1), at (0,1) -> 2; 2: home (0,1), at (2,1) -> 2; 1: home (0,0), at (2,2) -> 4
    assert_eq!(manhattan(&rows), 8);
}

#[test]
fn manhattan_of_five_by_five() {
    let rows = vec![
        vec![1, 4, 13, 11, 5],
        vec![19, 6, 14, 10, 15],
        vec![8, 16, 17, 0, 24],
        vec![9, 7, 21, 20, 12],
        vec![3, 18, 22, 23, 2],
    ];
    let mut expected = 0;
    for (i, row) in rows.iter().enumerate() {
        for (j, &x) in row.iter().enumerate() {
            if x != 0 {
                let (r, c) = ((x - 1) / 5, (x - 1) % 5);
                expected += i.abs_diff(r) + j.abs_diff(c);
            }
        }
    }
    assert_eq!(manhattan(&rows), expected);
    assert_eq!(find_gap(&rows), (2, 3));
}

#[test]
fn find_gap_returns_first_zero_in_reading_order() {
    let rows = vec![vec![1, 2, 3], vec![4, 0, 6], vec![7, 0, 5]];
    assert_eq!(find_gap(&rows), (1, 1));
}

#[test]
fn find_gap_without_zero_is_origin() {
    let rows = vec![vec![1, 2], vec![3, 4]];
    assert_eq!(find_gap(&rows), (0, 0));
}

#[test]
fn find_gap_of_empty_grid_is_origin() {
    let rows: Vec<Vec<usize>> = Vec::new();
    assert_eq!(find_gap(&rows), (0, 0));
    assert_eq!(manhattan(&rows), 0);
}

#[test]
fn new_takes_parts_as_given() {
    let b = Board::new(vec![vec![1, 0], vec![3, 2]], 7, (0, 1), 5);
    assert_eq!(b.dist_from_start(), 7);
    assert_eq!(b.blank(), (0, 1));
    assert_eq!(b.to_end(), 15);
    assert_eq!(b.heuristics(), 22);
    assert_eq!(b.priority(), 22);
    assert_eq!(b.possible(), 8);
    assert_eq!(b.tiles(), vec![vec![1, 0], vec![3, 2]]);
}

#[test]
fn hamming_counts_misplaced_cells_gap_included() {
    let solved = board_of(vec![vec![1, 2, 3], vec![4, 5, 6], vec![7, 8, 0]]);
    assert_eq!(solved.hamming(), 0);
    assert!(solved.is_goal());
    let one_off = board_of(vec![vec![1, 2, 3], vec![4, 5, 6], vec![7, 0, 8]]);
    assert_eq!(one_off.hamming(), 2);
    assert!(!one_off.is_goal());
    let all_off = board_of(vec![vec![0, 1, 2], vec![3, 4, 5], vec![6, 7, 8]]);
    assert_eq!(all_off.hamming(), 9);
}

#[test]
fn hamming_of_single_cell() {
    let b = Board::new(vec![vec![0]], 0, (0, 0), 0);
    assert_eq!(b.hamming(), 0);
    let c = Board::new(vec![vec![5]], 0, (0, 0), 0);
    assert_eq!(c.hamming(), 1);
}

#[test]
fn hamming_of_ragged_rows_follows_reading_order() {
    // Two rows, so values are expected modulo four: 1, 2, 3, 0, 1.
    let b = Board::new(vec![vec![1, 2, 3], vec![0, 1]], 0, (1, 0), 0);
    assert_eq!(b.hamming(), 0);
    let c = Board::new(vec![vec![1, 2, 3], vec![0, 2]], 0, (1, 0), 0);
    assert_eq!(c.hamming(), 1);
}

#[test]
fn updated_manhattan_follows_the_sliding_tile() {
    let rows = vec![vec![1, 2, 3], vec![4, 5, 6], vec![7, 0, 8]];
    let b = board_of(rows);
    assert_eq!(b.to_end(), 3);
    // Sliding 8 left into the gap brings it home.
    assert_eq!(b.updated_manhattan((2, 2)), 0);
    // Sliding 5 down takes it one row from home.
    assert_eq!(b.updated_manhattan((1, 1)), 2);
}

#[test]
fn update_from_start_counts_one_more_than_the_better_board() {
    let better = Board::new(vec![vec![1, 0], vec![3, 2]], 4, (0, 1), 3);
    let mut b = Board::new(vec![vec![0, 1], vec![3, 2]], 9, (0, 0), 4);
    b.update_from_start(&better);
    assert_eq!(b.dist_from_start(), 5);
    assert_eq!(b.blank(), (0, 0));
    assert_eq!(b.to_end(), 12);
    assert_eq!(b.tiles(), vec![vec![0, 1], vec![3, 2]]);
}

#[test]
fn nearby_lists_down_up_right_left() {
    let b = board_of(vec![vec![1, 2, 3], vec![4, 0, 5], vec![6, 7, 8]]);
    let near = Board::nearby(&b);
    assert_eq!(near.len(), 4);
    assert_eq!(near[0].tiles(), vec![vec![1, 2, 3], vec![4, 7, 5], vec![6, 0, 8]]);
    assert_eq!(near[1].tiles(), vec![vec![1, 0, 3], vec![4, 2, 5], vec![6, 7, 8]]);
    assert_eq!(near[2].tiles(), vec![vec![1, 2, 3], vec![4, 5, 0], vec![6, 7, 8]]);
    assert_eq!(near[3].tiles(), vec![vec![1, 2, 3], vec![0, 4, 5], vec![6, 7, 8]]);
    assert_eq!(near[0].blank(), (2, 1));
    assert_eq!(near[1].blank(), (0, 1));
    assert_eq!(near[2].blank(), (1, 2));
    assert_eq!(near[3].blank(), (1, 0));
    for n in near.iter() {
        assert_eq!(n.dist_from_start(), 1);
        assert_eq!(n.to_end(), 3 * manhattan(&n.tiles()));
    }
}

#[test]
fn nearby_in_a_corner_has_two_boards() {
    let b = board_of(vec![vec![1, 2, 3], vec![4, 5, 6], vec![7, 8, 0]]);
    let near = Board::nearby(&b);
    assert_eq!(near.len(), 2);
    assert_eq!(near[0].blank(), (1, 2));
    assert_eq!(near[1].blank(), (2, 1));
}

#[test]
fn nearby_of_single_cell_is_empty() {
    let b = Board::new(vec![vec![0]], 0, (0, 0), 0);
    assert!(Board::nearby(&b).is_empty());
}

#[test]
fn same_tiles_ignores_bookkeeping() {
    let a = Board::new(vec![vec![1, 0], vec![3, 2]], 1, (0, 1), 3);
    let b = Board::new(vec![vec![1, 0], vec![3, 2]], 9, (0, 1), 3);
    let c = Board::new(vec![vec![0, 1], vec![3, 2]], 1, (0, 0), 4);
    assert!(a.same_tiles(&b));
    assert!(!a.same_tiles(&c));
    assert!(a.clone().same_tiles(&a));
    assert_eq!(a.clone().dist_from_start(), 1);
}

#[test]
fn solve_of_solved_board_is_the_board_alone() {
    let b = board_of(vec![vec![1, 2, 3], vec![4, 5, 6], vec![7, 8, 0]]);
    let path = solve(b.clone());
    assert_eq!(path.len(), 1);
    assert!(path[0].same_tiles(&b));
}

#[test]
fn solve_finds_a_walk_to_the_goal() {
    let b = board_of(vec![vec![1, 2, 3], vec![4, 0, 6], vec![7, 5, 8]]);
    let path = solve(b.clone());
    assert_eq!(path.len(), 3);
    assert!(path[0].same_tiles(&b));
    for k in 0..path.len() - 1 {
        assert!(is_one_slide(&path[k], &path[k + 1]));
        assert_eq!(path[k].dist_from_start(), k);
    }
    assert!(path[path.len() - 1].is_goal());
    assert_eq!(path[2].tiles(), vec![vec![1, 2, 3], vec![4, 5, 6], vec![7, 8, 0]]);
}

#[test]
fn solve_of_a_scrambled_board_ends_solved() {
    let b = board_of(vec![vec![4, 1, 3], vec![7, 2, 6], vec![0, 5, 8]]);
    let path = solve(b.clone());
    assert!(!path.is_empty());
    assert!(path[0].same_tiles(&b));
    for k in 0..path.len() - 1 {
        assert!(is_one_slide(&path[k], &path[k + 1]));
        assert_eq!(path[k + 1].dist_from_start(), k + 1);
        assert_eq!(path[k + 1].to_end(), 3 * manhattan(&path[k + 1].tiles()));
    }
    assert!(path[path.len() - 1].is_goal());
}

#[test]
fn solve_of_an_unsolvable_board_is_empty() {
    let b = board_of(vec![vec![2, 1], vec![3, 0]]);
    assert!(solve(b).is_empty());
}

#[test]
fn solve_of_single_cell_is_the_board() {
    let b = board_of(vec![vec![0]]);
    assert_eq!(solve(b).len(), 1);
}

#[test]
fn to_string_writes_rows_in_decimal() {
    let b = board_of(vec![vec![1, 2, 3], vec![4, 0, 6], vec![7, 5, 8]]);
    assert_eq!(b.to_string(), "1 2 3\n4 0 6\n7 5 8\n");
    let wide = board_of(vec![
        vec![1, 4, 13, 11, 5],
        vec![19, 6, 14, 10, 15],
        vec![8, 16, 17, 0, 24],
        vec![9, 7, 21, 20, 12],
        vec![3, 18, 22, 23, 2],
    ]);
    assert_eq!(
        wide.to_string(),
        "1 4 13 11 5\n19 6 14 10 15\n8 16 17 0 24\n9 7 21 20 12\n3 18 22 23 2\n"
    );
}

#[test]
fn to_string_of_large_values_and_single_cell() {
    let b = Board::new(vec![vec![0]], 0, (0, 0), 0);
    assert_eq!(b.to_string(), "0\n");
    let c = Board::new(vec![vec![1000, 907], vec![10, usize::MAX]], 0, (0, 0), 0);
    assert_eq!(c.to_string(), format!("1000 907\n10 {}\n", usize::MAX));
    let empty = Board::new(Vec::new(), 0, (0, 0), 0);
    assert_eq!(empty.to_string(), "");
}

#[test]
fn solve_of_a_hard_board_ends_solved() {
    let b = board_of(vec![vec![8, 6, 7], vec![2, 5, 4], vec![3, 0, 1]]);
    assert!(b.validate());
    let path = solve(b.clone());
    assert!(path.len() >= 32);
    assert!(path[0].same_tiles(&b));
    for k in 0..path.len() - 1 {
        assert!(is_one_slide(&path[k], &path[k + 1]));
    }
    assert!(path[path.len() - 1].is_goal());
}

#[test]
fn solve_of_a_four_by_four_board_ends_solved() {
    let b = board_of(vec![
        vec![5, 1, 2, 4],
        vec![9, 6, 3, 8],
        vec![13, 10, 7, 11],
        vec![0, 14, 15, 12],
    ]);
    assert!(b.validate());
    let path = solve(b.clone());
    assert!(!path.is_empty());
    for k in 0..path.len() - 1 {
        assert!(is_one_slide(&path[k], &path[k + 1]));
    }
    assert!(path[path.len() - 1].is_goal());
    assert_eq!(path[path.len() - 1].dist_from_start(), path.len() - 1);
}

#[test]
fn validate_tells_positions_from_other_boards() {
    assert!(board_of(vec![vec![1, 2], vec![3, 0]]).validate());
    assert!(Board::new(vec![vec![0]], 0, (0, 0), 0).validate());
    // the recorded distance is wrong
    assert!(!Board::new(vec![vec![1, 2], vec![0, 3]], 0, (1, 0), 0).validate());
    assert!(Board::new(vec![vec![1, 2], vec![0, 3]], 0, (1, 0), 1).validate());
    // the gap is elsewhere
    assert!(!Board::new(vec![vec![1, 2], vec![0, 3]], 0, (1, 1), 1).validate());
    // two gaps
    assert!(!Board::new(vec![vec![1, 0], vec![0, 3]], 0, (1, 0), 0).validate());
    // a tile out of range
    assert!(!Board::new(vec![vec![1, 2], vec![0, 4]], 0, (1, 0), 1).validate());
    // not square
    assert!(!Board::new(vec![vec![1, 2, 3], vec![0, 3]], 0, (1, 0), 1).validate());
    assert!(!Board::new(Vec::new(), 0, (0, 0), 0).validate());
    // the gap's record is off the grid
    assert!(!Board::new(vec![vec![1, 2], vec![3, 0]], 0, (2, 0), 0).validate());
}

#[test]
fn fingerprint_is_shared_by_equal_grids() {
    let a = Board::new(vec![vec![1, 0], vec![3, 2]], 1, (0, 1), 3);
    let b = Board::new(vec![vec![1, 0], vec![3, 2]], 9, (0, 1), 3);
    let c = Board::new(vec![vec![0, 1], vec![3, 2]], 1, (0, 0), 4);
    assert_eq!(a.fingerprint(), b.fingerprint());
    assert_ne!(a.fingerprint(), c.fingerprint());
    // ((((0 * 31 + 1) * 31 + 0) * 31 + 3) * 31 + 2
    assert_eq!(a.fingerprint(), 29886);
}

#[test]
fn push_decimal_writes_numbers_without_leading_zeros() {
    let mut text = String::from("n=");
    for n in [0usize, 9, 10, 99, 100, 12345, 1_000_000] {
        push_decimal(&mut text, n);
        push_space(&mut text);
    }
    push_decimal(&mut text, usize::MAX);
    push_line_feed(&mut text);
    assert_eq!(text, format!("n=0 9 10 99 100 12345 1000000 {}\n", usize::MAX));
}

#[test]
fn gap_between_is_the_absolute_difference() {
    assert_eq!(gap_between(3, 7), 4);
    assert_eq!(gap_between(7, 3), 4);
    assert_eq!(gap_between(5, 5), 0);
    assert_eq!(gap_between(0, usize::MAX), usize::MAX);
}

#[test]
fn solve_of_an_unsolvable_three_by_three_board_is_empty() {
    // Two tiles of the solved board have changed places: half of all boards cannot be solved.
    let b = board_of(vec![vec![1, 2, 3], vec![4, 5, 6], vec![8, 7, 0]]);
    assert!(b.validate());
    assert!(solve(b).is_empty());
}
