use dlx::{matrix_from_courses, Block2D, Game2D, MatrixError, Node, PieceError, TilingError};

fn is_exact_cover(m: &Vec<Vec<bool>>, s: &Vec<usize>) -> bool {
    let width = m[0].len();
    let mut seen = vec![0usize; width];
    for &r in s {
        for j in 0..width {
            if m[r][j] {
                seen[j] += 1;
            }
        }
    }
    seen.iter().all(|&c| c == 1)
}

fn knuth() -> Vec<Vec<bool>> {
    let rows = ["0010110", "1001001", "0110010", "1001000", "0100001", "0001101"];
    rows.iter().map(|r| r.chars().map(|c| c == '1').collect()).collect()
}

fn sorted(mut v: Vec<usize>) -> Vec<usize> {
    v.sort();
    v
}

#[test]
fn blocks() {
    let game = Game2D::from_strings(3, 2, vec!["##", "##\n.#", "#"]).unwrap();
    let mat = game.get_matrix();
    let sols = Node::solve_all(&mat).unwrap();
    assert_eq!(sols.len(), 12);
    for sol in &sols {
        assert!(is_exact_cover(&mat, sol));
        assert_eq!(sol.len(), 3);
        let mut board = vec![false; 6];
        for &j in sol {
            for (k, &b) in mat[j][game.blocks.len()..].iter().enumerate() {
                if b {
                    assert!(!board[k]);
                    board[k] = true;
                }
            }
        }
        assert!(board.iter().all(|&b| b));
    }
}

#[test]
fn knuth_matrix_has_one_cover() {
    let m = knuth();
    let sols = Node::solve_all(&m).unwrap();
    assert_eq!(sols.len(), 1);
    assert_eq!(sorted(sols[0].clone()), vec![0, 3, 4]);
}

#[test]
fn knuth_first_cover_matches() {
    let m = knuth();
    let all = Node::solve_all(&m).unwrap();
    let once = Node::solve_once(&m).unwrap();
    assert_eq!(once, Some(all[0].clone()));
}

#[test]
fn empty_column_has_no_cover() {
    let m = vec![vec![true, false], vec![true, false]];
    assert_eq!(Node::solve_all(&m), Ok(vec![]));
    assert_eq!(Node::solve_once(&m), Ok(None));
}

#[test]
fn trivial_matrix() {
    let m = vec![vec![true]];
    assert_eq!(Node::solve_all(&m), Ok(vec![vec![0]]));
    assert_eq!(Node::solve_once(&m), Ok(Some(vec![0])));
}

#[test]
fn malformed_matrices_are_rejected() {
    let none: Vec<Vec<bool>> = vec![];
    assert_eq!(Node::solve_all(&none), Err(MatrixError::NoRows));
    assert_eq!(Node::solve_once(&vec![vec![]]), Err(MatrixError::NoColumns));
    assert_eq!(Node::solve_all(&vec![vec![true], vec![true, false]]), Err(MatrixError::Ragged));
    assert!(Node::build(&vec![vec![true, false], vec![true]]).is_err());
}

#[test]
fn rows_with_equal_cells_give_two_covers() {
    let m = vec![vec![true, true], vec![true, true], vec![false, true]];
    let sols = Node::solve_all(&m).unwrap();
    assert_eq!(sols, vec![vec![0], vec![1]]);
}

#[test]
fn build_lays_out_root_headers_and_nodes() {
    let m = vec![vec![true, false], vec![true, true]];
    let ns = Node::build(&m).unwrap();
    assert_eq!(ns.len(), 1 + 2 + 3);
    assert_eq!(ns[0].r, 1);
    assert_eq!(ns[0].l, 2);
    assert_eq!(ns[1].data, 2);
    assert_eq!(ns[2].data, 1);
    assert_eq!(ns[3].c, 1);
    assert_eq!(ns[3].data, 0);
    assert_eq!(ns[4].c, 1);
    assert_eq!(ns[5].c, 2);
    assert_eq!(ns[4].r, 5);
    assert_eq!(ns[5].r, 4);
    assert_eq!(ns[1].d, 3);
    assert_eq!(ns[1].u, 4);
}

#[test]
fn build_skips_empty_columns_in_header_row() {
    let ns = Node::build(&vec![vec![true, false, true]]).unwrap();
    assert_eq!(ns[1].r, 3);
    assert_eq!(ns[3].l, 1);
}

#[test]
fn new_node_points_at_itself() {
    let n = Node::new(7, 3);
    assert_eq!((n.u, n.d, n.l, n.r, n.c, n.data), (3, 3, 3, 3, 3, 7));
}

#[test]
fn smallest_column_is_chosen() {
    let ns = Node::build(&vec![vec![true, true], vec![false, true]]).unwrap();
    assert_eq!(Node::choose_column(&ns), Some(1));
    let ns = Node::build(&vec![vec![true, true], vec![true, false]]).unwrap();
    assert_eq!(Node::choose_column(&ns), Some(2));
}

#[test]
fn leftmost_column_wins_a_tie() {
    let ns = Node::build(&vec![vec![false, true, true]]).unwrap();
    assert_eq!(Node::choose_column(&ns), Some(2));
}

#[test]
fn no_column_to_choose_when_all_are_empty() {
    let ns = Node::build(&vec![vec![false]]).unwrap();
    assert_eq!(Node::choose_column(&ns), None);
}

#[test]
fn dominoes_on_three_by_two() {
    let game = Game2D::from_strings(3, 2, vec!["##", "##", "##"]).unwrap();
    let mat = game.get_matrix();
    let sols = Node::solve_all(&mat).unwrap();
    // three tilings, each with the three pieces in any of 3! orders
    assert_eq!(sols.len(), 18);
    for sol in &sols {
        assert!(is_exact_cover(&mat, sol));
    }
}

#[test]
fn tiling_uses_each_piece_once_and_fills_the_board() {
    let game = Game2D::from_strings(3, 2, vec!["##\n.#", "##", "#"]).unwrap();
    let mat = game.get_matrix();
    let sols = Node::solve_all(&mat).unwrap();
    assert!(!sols.is_empty());
    for sol in &sols {
        let mut area = 0;
        for p in 0..3 {
            assert_eq!(sol.iter().filter(|&&r| mat[r][p]).count(), 1);
        }
        for &r in sol {
            area += mat[r][3..].iter().filter(|&&b| b).count();
        }
        assert_eq!(area, 6);
        assert!(is_exact_cover(&mat, sol));
    }
    let once = Node::solve_once(&mat).unwrap();
    assert_eq!(once, Some(sols[0].clone()));
}

#[test]
fn solutions_are_distinct_as_sets() {
    let game = Game2D::from_strings(3, 2, vec!["##\n.#", "##", "#"]).unwrap();
    let sols = Node::solve_all(&game.get_matrix()).unwrap();
    let sets: Vec<Vec<usize>> = sols.iter().map(|s| sorted(s.clone())).collect();
    for i in 0..sets.len() {
        for j in (i + 1)..sets.len() {
            assert_ne!(sets[i], sets[j]);
        }
    }
}

#[test]
fn square_piece_has_one_orientation() {
    let game = Game2D::from_strings(4, 3, vec!["##\n##"]).unwrap();
    assert_eq!(game.blocks[0].get_transformations().len(), 1);
    assert_eq!(game.get_matrix().len(), 3 * 2);
}

#[test]
fn orientation_counts() {
    let l = Block2D::from_string("##\n.#").unwrap();
    assert_eq!(l.get_transformations().len(), 4);
    let d = Block2D::from_string("##").unwrap();
    assert_eq!(d.get_transformations().len(), 2);
    let s = Block2D::from_string("##.\n.##").unwrap();
    assert_eq!(s.get_transformations().len(), 4);
    let f = Block2D::from_string(".##\n##.\n.#.").unwrap();
    assert_eq!(f.get_transformations().len(), 8);
}

#[test]
fn rotate_turns_clockwise() {
    let mut b = Block2D::from_string("##\n.#\n.#").unwrap();
    b.rotate();
    assert_eq!((b.w, b.h), (3, 2));
    assert_eq!(b.data, vec![vec![false, false, true], vec![true, true, true]]);
}

#[test]
fn flip_reverses_rows() {
    let mut b = Block2D::from_string("##\n.#").unwrap();
    b.flip();
    assert_eq!(b.data, vec![vec![false, true], vec![true, true]]);
}

#[test]
fn piece_strings_are_trimmed() {
    let b = Block2D::from_string("  \n ##. \r\n\t.#x  \n").unwrap();
    assert_eq!((b.w, b.h), (3, 2));
    assert_eq!(b.data, vec![vec![true, true, false], vec![false, true, true]]);
}

#[test]
fn malformed_pieces_are_rejected() {
    assert_eq!(Block2D::from_string("  \n ").err(), Some(PieceError::Empty));
    assert_eq!(Block2D::from_string("#\n##").err(), Some(PieceError::Ragged));
    assert_eq!(Block2D::from_string("#\n\n#").err(), Some(PieceError::Ragged));
}

#[test]
fn bad_games_are_rejected() {
    assert_eq!(Game2D::from_strings(0, 2, vec!["#"]).err(), Some(TilingError::EmptyBoard));
    assert_eq!(Game2D::from_strings(2, 2, vec!["#", ""]).err(), Some(TilingError::EmptyPiece(1)));
    assert_eq!(Game2D::from_strings(2, 2, vec!["#\n##"]).err(), Some(TilingError::RaggedPiece(0)));
    assert_eq!(Game2D::from_strings(2, 2, vec!["###"]).err(), Some(TilingError::PieceTooLarge(0)));
    assert!(Game2D::from_strings(1, 3, vec!["###"]).is_ok());
}

#[test]
fn placement_rows_are_row_major() {
    let game = Game2D::from_strings(3, 2, vec!["#"]).unwrap();
    let m = game.get_matrix();
    assert_eq!(m.len(), 6);
    assert!(m.contains(&vec![true, false, false, false, false, true, false]));
    assert!(m.contains(&vec![true, true, false, false, false, false, false]));
}

#[test]
fn identity_block_is_prepended() {
    let m = Node::matrix_from_variations(2, &vec![1, 0], &vec![vec![true, false], vec![false, false]]);
    assert_eq!(m, vec![vec![false, true, true, false], vec![true, false, false, false]]);
}

#[test]
fn course_matrix_pairs_courses_and_slots() {
    let m = matrix_from_courses(&vec![vec![true, false], vec![true, true]]);
    assert_eq!(
        m,
        vec![
            vec![true, false, true, false],
            vec![false, true, true, false],
            vec![false, true, false, true],
        ]
    );
}

#[test]
fn course_matrix_is_solvable() {
    let m = matrix_from_courses(&vec![vec![true, true], vec![true, false]]);
    let sols = Node::solve_all(&m).unwrap();
    assert_eq!(sols.len(), 1);
    assert_eq!(sorted(sols[0].clone()), vec![1, 2]);
}
