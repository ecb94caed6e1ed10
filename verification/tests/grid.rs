use minesolver::board::lay_mines;
use minesolver::cell::{Cell, Content};
use minesolver::coords::CoordSet;
use minesolver::grid::{dim, neighbours, neighbours_in};
use minesolver::score::Score;

#[test]
fn interior_has_eight_neighbours_in_order() {
    let n = neighbours_in(5, 5, (2, 2));
    assert_eq!(n, vec![(1, 2), (1, 1), (2, 1), (3, 1), (3, 2), (3, 3), (2, 3), (1, 3)]);
}

#[test]
fn corners_have_three_neighbours() {
    assert_eq!(neighbours_in(4, 6, (0, 0)), vec![(1, 0), (1, 1), (0, 1)]);
    assert_eq!(neighbours_in(4, 6, (0, 5)), vec![(0, 4), (1, 4), (1, 5)]);
    assert_eq!(neighbours_in(4, 6, (3, 0)), vec![(2, 0), (3, 1), (2, 1)]);
    assert_eq!(neighbours_in(4, 6, (3, 5)), vec![(2, 5), (2, 4), (3, 4)]);
}

#[test]
fn edges_have_five_neighbours() {
    assert_eq!(neighbours_in(4, 6, (0, 2)), vec![(0, 1), (1, 1), (1, 2), (1, 3), (0, 3)]);
    assert_eq!(neighbours_in(4, 6, (2, 0)).len(), 5);
    assert_eq!(neighbours_in(4, 6, (3, 3)).len(), 5);
    assert_eq!(neighbours_in(4, 6, (1, 5)).len(), 5);
}

#[test]
fn neighbours_are_on_the_grid_and_never_the_cell_itself() {
    for i in 0..4usize {
        for j in 0..5usize {
            let n = neighbours_in(4, 5, (i, j));
            for &(a, b) in n.iter() {
                assert!(a < 4 && b < 5);
                assert!((a, b) != (i, j));
                assert!(a + 1 >= i && i + 1 >= a && b + 1 >= j && j + 1 >= b);
            }
            let mut seen = n.clone();
            seen.sort();
            seen.dedup();
            assert_eq!(seen.len(), n.len());
            let border = i == 0 || i == 3 || j == 0 || j == 4;
            let corner = (i == 0 || i == 3) && (j == 0 || j == 4);
            let expected = if corner {
                3
            } else if border {
                5
            } else {
                8
            };
            assert_eq!(n.len(), expected);
        }
    }
}

#[test]
fn strip_and_single_cell() {
    assert_eq!(neighbours_in(1, 3, (0, 0)), vec![(0, 1)]);
    assert_eq!(neighbours_in(1, 3, (0, 1)), vec![(0, 0), (0, 2)]);
    assert_eq!(neighbours_in(1, 1, (0, 0)), vec![]);
    assert_eq!(neighbours_in(0, 0, (0, 0)), vec![]);
}

#[test]
fn position_off_the_grid_gets_the_grid_cells_that_touch_it() {
    assert_eq!(neighbours_in(3, 3, (3, 1)), vec![(2, 1), (2, 0), (2, 2)]);
    assert_eq!(neighbours_in(3, 3, (7, 7)), vec![]);
}

#[test]
fn neighbours_takes_its_bounds_from_the_board() {
    let board: Vec<Vec<Cell>> = lay_mines(2, 3, &vec![]);
    assert_eq!(dim(&board), (2, 3));
    assert_eq!(neighbours(&board, (1, 2)), vec![(0, 2), (0, 1), (1, 1)]);
    let empty: Vec<Vec<Cell>> = Vec::new();
    assert_eq!(dim(&empty), (0, 0));
    assert_eq!(neighbours(&empty, (0, 0)), vec![]);
}

#[test]
fn lay_mines_counts_adjacent_mines() {
    let board = lay_mines(3, 3, &vec![(0, 0)]);
    let counts: Vec<Vec<Content>> =
        board.iter().map(|row| row.iter().map(|c| c.content).collect()).collect();
    assert_eq!(
        counts,
        vec![
            vec![Content::Mine, Content::Empty(1), Content::Empty(0)],
            vec![Content::Empty(1), Content::Empty(1), Content::Empty(0)],
            vec![Content::Empty(0), Content::Empty(0), Content::Empty(0)],
        ]
    );
    for row in board.iter() {
        for cell in row.iter() {
            assert!(cell.scores.is_empty());
            assert_eq!(cell.score, Score::NotEnough(0));
        }
    }
}

#[test]
fn lay_mines_with_neighbouring_and_repeated_mines() {
    let board = lay_mines(3, 4, &vec![(0, 1), (1, 1), (0, 1), (2, 3)]);
    let counts: Vec<Vec<Content>> =
        board.iter().map(|row| row.iter().map(|c| c.content).collect()).collect();
    assert_eq!(
        counts,
        vec![
            vec![Content::Empty(2), Content::Mine, Content::Empty(2), Content::Empty(0)],
            vec![Content::Empty(2), Content::Mine, Content::Empty(3), Content::Empty(1)],
            vec![Content::Empty(1), Content::Empty(1), Content::Empty(2), Content::Mine],
        ]
    );
}

#[test]
fn coord_set_insert_remove_contains() {
    let mut s = CoordSet::new(3, 4);
    assert!(s.is_empty());
    assert_eq!(s.len(), 0);
    assert_eq!(s.first(), None);
    s.insert((2, 1));
    s.insert((0, 3));
    s.insert((2, 1));
    assert!(s.contains((2, 1)));
    assert!(s.contains((0, 3)));
    assert!(!s.contains((1, 1)));
    assert!(!s.contains((5, 5)));
    assert_eq!(s.len(), 2);
    assert_eq!(s.first(), Some((0, 3)));
    assert_eq!(s.to_vec(), vec![(0, 3), (2, 1)]);
    s.remove((0, 3));
    s.remove((9, 9));
    assert!(!s.contains((0, 3)));
    assert_eq!(s.to_vec(), vec![(2, 1)]);
    assert!(!s.is_empty());
}

#[test]
fn full_coord_set_holds_the_whole_grid() {
    let s = CoordSet::full(2, 3);
    assert_eq!(s.len(), 6);
    assert_eq!(s.to_vec(), vec![(0, 0), (0, 1), (0, 2), (1, 0), (1, 1), (1, 2)]);
    assert!(!s.contains((2, 0)));
    assert!(!s.contains((0, 3)));
}
