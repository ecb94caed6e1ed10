use minesolver::cell::{same_coord, Cell, Content};
use minesolver::score::Score;
use std::cmp::Ordering;

#[test]
fn fresh_cell_has_no_opinion() {
    let cell = Cell::new();
    assert_eq!(cell.content, Content::Empty(0));
    assert!(cell.scores.is_empty());
    assert_eq!(cell.score, Score::NotEnough(0));
    let mine = Cell::from(Content::Mine);
    assert_eq!(mine.content, Content::Mine);
    assert!(mine.scores.is_empty());
    assert_eq!(mine.score, Score::NotEnough(0));
}

#[test]
fn single_opinion_is_not_enough() {
    let mut cell = Cell::new();
    cell.insert((0, 1), 50);
    assert_eq!(cell.score, Score::NotEnough(50));
    assert_eq!(cell.scores, vec![((0, 1), 50)]);
}

#[test]
fn two_opinions_are_averaged() {
    let mut cell = Cell::new();
    cell.insert((0, 1), 50);
    cell.insert((1, 1), 33);
    assert_eq!(cell.score, Score::Val(41));
    cell.insert((2, 1), 20);
    assert_eq!(cell.score, Score::Val(34));
}

#[test]
fn certain_mine_dominates_the_sum() {
    let mut cell = Cell::new();
    cell.insert((0, 1), 1000);
    assert_eq!(cell.score, Score::Mine);
    cell.insert((1, 1), 50);
    assert_eq!(cell.score, Score::Mine);
    let mut other = Cell::new();
    other.insert((0, 1), 50);
    other.insert((1, 1), 1000);
    other.insert((1, 2), 25);
    assert_eq!(other.score, Score::Mine);
}

#[test]
fn running_sum_of_exactly_thousand_is_pinned() {
    let mut cell = Cell::new();
    cell.insert((0, 0), 600);
    cell.insert((0, 1), 400);
    assert_eq!(cell.score, Score::Mine);
    cell.insert((0, 2), 10);
    assert_eq!(cell.score, Score::Mine);
    let mut over = Cell::new();
    over.insert((0, 0), 600);
    over.insert((0, 1), 500);
    assert_eq!(over.score, Score::Val(550));
}

#[test]
fn zero_opinion_is_sticky() {
    let mut cell = Cell::new();
    cell.insert((0, 1), 0);
    assert_eq!(cell.score, Score::Val(0));
    cell.insert((1, 1), 50);
    assert_eq!(cell.score, Score::Val(0));
    cell.insert((1, 2), 1000);
    assert_eq!(cell.score, Score::Val(0));
    let mut late = Cell::new();
    late.insert((0, 1), 1000);
    late.insert((1, 1), 0);
    assert_eq!(late.score, Score::Val(0));
}

#[test]
fn same_author_replaces_in_place() {
    let mut cell = Cell::new();
    cell.insert((0, 1), 50);
    cell.insert((1, 1), 33);
    cell.insert((0, 1), 20);
    assert_eq!(cell.scores, vec![((0, 1), 20), ((1, 1), 33)]);
    assert_eq!(cell.score, Score::Val(26));
    cell.insert((1, 1), 1000);
    assert_eq!(cell.scores, vec![((0, 1), 20), ((1, 1), 1000)]);
    assert_eq!(cell.score, Score::Mine);
}

#[test]
fn refresh_score_recomputes_from_the_notes() {
    let mut cell = Cell::new();
    cell.scores.push(((3, 3), 25));
    cell.scores.push(((3, 4), 50));
    cell.refresh_score();
    assert_eq!(cell.score, Score::Val(37));
    let mut empty = Cell::new();
    empty.score = Score::Mine;
    empty.refresh_score();
    assert_eq!(empty.score, Score::NotEnough(0));
}

#[test]
fn incr_counts_on_empty_cells_only() {
    let mut cell = Cell::new();
    cell.incr();
    cell.incr();
    assert_eq!(cell.content, Content::Empty(2));
    let mut mine = Cell::from(Content::Mine);
    mine.incr();
    assert_eq!(mine.content, Content::Mine);
}

#[test]
fn cell_text() {
    assert_eq!(Cell::from(Content::Mine).to_string(), "x");
    assert_eq!(Cell::from(Content::Empty(0)).to_string(), "0");
    assert_eq!(Cell::from(Content::Empty(7)).to_string(), "7");
}

#[test]
fn same_coord_compares_both_parts() {
    assert!(same_coord((1, 2), (1, 2)));
    assert!(!same_coord((1, 2), (2, 1)));
    assert!(!same_coord((1, 2), (1, 3)));
}

#[test]
fn mine_ranks_above_everything() {
    assert!(Score::Mine > Score::NotEnough(1000));
    assert!(Score::Mine > Score::Val(1000));
    assert_eq!(Score::Mine.partial_cmp(&Score::Mine), Some(Ordering::Equal));
    assert_eq!(Score::Val(3).partial_cmp(&Score::Mine), Some(Ordering::Less));
}

#[test]
fn not_enough_ranks_above_every_val() {
    assert!(Score::NotEnough(5) > Score::Val(99));
    assert!(Score::NotEnough(0) > Score::Val(2));
    assert_eq!(Score::Val(99).partial_cmp(&Score::NotEnough(0)), Some(Ordering::Less));
}

#[test]
fn same_class_compares_by_number() {
    assert!(Score::Val(2) < Score::Val(3));
    assert!(Score::NotEnough(12) > Score::NotEnough(5));
    assert_eq!(Score::Val(7).partial_cmp(&Score::Val(7)), Some(Ordering::Equal));
    assert_eq!(Score::NotEnough(7).partial_cmp(&Score::NotEnough(3)), Some(Ordering::Greater));
}

#[test]
fn rank_value_orders_as_the_scores_do() {
    assert_eq!(Score::Val(41).rank_value(), 41);
    assert_eq!(Score::NotEnough(50).rank_value(), 0x1_0000_0000 + 50);
    assert_eq!(Score::Mine.rank_value(), 0x2_0000_0000);
    assert!(Score::Mine.is_mine());
    assert!(!Score::Val(1000).is_mine());
}
