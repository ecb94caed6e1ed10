use minesolver::cell::Content;
use minesolver::env::{contribution, Env};
use minesolver::render::Glyph;
use minesolver::score::Score;
use minesolver::setup::{draw_mines, room_for_mines};

type Coord = (usize, usize);

fn all_cells(h: usize, w: usize) -> Vec<Coord> {
    let mut v = Vec::new();
    for i in 0..h {
        for j in 0..w {
            v.push((i, j));
        }
    }
    v
}

fn rank(env: &Env, c: Coord) -> i64 {
    env.get(c).score.rank_value()
}

/// Checks what must hold between operations; `in_hand` is the position
/// that was taken from the frontier and not opened yet, if any.
fn check_invariants(env: &Env, h: usize, w: usize, in_hand: Option<Coord>) {
    for c in all_cells(h, w) {
        let o = env.opened.contains(c);
        let m = env.marked.contains(c);
        let l = env.left.contains(c);
        let f = env.stack.contains(&c);
        assert!(!(o && m) && !(o && l) && !(m && l), "overlap at {:?}", c);
        assert!(!(f && (o || m)), "frontier holds a decided cell {:?}", c);
        assert_eq!(f, env.stacked.contains(c));
        assert!(o || m || l || f || in_hand == Some(c), "lost track of {:?}", c);
        if o {
            assert!(env.get(c).content != Content::Mine);
        }
    }
    let mut seen = env.stack.clone();
    seen.sort();
    seen.dedup();
    assert_eq!(seen.len(), env.stack.len());
}

fn is_descending(env: &Env) -> bool {
    env.stack.windows(2).all(|p| rank(env, p[0]) >= rank(env, p[1]))
}

#[test]
fn contribution_formula() {
    assert_eq!(contribution(3, 3), 1000);
    assert_eq!(contribution(2, 5), 1000);
    assert_eq!(contribution(0, 0), 1000);
    assert_eq!(contribution(5, 0), 0);
    assert_eq!(contribution(2, 1), 50);
    assert_eq!(contribution(3, 1), 33);
    assert_eq!(contribution(3, 2), 66);
    assert_eq!(contribution(8, 3), 36);
    assert_eq!(contribution(7, 2), 28);
    assert_eq!(contribution(8, 7), 84);
    assert_eq!(contribution(6, 1), 16);
}

#[test]
fn start_of_play() {
    let env = Env::with_mines(3, 4, &vec![(0, 0)]);
    assert_eq!(env.stack, vec![(2, 3)]);
    assert!(env.stacked.contains((2, 3)));
    assert!(env.opened.is_empty());
    assert!(env.marked.is_empty());
    assert_eq!(env.left.len(), 11);
    assert!(!env.left.contains((2, 3)));
    assert_eq!(env.m.len(), 3);
    assert_eq!(env.m[0].len(), 4);
    check_invariants(&env, 3, 4, None);
}

#[test]
fn open_on_a_mine_changes_nothing() {
    let mut env = Env::with_mines(3, 3, &vec![(0, 0), (2, 2)]);
    let c = env.pop();
    assert_eq!(c, Some((2, 2)));
    let stack = env.stack.clone();
    let left = env.left.to_vec();
    assert!(env.open((2, 2)).is_err());
    assert_eq!(env.stack, stack);
    assert_eq!(env.left.to_vec(), left);
    assert!(env.opened.is_empty());
    assert!(env.marked.is_empty());
    assert!(!env.stacked.contains((2, 2)));
    for c in all_cells(3, 3) {
        assert!(env.get(c).scores.is_empty());
        assert_eq!(env.get(c).score, Score::NotEnough(0));
    }
}

#[test]
fn mine_free_strip_opens_from_one_end() {
    let mut env = Env::with_mines(1, 3, &vec![]);
    assert_eq!(env.pop(), Some((0, 2)));
    assert!(env.open((0, 2)).is_ok());
    assert_eq!(env.opened.to_vec(), vec![(0, 0), (0, 1), (0, 2)]);
    assert!(env.left.is_empty());
    assert!(env.stack.is_empty());
    assert!(env.marked.is_empty());
    for c in all_cells(1, 3) {
        assert!(env.get(c).scores.is_empty());
        assert_eq!(env.get(c).score, Score::NotEnough(0));
    }
    assert_eq!(env.pop(), None);
    check_invariants(&env, 1, 3, None);
}

#[test]
fn three_by_three_with_one_mine_is_won() {
    let mut env = Env::with_mines(3, 3, &vec![(0, 0)]);
    assert_eq!(env.pop(), Some((2, 2)));
    check_invariants(&env, 3, 3, Some((2, 2)));
    assert!(env.open((2, 2)).is_ok());
    check_invariants(&env, 3, 3, None);
    assert_eq!(
        env.opened.to_vec(),
        vec![(0, 1), (0, 2), (1, 0), (1, 1), (1, 2), (2, 0), (2, 1), (2, 2)]
    );
    assert_eq!(env.get((0, 0)).scores, vec![((0, 1), 1000), ((1, 0), 1000), ((1, 1), 1000)]);
    assert_eq!(env.get((0, 0)).score, Score::Mine);
    assert_eq!(env.stack, vec![(0, 0)]);
    assert_eq!(env.left.to_vec(), vec![(0, 0)]);
    assert_eq!(env.mark_obvious(), 1);
    check_invariants(&env, 3, 3, None);
    assert_eq!(env.marked.to_vec(), vec![(0, 0)]);
    assert!(env.left.is_empty());
    assert!(env.stack.is_empty());
    assert_eq!(env.mark_obvious(), 0);
    assert_eq!(env.pop(), None);
}

#[test]
fn play_game_wins_three_by_three() {
    let mut env = Env::with_mines(3, 3, &vec![(0, 0)]);
    let r = env.play_game();
    assert_eq!(r.ok(), Some(1));
    assert_eq!(env.marked.to_vec(), vec![(0, 0)]);
    assert!(env.left.is_empty());
    assert!(env.stack.is_empty());
    assert_eq!(env.opened.len(), 8);
}

#[test]
fn two_by_three_step_by_step() {
    let mut env = Env::with_mines(2, 3, &vec![(0, 0)]);
    assert_eq!(env.pop(), Some((1, 2)));
    assert!(env.open((1, 2)).is_ok());
    assert_eq!(env.opened.to_vec(), vec![(0, 1), (0, 2), (1, 1), (1, 2)]);
    assert_eq!(env.left.to_vec(), vec![(0, 0), (1, 0)]);
    assert_eq!(env.get((0, 0)).scores, vec![((0, 1), 50), ((1, 1), 50)]);
    assert_eq!(env.get((1, 0)).scores, vec![((0, 1), 50), ((1, 1), 50)]);
    assert_eq!(env.get((0, 0)).score, Score::Val(50));
    assert_eq!(env.get((1, 0)).score, Score::Val(50));
    assert_eq!(env.stack, vec![(0, 0), (1, 0)]);
    assert_eq!(env.mark_obvious(), 0);
    assert_eq!(env.stack, vec![(0, 0), (1, 0)]);
    check_invariants(&env, 2, 3, None);

    assert_eq!(env.pop(), Some((1, 0)));
    assert_eq!(env.left.to_vec(), vec![(0, 0)]);
    assert!(env.open((1, 0)).is_ok());
    assert_eq!(
        env.get((0, 0)).scores,
        vec![((0, 1), 1000), ((1, 1), 1000), ((1, 0), 1000)]
    );
    assert_eq!(env.get((0, 0)).score, Score::Mine);
    assert_eq!(env.stack, vec![(0, 0)]);
    assert_eq!(env.mark_obvious(), 1);
    assert_eq!(env.marked.to_vec(), vec![(0, 0)]);
    assert!(env.left.is_empty());
    assert!(env.stack.is_empty());
    check_invariants(&env, 2, 3, None);
}

#[test]
fn play_game_counts_turns() {
    let mut env = Env::with_mines(2, 3, &vec![(0, 0)]);
    assert_eq!(env.play_game().ok(), Some(2));
    assert_eq!(env.opened.len(), 5);
    assert_eq!(env.marked.to_vec(), vec![(0, 0)]);
}

#[test]
fn play_game_reports_the_mine_it_opened() {
    let mut env = Env::with_mines(2, 3, &vec![(1, 0)]);
    let defeat = env.play_game().err().unwrap();
    assert_eq!(defeat.turns, 2);
    assert_eq!(defeat.at, (1, 0));
    assert!(!env.opened.contains((1, 0)));
    assert!(!env.marked.contains((1, 0)));

    let mut at_start = Env::with_mines(2, 2, &vec![(1, 1)]);
    let defeat = at_start.play_game().err().unwrap();
    assert_eq!(defeat.turns, 1);
    assert_eq!(defeat.at, (1, 1));
    assert!(at_start.opened.is_empty());
}

#[test]
fn mark_flags_and_refreshes_the_neighbours() {
    let mut env = Env::with_mines(2, 3, &vec![(0, 0)]);
    assert_eq!(env.pop(), Some((1, 2)));
    assert!(env.open((1, 2)).is_ok());
    env.mark((0, 0));
    assert_eq!(env.marked.to_vec(), vec![(0, 0)]);
    assert_eq!(env.left.to_vec(), vec![(1, 0)]);
    assert_eq!(env.stack, vec![(1, 0)]);
    assert!(!env.stacked.contains((0, 0)));
    assert_eq!(env.get((1, 0)).scores, vec![((0, 1), 0), ((1, 1), 0)]);
    assert_eq!(env.get((1, 0)).score, Score::Val(0));
    assert_eq!(env.get((0, 0)).scores, vec![((0, 1), 50), ((1, 1), 50)]);
    check_invariants(&env, 2, 3, None);
    assert!(env.settle().is_ok());
    assert_eq!(env.opened.len(), 5);
    assert!(env.left.is_empty());
    assert!(env.stack.is_empty());
}

#[test]
fn update_neighbours_score_writes_to_covered_neighbours() {
    let mut env = Env::with_mines(3, 3, &vec![(0, 0), (0, 2)]);
    env.update_neighbours_score((1, 1));
    for c in [(0, 0), (0, 1), (0, 2), (1, 0), (1, 2), (2, 0), (2, 1), (2, 2)] {
        assert_eq!(env.get(c).scores, vec![((1, 1), 24)]);
        assert_eq!(env.get(c).score, Score::NotEnough(24));
    }
    assert!(env.get((1, 1)).scores.is_empty());
    assert_eq!(
        env.stack,
        vec![(2, 2), (0, 1), (0, 0), (1, 0), (2, 0), (2, 1), (1, 2), (0, 2)]
    );
    env.sort();
    assert_eq!(
        env.stack,
        vec![(2, 2), (0, 1), (0, 0), (1, 0), (2, 0), (2, 1), (1, 2), (0, 2)]
    );
    env.update_neighbours_score((2, 1));
    for c in [(1, 0), (1, 2), (2, 0), (2, 2)] {
        assert_eq!(env.get(c).scores, vec![((1, 1), 24), ((2, 1), 0)]);
        assert_eq!(env.get(c).score, Score::Val(0));
    }
    assert_eq!(env.get((1, 1)).scores, vec![((2, 1), 0)]);
    assert_eq!(env.get((1, 1)).score, Score::Val(0));
    assert_eq!(
        env.stack,
        vec![(2, 2), (0, 1), (0, 0), (1, 0), (2, 0), (2, 1), (1, 2), (0, 2), (1, 1)]
    );
    env.sort();
    assert_eq!(
        env.stack,
        vec![(0, 1), (0, 0), (2, 1), (0, 2), (2, 2), (1, 0), (2, 0), (1, 2), (1, 1)]
    );
}

#[test]
fn over_flagged_cell_counts_no_remaining_mine() {
    let mut env = Env::with_mines(2, 3, &vec![(0, 0)]);
    assert_eq!(env.pop(), Some((1, 2)));
    assert!(env.open((1, 2)).is_ok());
    env.mark((0, 0));
    env.mark((1, 0));
    assert_eq!(env.marked.to_vec(), vec![(0, 0), (1, 0)]);
    assert!(env.left.is_empty());
    assert!(env.stack.is_empty());
    assert_eq!(env.get((1, 0)).scores, vec![((0, 1), 0), ((1, 1), 0)]);
    check_invariants(&env, 2, 3, None);
}

#[test]
fn sort_is_stable_and_idempotent() {
    let mines = vec![(0, 0), (0, 4), (2, 2), (4, 0)];
    let mut env = Env::with_mines(6, 6, &mines);
    assert_eq!(env.pop(), Some((5, 5)));
    assert!(env.open((5, 5)).is_ok());
    assert!(is_descending(&env));
    let once = env.stack.clone();
    env.sort();
    assert_eq!(env.stack, once);
    env.sort();
    assert_eq!(env.stack, once);

    let mut shuffled = once.clone();
    shuffled.reverse();
    env.stack = shuffled.clone();
    env.sort();
    assert!(is_descending(&env));
    let first = env.stack.clone();
    env.sort();
    assert_eq!(env.stack, first);
    let mut expected = shuffled.clone();
    expected.sort_by(|a, b| rank(&env, *b).cmp(&rank(&env, *a)));
    assert_eq!(first, expected);
}

#[test]
fn flood_opens_the_zero_region_and_its_border() {
    let mines = vec![(0, 0), (0, 4), (2, 2), (4, 0)];
    let (h, w) = (6usize, 6usize);
    let mut env = Env::with_mines(h, w, &mines);
    assert_eq!(env.pop(), Some((5, 5)));
    assert!(env.open((5, 5)).is_ok());

    let mut region = vec![(5usize, 5usize)];
    let mut work = vec![(5usize, 5usize)];
    while let Some(p) = work.pop() {
        if env.get(p).content != Content::Empty(0) {
            continue;
        }
        for i in p.0.saturating_sub(1)..=(p.0 + 1).min(h - 1) {
            for j in p.1.saturating_sub(1)..=(p.1 + 1).min(w - 1) {
                if env.get((i, j)).content != Content::Mine && !region.contains(&(i, j)) {
                    region.push((i, j));
                    work.push((i, j));
                }
            }
        }
    }
    region.sort();
    assert_eq!(env.opened.to_vec(), region);
    assert!(region.len() > 1);
    for c in mines.iter() {
        assert!(!env.opened.contains(*c));
    }
    for c in all_cells(h, w) {
        if env.opened.contains(c) {
            assert!(!env.left.contains(c));
            assert!(!env.stack.contains(&c));
            if env.get(c).content == Content::Empty(0) {
                for i in c.0.saturating_sub(1)..=(c.0 + 1).min(h - 1) {
                    for j in c.1.saturating_sub(1)..=(c.1 + 1).min(w - 1) {
                        assert!(env.opened.contains((i, j)));
                    }
                }
            }
        }
    }
    check_invariants(&env, h, w, None);
}

#[test]
fn scores_follow_the_opened_neighbours() {
    let mines = vec![(0, 0), (0, 4), (2, 2), (4, 0)];
    let (h, w) = (6usize, 6usize);
    let mut env = Env::with_mines(h, w, &mines);
    assert_eq!(env.pop(), Some((5, 5)));
    assert!(env.open((5, 5)).is_ok());
    for c in all_cells(h, w) {
        if env.opened.contains(c) || env.marked.contains(c) {
            continue;
        }
        let mut expected = Vec::new();
        for k in all_cells(h, w) {
            let near = k != c && k.0 + 1 >= c.0 && c.0 + 1 >= k.0 && k.1 + 1 >= c.1 && c.1 + 1 >= k.1;
            if !near || !env.opened.contains(k) {
                continue;
            }
            let mut covered = 0usize;
            for d in all_cells(h, w) {
                let touches =
                    d != k && d.0 + 1 >= k.0 && k.0 + 1 >= d.0 && d.1 + 1 >= k.1 && k.1 + 1 >= d.1;
                if touches && !env.opened.contains(d) && !env.marked.contains(d) {
                    covered += 1;
                }
            }
            let count = match env.get(k).content {
                Content::Empty(n) => n as usize,
                Content::Mine => 0,
            };
            expected.push((k, contribution(covered, count)));
        }
        let mut got = env.get(c).scores.clone();
        got.sort();
        expected.sort();
        assert_eq!(got, expected, "notes of {:?}", c);
        assert_eq!(env.stack.contains(&c), !expected.is_empty());
    }
}

#[test]
fn mark_obvious_drains_every_certain_mine() {
    let mines = vec![(0, 0), (0, 4), (2, 2), (4, 0)];
    let (h, w) = (6usize, 6usize);
    let mut env = Env::with_mines(h, w, &mines);
    assert_eq!(env.pop(), Some((5, 5)));
    assert!(env.open((5, 5)).is_ok());
    let sure: Vec<Coord> =
        env.stack.iter().copied().filter(|c| env.get(*c).score == Score::Mine).collect();
    let n = env.mark_obvious();
    assert_eq!(n, sure.len());
    for c in sure.iter() {
        assert!(env.marked.contains(*c));
        assert!(!env.stack.contains(c));
        assert!(!env.left.contains(*c));
        assert_eq!(env.get(*c).content, Content::Mine);
    }
    check_invariants(&env, h, w, None);
    while env.mark_obvious() != 0 {}
    assert_eq!(env.mark_obvious(), 0);
    for c in env.stack.iter() {
        assert!(env.get(*c).score != Score::Mine);
    }
    assert!(is_descending(&env));
    check_invariants(&env, h, w, None);
}

#[test]
fn invariants_hold_through_a_whole_game() {
    let mines = vec![(0, 0), (0, 4), (2, 2), (4, 0), (1, 6), (6, 3), (3, 7)];
    let (h, w) = (8usize, 8usize);
    let mut env = Env::with_mines(h, w, &mines);
    let mut lost = false;
    let mut turns = 0;
    loop {
        let next = match env.pop() {
            Some(c) => Some(c),
            None => match env.reseed() {
                None => None,
                Some(c) => {
                    assert_eq!(env.stack, vec![c]);
                    check_invariants(&env, h, w, None);
                    env.pop()
                }
            },
        };
        let c = match next {
            None => break,
            Some(c) => c,
        };
        turns += 1;
        check_invariants(&env, h, w, Some(c));
        if env.open(c).is_err() {
            assert!(mines.contains(&c));
            lost = true;
            break;
        }
        check_invariants(&env, h, w, None);
        assert!(is_descending(&env));
        assert!(env.settle().is_ok());
        for c in env.marked.to_vec() {
            assert!(mines.contains(&c));
        }
        check_invariants(&env, h, w, None);
        assert!(is_descending(&env));
        for c in env.stack.iter() {
            assert!(env.get(*c).score != Score::Mine);
        }
    }
    let mut again = Env::with_mines(h, w, &mines);
    match again.play_game() {
        Ok(t) => {
            assert!(!lost);
            assert_eq!(t, turns);
            assert!(again.left.is_empty());
            assert!(again.stack.is_empty());
            assert_eq!(again.opened.len() + again.marked.len(), h * w);
        }
        Err(d) => {
            assert!(lost);
            assert_eq!(d.turns, turns);
            assert!(mines.contains(&d.at));
        }
    }
    assert_eq!(again.opened.to_vec(), env.opened.to_vec());
    assert_eq!(again.marked.to_vec(), env.marked.to_vec());
}

#[test]
fn fixed_layout_gives_the_same_game_every_time() {
    let mines = vec![(0, 0), (0, 4), (2, 2), (4, 0), (1, 6), (6, 3), (3, 7), (7, 0), (5, 1)];
    let (h, w) = (8usize, 8usize);
    let mut first = Env::with_mines(h, w, &mines);
    let outcome = first.play_game().map_err(|d| (d.turns, d.at));
    for _ in 0..20 {
        let mut env = Env::with_mines(h, w, &mines);
        assert_eq!(env.play_game().map_err(|d| (d.turns, d.at)), outcome);
        assert_eq!(env.opened.to_vec(), first.opened.to_vec());
        assert_eq!(env.marked.to_vec(), first.marked.to_vec());
        assert_eq!(env.left.to_vec(), first.left.to_vec());
        assert_eq!(env.stack, first.stack);
        for c in all_cells(h, w) {
            assert_eq!(env.get(c).scores, first.get(c).scores);
            assert_eq!(env.get(c).score, first.get(c).score);
        }
    }
}

#[test]
fn reseed_takes_the_first_position_left() {
    let mut env = Env::with_mines(3, 3, &vec![(1, 1)]);
    assert_eq!(env.pop(), Some((2, 2)));
    assert_eq!(env.reseed(), Some((0, 0)));
    assert_eq!(env.stack, vec![(0, 0)]);
    assert!(env.stacked.contains((0, 0)));
    assert!(env.left.contains((0, 0)));
    assert_eq!(env.pop(), Some((0, 0)));
    assert!(!env.left.contains((0, 0)));
    assert_eq!(env.reseed(), Some((0, 1)));
}

#[test]
fn glyphs_of_a_board() {
    let mut env = Env::with_mines(2, 3, &vec![(0, 0)]);
    assert_eq!(env.glyph((0, 0)), Glyph::Unknown);
    assert_eq!(env.pop(), Some((1, 2)));
    assert!(env.open((1, 2)).is_ok());
    assert_eq!(env.glyph((1, 2)), Glyph::Blank);
    assert_eq!(env.glyph((0, 1)), Glyph::Count(1));
    assert_eq!(env.glyph((0, 0)), Glyph::Risk(50, true));
    assert_eq!(env.glyph((1, 0)), Glyph::Risk(50, false));
    assert_eq!(env.pop(), Some((1, 0)));
    assert!(env.open((1, 0)).is_ok());
    assert_eq!(env.glyph((0, 0)), Glyph::Sure);
    assert_eq!(env.mark_obvious(), 1);
    assert_eq!(env.glyph((0, 0)), Glyph::Flag);
}

#[test]
fn random_board_has_the_mines_asked_for() {
    let env = Env::new(16, 16, 40);
    let mut mines = 0;
    for c in all_cells(16, 16) {
        if env.get(c).content == Content::Mine {
            mines += 1;
        }
    }
    assert_eq!(mines, 40);
    for c in [(15, 15), (14, 15), (15, 14), (14, 14)] {
        assert!(env.get(c).content != Content::Mine);
    }
    assert_eq!(env.get((15, 15)).content, Content::Empty(0));
    assert_eq!(env.stack, vec![(15, 15)]);
    assert_eq!(env.left.len(), 255);
    check_invariants(&env, 16, 16, None);
    let full = Env::new(4, 4, 12);
    for c in all_cells(4, 4) {
        let safe = c.0 >= 2 && c.1 >= 2;
        assert_eq!(full.get(c).content == Content::Mine, !safe);
    }
}

#[test]
fn drawn_mines_are_distinct_candidates_in_random_order() {
    let mines = draw_mines(16, 16, 40);
    assert_eq!(mines.len(), 40);
    let mut seen = mines.clone();
    seen.sort();
    seen.dedup();
    assert_eq!(seen.len(), 40);
    for c in mines.iter() {
        assert!(c.0 < 16 && c.1 < 16);
        assert!(!(c.0 >= 14 && c.1 >= 14));
    }
    let in_order: Vec<Coord> = all_cells(16, 16).into_iter().take(40).collect();
    assert_ne!(mines, in_order);
    let all = draw_mines(3, 3, 5);
    let mut sorted = all.clone();
    sorted.sort();
    assert_eq!(sorted, vec![(0, 0), (0, 1), (0, 2), (1, 0), (2, 0)]);
}

#[test]
fn random_games_end_won_or_on_a_mine() {
    for _ in 0..30 {
        let mut env = Env::new(9, 9, 10);
        match env.play_game() {
            Ok(turns) => {
                assert!(turns >= 1);
                check_invariants(&env, 9, 9, None);
                assert!(env.left.is_empty());
                assert!(env.stack.is_empty());
                assert_eq!(env.opened.len() + env.marked.len(), 81);
                assert_eq!(env.marked.len(), 10);
                for c in env.marked.to_vec() {
                    assert_eq!(env.get(c).content, Content::Mine);
                }
            }
            Err(d) => {
                assert!(d.turns >= 1);
                assert_eq!(env.get(d.at).content, Content::Mine);
                assert!(!env.opened.contains(d.at));
                assert!(!env.marked.contains(d.at));
                check_invariants(&env, 9, 9, Some(d.at));
                for c in env.marked.to_vec() {
                    assert_eq!(env.get(c).content, Content::Mine);
                }
            }
        }
    }
}

#[test]
fn room_for_mines_leaves_the_safe_zone_out() {
    assert_eq!(room_for_mines(16, 16), Some(252));
    assert_eq!(room_for_mines(3, 3), Some(5));
    assert_eq!(room_for_mines(1, 3), Some(1));
    assert_eq!(room_for_mines(5, 1), Some(3));
    assert_eq!(room_for_mines(1, 1), Some(0));
    assert_eq!(room_for_mines(2, 2), Some(0));
    assert_eq!(room_for_mines(0, 4), None);
    assert_eq!(room_for_mines(4, 0), None);
    assert_eq!(room_for_mines(usize::MAX, 2), None);
}

#[test]
fn try_new_refuses_what_the_board_cannot_host() {
    assert!(Env::try_new(0, 5, 0).is_none());
    assert!(Env::try_new(5, 0, 0).is_none());
    assert!(Env::try_new(3, 3, 6).is_none());
    assert!(Env::try_new(2, 2, 1).is_none());
    let env = Env::try_new(3, 3, 5).unwrap();
    let mut mines = 0;
    for c in all_cells(3, 3) {
        if env.get(c).content == Content::Mine {
            mines += 1;
        }
    }
    assert_eq!(mines, 5);
    assert!(Env::try_new(1, 1, 0).is_some());
}

#[test]
fn try_with_mines_checks_the_layout() {
    assert!(Env::try_with_mines(0, 3, &vec![]).is_none());
    assert!(Env::try_with_mines(3, 0, &vec![]).is_none());
    assert!(Env::try_with_mines(3, 3, &vec![(0, 0), (3, 1)]).is_none());
    assert!(Env::try_with_mines(3, 3, &vec![(0, 3)]).is_none());
    let mut env = Env::try_with_mines(3, 3, &vec![(0, 0)]).unwrap();
    assert_eq!(env.stack, vec![(2, 2)]);
    assert!(!env.is_done());
    assert_eq!(env.play_game().ok(), Some(1));
    assert!(env.is_done());
}
