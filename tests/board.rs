use minesweeper::board::{Board, MineState};
use minesweeper::game::{command_of_key, mine_layout, CellView, Command, GameStatus};

fn layout(width: usize, height: usize, mines: &[(usize, usize)]) -> Board {
    let mut cells = vec![false; width * height];
    for &(x, y) in mines {
        cells[y * width + x] = true;
    }
    Board::new(width, height, &cells)
}

fn state(b: &Board, x: usize, y: usize) -> MineState {
    b.get(x, y).state
}

fn uncovered_cells(b: &Board) -> usize {
    b.board.iter().filter(|c| c.state == MineState::Uncovered).count()
}

fn mines(b: &Board) -> usize {
    b.board.iter().filter(|c| c.is_mine).count()
}

#[test]
fn corner_next_to_mine_does_not_cascade() {
    let mut b = layout(3, 3, &[(1, 1)]);
    b.uncover(0, 0);
    assert_eq!(b.neighbours(0, 0), 1);
    assert_eq!(state(&b, 0, 0), MineState::Uncovered);
    assert_eq!(uncovered_cells(&b), 1);
    assert!(b.alive);
}

#[test]
fn far_corner_next_to_mine_does_not_cascade() {
    let mut b = layout(3, 3, &[(1, 1)]);
    b.uncover(2, 2);
    assert_eq!(b.neighbours(2, 2), 1);
    assert_eq!(uncovered_cells(&b), 1);
    assert_eq!(b.cell_view(2, 2), CellView::Count(1));
}

#[test]
fn corner_away_from_mine_cascades() {
    let mut b = layout(3, 3, &[(2, 2)]);
    b.uncover(0, 0);
    for y in 0..3 {
        for x in 0..3 {
            let expected = if (x, y) == (2, 2) { MineState::Covered } else { MineState::Uncovered };
            assert_eq!(state(&b, x, y), expected, "cell ({}, {})", x, y);
        }
    }
    assert_eq!(b.cell_view(1, 1), CellView::Count(1));
    assert_eq!(b.cell_view(0, 0), CellView::Count(0));
    assert!(b.won);
    assert!(b.alive);
    assert_eq!(b.status(), GameStatus::Won);
}

#[test]
fn cascade_stops_at_flag_and_unflags_it() {
    // A column of mines at x == 3 leaves a zero region at x <= 1.
    let mut b = layout(5, 3, &[(3, 0), (3, 1), (3, 2)]);
    b.toggle_flag(0, 2);
    b.uncover(0, 0);
    assert_eq!(state(&b, 0, 0), MineState::Uncovered);
    assert_eq!(state(&b, 1, 1), MineState::Uncovered);
    assert_eq!(state(&b, 2, 1), MineState::Uncovered);
    // Reached once from (0, 1) and once from (1, 1): unflagged, then uncovered.
    assert_eq!(state(&b, 0, 2), MineState::Uncovered);
    assert_eq!(state(&b, 4, 0), MineState::Covered);
    assert_eq!(state(&b, 3, 1), MineState::Covered);
}

#[test]
fn flag_reached_once_is_only_unflagged() {
    let mut b = layout(4, 1, &[(3, 0)]);
    b.toggle_flag(1, 0);
    b.uncover(0, 0);
    assert_eq!(state(&b, 0, 0), MineState::Uncovered);
    assert_eq!(state(&b, 1, 0), MineState::Covered);
    assert_eq!(state(&b, 2, 0), MineState::Covered);
    assert_eq!(b.uncovered_squares, 2);
}

#[test]
fn uncovering_a_flag_unflags_it() {
    let mut b = layout(3, 3, &[(1, 1)]);
    b.toggle_flag(0, 0);
    assert_eq!(state(&b, 0, 0), MineState::Flagged);
    let before = b.uncovered_squares;
    b.uncover(0, 0);
    assert_eq!(state(&b, 0, 0), MineState::Covered);
    assert_eq!(b.uncovered_squares, before);
    assert!(b.alive);
    assert!(!b.won);
    assert!(!b.started);
}

#[test]
fn first_uncover_on_mine_clears_it() {
    let mut b = layout(3, 3, &[(0, 0), (2, 2)]);
    assert_eq!(b.uncovered_squares, 2);
    b.uncover(0, 0);
    assert!(!b.get(0, 0).is_mine);
    assert!(b.alive);
    assert!(b.started);
    assert_eq!(mines(&b), 1);
    assert_eq!(state(&b, 0, 0), MineState::Uncovered);
}

#[test]
fn uncovering_every_safe_cell_wins() {
    let mut b = layout(3, 1, &[(1, 0)]);
    b.uncover(0, 0);
    assert!(!b.won);
    b.uncover(2, 0);
    assert!(b.won);
    assert!(b.alive);
    assert_eq!(b.uncovered_squares, 3);
    assert_eq!(b.status(), GameStatus::Won);
}

#[test]
fn uncovering_a_mine_loses_and_reveals() {
    let mut b = layout(3, 3, &[(0, 0), (2, 2), (2, 0)]);
    b.uncover(1, 1);
    assert!(b.alive);
    b.toggle_flag(2, 2);
    b.toggle_flag(0, 2);
    b.uncover(0, 0);
    assert!(!b.alive);
    assert_eq!(b.status(), GameStatus::Lost);
    for y in 0..3 {
        for x in 0..3 {
            let expected = if (x, y) == (2, 2) { MineState::Flagged } else { MineState::Uncovered };
            assert_eq!(state(&b, x, y), expected, "cell ({}, {})", x, y);
        }
    }
    assert_eq!(b.cell_view(0, 0), CellView::Mine);
    assert_eq!(b.cell_view(2, 2), CellView::Flagged);
}

#[test]
fn finished_game_takes_no_commands() {
    let mut b = layout(2, 1, &[(1, 0)]);
    b.uncover(0, 0);
    assert!(b.won);
    let before = b.uncovered_squares;
    b.uncover(1, 0);
    b.toggle_flag(1, 0);
    assert!(b.apply(Command::Right));
    assert_eq!(b.cursor(), (0, 0));
    assert_eq!(state(&b, 1, 0), MineState::Covered);
    assert_eq!(b.uncovered_squares, before);
}

#[test]
fn revealed_count_never_drops() {
    let mut b = layout(4, 4, &[(0, 0), (3, 3), (1, 2)]);
    let keys = [32u8, 100, 102, 32, 32, 115, 115, 32, 100, 100, 32, 97, 119, 32, 104, 32];
    let mut last = b.uncovered_squares;
    for &k in keys.iter() {
        b.apply(command_of_key(k));
        assert!(b.uncovered_squares >= last);
        last = b.uncovered_squares;
    }
}

#[test]
fn keys_map_to_commands() {
    assert_eq!(command_of_key(3), Command::Quit);
    assert_eq!(command_of_key(77), Command::Right);
    assert_eq!(command_of_key(100), Command::Right);
    assert_eq!(command_of_key(75), Command::Left);
    assert_eq!(command_of_key(97), Command::Left);
    assert_eq!(command_of_key(80), Command::Down);
    assert_eq!(command_of_key(115), Command::Down);
    assert_eq!(command_of_key(72), Command::Up);
    assert_eq!(command_of_key(119), Command::Up);
    assert_eq!(command_of_key(32), Command::Uncover);
    assert_eq!(command_of_key(13), Command::Uncover);
    assert_eq!(command_of_key(102), Command::Flag);
    assert_eq!(command_of_key(104), Command::Highlight);
    assert_eq!(command_of_key(120), Command::Ignore);
}

#[test]
fn cursor_moves_are_clamped() {
    let mut b = layout(2, 2, &[]);
    assert!(b.apply(Command::Left));
    assert!(b.apply(Command::Up));
    assert_eq!(b.cursor(), (0, 0));
    b.apply(Command::Right);
    b.apply(Command::Right);
    b.apply(Command::Down);
    b.apply(Command::Down);
    assert_eq!(b.cursor(), (1, 1));
    assert!(!b.apply(Command::Quit));
}

#[test]
fn highlight_is_taken_once() {
    let mut b = layout(3, 3, &[]);
    b.apply(Command::Right);
    b.apply(Command::Highlight);
    assert_eq!(b.take_highlight(), Some((1, 0)));
    assert_eq!(b.take_highlight(), None);
}

#[test]
fn flag_toggles_and_skips_uncovered() {
    let mut b = layout(3, 3, &[(1, 1)]);
    b.toggle_flag(2, 2);
    assert_eq!(state(&b, 2, 2), MineState::Flagged);
    b.toggle_flag(2, 2);
    assert_eq!(state(&b, 2, 2), MineState::Covered);
    b.uncover(0, 0);
    b.toggle_flag(0, 0);
    assert_eq!(state(&b, 0, 0), MineState::Uncovered);
}

#[test]
fn neighbours_counts_all_eight() {
    let all: Vec<(usize, usize)> = (0..3).flat_map(|y| (0..3).map(move |x| (x, y))).filter(|&p| p != (1, 1)).collect();
    let mut b = layout(3, 3, &all);
    assert_eq!(b.neighbours(1, 1), 8);
    assert_eq!(b.neighbours(0, 0), 2);
    assert_eq!(b.itterate_neighbours(1, 1, false).len(), 8);
    assert_eq!(b.itterate_neighbours(1, 1, true).len(), 9);
    assert_eq!(b.itterate_neighbours(0, 0, false), vec![(0, 1), (1, 0), (1, 1)]);
}

#[test]
fn new_board_credits_mines() {
    let b = layout(4, 2, &[(0, 0), (3, 1)]);
    assert_eq!(b.uncovered_squares, 2);
    assert!(b.alive && !b.started && !b.won);
    assert_eq!(b.cursor(), (0, 0));
}

#[test]
fn layout_extremes() {
    assert!(mine_layout(50, 0).iter().all(|&m| !m));
    assert!(mine_layout(50, 101).iter().all(|&m| m));
    assert_eq!(mine_layout(7, 20).len(), 7);
    let b = Board::random(5, 4, 101);
    assert_eq!(b.uncovered_squares, 20);
    let c = Board::random(5, 4, 0);
    assert_eq!(c.uncovered_squares, 0);
}

#[test]
fn uncover_all_keeps_flagged_mines() {
    let mut b = layout(2, 2, &[(0, 0), (1, 1)]);
    b.toggle_flag(0, 0);
    b.toggle_flag(1, 0);
    b.uncover_all();
    assert_eq!(state(&b, 0, 0), MineState::Flagged);
    assert_eq!(state(&b, 1, 0), MineState::Uncovered);
    assert_eq!(state(&b, 1, 1), MineState::Uncovered);
    b.get_mut(0, 1).state = MineState::Flagged;
    assert_eq!(state(&b, 0, 1), MineState::Flagged);
}

#[test]
fn flood_halts_at_flag_reached_once() {
    let mut b = layout(5, 1, &[(4, 0)]);
    b.toggle_flag(1, 0);
    b.uncover(0, 0);
    assert_eq!(state(&b, 0, 0), MineState::Uncovered);
    assert_eq!(state(&b, 1, 0), MineState::Covered);
    assert_eq!(state(&b, 2, 0), MineState::Covered);
    assert_eq!(state(&b, 3, 0), MineState::Covered);
    assert_eq!(state(&b, 4, 0), MineState::Covered);
    assert_eq!(b.uncovered_squares, 2);
    assert!(b.alive && !b.won && b.started);
}

#[test]
fn cached_count_leaves_board_alone() {
    let mut b = layout(3, 3, &[(1, 1)]);
    b.uncover(0, 0);
    let first = b.neighbours(0, 0);
    assert_eq!(b.get(0, 0).neighbour_cache, Some(1));
    let second = b.neighbours(0, 0);
    assert_eq!(first, second);
    assert_eq!(b.get(0, 0).neighbour_cache, Some(1));
}

#[test]
fn apply_uncovers_and_flags_the_selected_cell() {
    let mut b = layout(3, 3, &[(1, 1)]);
    b.apply(Command::Right);
    b.apply(Command::Flag);
    assert_eq!(state(&b, 1, 0), MineState::Flagged);
    b.apply(Command::Down);
    b.apply(Command::Down);
    b.apply(Command::Uncover);
    assert_eq!(state(&b, 1, 2), MineState::Uncovered);
    assert_eq!(b.uncovered_squares, 2);
}
