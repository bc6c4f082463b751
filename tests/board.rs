use gravitate::action::Action;
use gravitate::board::{Board, Phase, Request};
use gravitate::board_util::Mode;
use gravitate::fixed::{Arrow, APRICOT, BEIGE, GREEN, PINK, TEAL, WHITE};
use gravitate::grid::{Color, Tiles};
use gravitate::palette::palette_ok;
use gravitate::util::Pos;

const R: Option<Color> = Some(0xE6194B);
const G: Option<Color> = Some(0x3CB44B);
const B: Option<Color> = Some(0x4363D8);
const Y: Option<Color> = Some(0xFFE119);
const E: Option<Color> = None;

fn req(action: Action, delay_ms: u32) -> Request {
    Request { action, delay_ms }
}

/// Builds a board from rows as they appear on screen (top row first).
fn board_from_rows(rows: &[&[Option<Color>]], maxcolors: u8) -> Board {
    let columns = rows[0].len();
    let mut tiles: Tiles = Vec::new();
    for x in 0..columns {
        tiles.push(rows.iter().map(|row| row[x]).collect());
    }
    Board::with_tiles(tiles, maxcolors, 100).unwrap()
}

fn grid_of(board: &Board) -> Vec<Vec<Option<Color>>> {
    let size = board.size();
    (0..size.columns)
        .map(|x| (0..size.rows).map(|y| board.cell(Pos::new(x, y))).collect())
        .collect()
}

fn dist2(board: &Board, x: i32, y: i32) -> i32 {
    let size = board.size();
    let dx = size.columns / 2 - x;
    let dy = size.rows / 2 - y;
    dx * dx + dy * dy
}

/// No tile has an empty neighbour, touching another tile, that is nearer the
/// middle than it is.
fn assert_settled(board: &Board) {
    let size = board.size();
    for x in 0..size.columns {
        for y in 0..size.rows {
            if board.cell(Pos::new(x, y)).is_none() {
                continue;
            }
            for (nx, ny) in [(x - 1, y), (x + 1, y), (x, y - 1), (x, y + 1)] {
                let n = Pos::new(nx, ny);
                let on_board = 0 <= nx && nx < size.columns && 0 <= ny && ny < size.rows;
                if !on_board || board.cell(n).is_some() {
                    continue;
                }
                let anchored = [(nx - 1, ny), (nx + 1, ny), (nx, ny - 1), (nx, ny + 1)]
                    .iter()
                    .any(|&(qx, qy)| (qx, qy) != (x, y) && board.cell(Pos::new(qx, qy)).is_some());
                if anchored {
                    assert!(dist2(board, nx, ny) >= dist2(board, x, y), "tile at ({},{}) could move", x, y);
                }
            }
        }
    }
}

fn count_color(board: &Board, color: Option<Color>) -> usize {
    grid_of(board).iter().flatten().filter(|&&c| c == color).count()
}

#[test]
fn new_game_fills_every_cell() {
    let mut board = Board::new();
    assert_eq!(board.mode(), Mode::GameOver);
    let requests = board.new_game(9, 9, 4, 250);
    assert_eq!(requests, vec![req(Action::UpdatedScore(0), 0), req(Action::Redraw, 0)]);
    assert_eq!(board.count_occupied(), 81);
    assert_eq!(board.mode(), Mode::Playing);
    assert_eq!(board.phase(), Phase::Idle);
    assert_eq!(board.score(), 0);
    assert_eq!(board.selected(), None);
    let colors = board.colors();
    assert_eq!(colors.len(), 4);
    assert!(palette_ok(&colors));
    for column in grid_of(&board) {
        for cell in column {
            assert!(colors.contains(&cell.unwrap()));
        }
    }
}

#[test]
fn new_game_on_various_sizes() {
    let mut board = Board::new();
    for (columns, rows, maxcolors) in [(1u8, 1u8, 3u8), (5, 30, 22), (30, 5, 19), (255, 2, 3)] {
        board.new_game(columns, rows, maxcolors, 0);
        assert_eq!(board.count_occupied(), columns as usize * rows as usize);
        let colors = board.colors();
        assert_eq!(colors.len(), (maxcolors as usize).min(19));
        assert!(palette_ok(&colors));
    }
}

#[test]
fn new_game_resets_the_score_and_cursor() {
    let mut board = board_from_rows(&[&[R, R, G]], 3);
    board.on_arrow(Arrow::Left);
    board.delete_tile(Pos::new(0, 0));
    assert!(board.score() > 0);
    board.new_game(6, 6, 5, 10);
    assert_eq!(board.score(), 0);
    assert_eq!(board.selected(), None);
    assert_eq!(board.phase(), Phase::Idle);
    assert!(board.adjoining().is_empty());
}

#[test]
fn region_holds_only_connected_cells_of_the_start_color() {
    // Two red groups joined only diagonally, and a red cell cut off by green.
    let mut board = board_from_rows(
        &[
            &[R, R, G, R],
            &[G, R, G, G],
            &[R, G, R, R],
        ],
        3,
    );
    board.populate_adjoining(Pos::new(0, 0), R.unwrap());
    let mut region = board.adjoining();
    region.sort();
    assert_eq!(region, vec![Pos::new(0, 0), Pos::new(1, 0), Pos::new(1, 1)]);
}

#[test]
fn region_of_an_empty_cell_is_empty() {
    let mut board = board_from_rows(&[&[R, E, R], &[R, R, R]], 3);
    board.populate_adjoining(Pos::new(1, 0), R.unwrap());
    assert!(board.adjoining().is_empty());
}

#[test]
fn region_of_a_cell_of_another_color_is_empty() {
    let mut board = board_from_rows(&[&[R, G], &[R, R]], 3);
    board.populate_adjoining(Pos::new(1, 0), R.unwrap());
    assert!(board.adjoining().is_empty());
}

#[test]
fn region_spans_the_whole_board() {
    let mut board = board_from_rows(&[&[B, B, B], &[B, B, B], &[B, B, B]], 3);
    board.populate_adjoining(Pos::new(2, 2), B.unwrap());
    assert_eq!(board.adjoining().len(), 9);
}

#[test]
fn legal_exactly_when_region_has_two_tiles() {
    let board = board_from_rows(&[&[R, G, G], &[B, R, Y]], 3);
    for x in 0..3 {
        for y in 0..2 {
            let pos = Pos::new(x, y);
            let color = board.cell(pos).unwrap();
            let mut probe = board_from_rows(&[&[R, G, G], &[B, R, Y]], 3);
            probe.populate_adjoining(pos, color);
            assert_eq!(board.is_legal(&pos, color), probe.adjoining().len() >= 2, "at {:?}", pos);
        }
    }
}

#[test]
fn isolated_tile_cannot_be_selected() {
    let mut board = board_from_rows(&[&[R, G], &[G, R]], 3);
    let requests = board.delete_tile(Pos::new(0, 0));
    assert!(requests.is_empty());
    assert_eq!(board.score(), 0);
    assert_eq!(board.phase(), Phase::Idle);
}

#[test]
fn region_of_five_on_nine_by_nine_scores_twenty_five() {
    // A plus shape of five blue tiles in the middle of a board of four colors.
    let mut rows: Vec<Vec<Option<Color>>> = Vec::new();
    for y in 0..9 {
        let mut row = Vec::new();
        for x in 0..9 {
            row.push(if (x + y) % 2 == 0 { R } else { G });
        }
        rows.push(row);
    }
    for (x, y) in [(4, 4), (3, 4), (5, 4), (4, 3), (4, 5)] {
        rows[y][x] = B;
    }
    rows[0][0] = Y;
    let row_refs: Vec<&[Option<Color>]> = rows.iter().map(|r| r.as_slice()).collect();
    let mut board = board_from_rows(&row_refs, 4);
    let requests = board.delete_tile(Pos::new(4, 4));
    assert_eq!(board.adjoining().len(), 5);
    assert_eq!(board.score(), 25);
    assert_eq!(requests, vec![req(Action::Redraw, 0), req(Action::DeleteAdjoining, 100)]);
    assert_eq!(board.phase(), Phase::Dimming);
}

#[test]
fn region_score_formula() {
    assert_eq!(Board::region_score(5, 4), 25);
    assert_eq!(Board::region_score(2, 3), 2);
    assert_eq!(Board::region_score(3, 5), 27);
    assert_eq!(Board::region_score(4, 2), 1);
    assert_eq!(Board::region_score(10, 6), 10000);
    assert_eq!(Board::region_score(0, 3), 0);
}

#[test]
fn region_score_is_held_at_the_largest_score() {
    assert_eq!(Board::region_score(16, 6), 65535);
    assert_eq!(Board::region_score(1000, 4), 65535);
    assert_eq!(Board::region_score(70000, 3), 65535);
    assert_eq!(Board::region_score(255, 4), 65025);
}

#[test]
fn region_score_grows_strictly_with_size() {
    for maxcolors in 3u8..=6 {
        let mut last = Board::region_score(1, maxcolors);
        for n in 2usize..=14 {
            let next = Board::region_score(n, maxcolors);
            if next == 65535 {
                break;
            }
            assert!(next > last, "n = {}, maxcolors = {}", n, maxcolors);
            last = next;
        }
    }
}

#[test]
fn score_never_falls_over_a_game() {
    let mut board = Board::new();
    board.new_game(8, 8, 3, 0);
    let mut score = board.score();
    for round in 0..200 {
        let size = board.size();
        let pos = Pos::new(round % size.columns, (round * 7) % size.rows);
        board.delete_tile(pos);
        board.delete_adjoining();
        board.close_up(0);
        assert!(board.score() >= score);
        score = board.score();
        if board.mode() != Mode::Playing {
            break;
        }
    }
}

#[test]
fn compaction_scenario_on_three_by_two() {
    let mut board = board_from_rows(&[&[R, G, B], &[G, G, R]], 3);
    let requests = board.delete_tile(Pos::new(1, 1));
    assert_eq!(requests, vec![req(Action::Redraw, 0), req(Action::DeleteAdjoining, 100)]);
    assert_eq!(board.score(), 3);
    assert!(board.is_dimmed(Pos::new(0, 1)));
    assert!(!board.is_dimmed(Pos::new(0, 0)));
    let requests = board.delete_adjoining();
    assert_eq!(requests, vec![req(Action::Redraw, 0), req(Action::CloseUp, 100)]);
    assert_eq!(board.phase(), Phase::Removing);
    assert_eq!(grid_of(&board), vec![vec![R, E], vec![E, E], vec![B, R]]);
    let requests = board.close_up(0);
    assert_eq!(requests, vec![req(Action::UpdatedScore(3), 0), req(Action::Redraw, 0)]);
    assert_eq!(grid_of(&board), vec![vec![E, E], vec![R, R], vec![E, B]]);
    assert_eq!(board.mode(), Mode::Playing);
    assert_eq!(board.phase(), Phase::Idle);
    assert_settled(&board);
}

#[test]
fn compaction_keeps_every_tile_and_settles() {
    for seed in 0..20 {
        let mut board = Board::new();
        board.new_game(7 + (seed % 3) as u8, 6 + (seed % 4) as u8, 4, 0);
        let size = board.size();
        let mut done = 0;
        for x in 0..size.columns {
            for y in 0..size.rows {
                if done >= 5 || board.mode() != Mode::Playing {
                    break;
                }
                let before = board.count_occupied();
                let colors = board.colors();
                if board.delete_tile(Pos::new(x, y)).is_empty() {
                    continue;
                }
                let removed = board.adjoining().len();
                board.delete_adjoining();
                assert_eq!(board.count_occupied(), before - removed);
                let counts: Vec<usize> = colors.iter().map(|&c| count_color(&board, Some(c))).collect();
                let after_removal = board.count_occupied();
                board.close_up(65535);
                assert_eq!(board.count_occupied(), after_removal);
                let again: Vec<usize> = colors.iter().map(|&c| count_color(&board, Some(c))).collect();
                assert_eq!(counts, again);
                assert_settled(&board);
                done += 1;
            }
        }
    }
}

#[test]
fn move_tiles_on_a_settled_board_changes_nothing() {
    let mut board = board_from_rows(&[&[E, E, E], &[E, R, E], &[E, E, E]], 3);
    board.move_tiles();
    assert_eq!(grid_of(&board), vec![vec![E, E, E], vec![E, R, E], vec![E, E, E]]);
}

#[test]
fn lone_tile_does_not_drift_away_from_the_others() {
    let mut board = board_from_rows(&[&[R, E, E, G, B]], 3);
    board.move_tiles();
    assert_eq!(grid_of(&board), vec![vec![R], vec![E], vec![E], vec![G], vec![B]]);
}

#[test]
fn one_tile_per_color_without_matches_is_lost() {
    let mut board = board_from_rows(&[&[R, E, G], &[E, B, E]], 3);
    let requests = board.check_game_over(0);
    assert_eq!(board.mode(), Mode::GameOver);
    assert_eq!(
        requests,
        vec![req(Action::GameOver, 0), req(Action::UpdatedScore(0), 0), req(Action::Redraw, 0)]
    );
    assert!(board.is_dimmed(Pos::new(0, 0)));
    assert!(!board.is_dimmed(Pos::new(1, 0)));
}

#[test]
fn diagonal_tiles_of_one_color_do_not_match() {
    let mut board = board_from_rows(&[&[R, E, G], &[E, G, R]], 3);
    let requests = board.check_game_over(0);
    assert_eq!(board.mode(), Mode::GameOver);
    assert_eq!(requests.len(), 3);
}

#[test]
fn board_with_a_match_left_is_still_in_play() {
    let mut board = board_from_rows(&[&[R, G, G], &[E, B, R]], 3);
    let requests = board.check_game_over(7);
    assert_eq!(board.mode(), Mode::Playing);
    assert_eq!(requests, vec![req(Action::UpdatedScore(0), 0), req(Action::Redraw, 0)]);
    assert!(!board.is_dimmed(Pos::new(0, 0)));
}

#[test]
fn fresh_board_waits_for_a_game() {
    let mut board = Board::new();
    assert_eq!(board.mode(), Mode::GameOver);
    assert_eq!(board.count_occupied(), 0);
    assert_eq!(board.size().columns, 0);
    assert!(board.delete_tile(Pos::new(0, 0)).is_empty());
    assert!(board.on_click_tile(1, 1, 10, 10).is_empty());
}

#[test]
fn empty_board_is_won() {
    let mut board = board_from_rows(&[&[E, E], &[E, E]], 3);
    let requests = board.check_game_over(0);
    assert_eq!(board.mode(), Mode::UserWon(false));
    assert_eq!(
        requests,
        vec![req(Action::GameOver, 0), req(Action::UpdatedScore(0), 0), req(Action::Redraw, 0)]
    );
}

#[test]
fn clearing_the_board_with_a_better_score_is_a_new_high_score() {
    let mut board = board_from_rows(&[&[R, R]], 3);
    board.delete_tile(Pos::new(0, 0));
    board.delete_adjoining();
    let requests = board.close_up(1);
    assert_eq!(board.mode(), Mode::UserWon(true));
    assert_eq!(board.score(), 2);
    assert_eq!(
        requests,
        vec![req(Action::GameOver, 0), req(Action::UpdatedScore(2), 0), req(Action::Redraw, 0)]
    );
    let mut board = board_from_rows(&[&[R, R]], 3);
    board.delete_tile(Pos::new(1, 0));
    board.delete_adjoining();
    board.close_up(2);
    assert_eq!(board.mode(), Mode::UserWon(false));
}

#[test]
fn selecting_an_empty_cell_twice_changes_nothing() {
    let mut board = board_from_rows(&[&[R, E, R], &[G, G, R]], 3);
    let before = grid_of(&board);
    for _ in 0..2 {
        let requests = board.delete_tile(Pos::new(1, 0));
        assert!(requests.is_empty());
        assert_eq!(board.score(), 0);
        assert_eq!(board.phase(), Phase::Idle);
        assert_eq!(board.mode(), Mode::Playing);
        assert_eq!(grid_of(&board), before);
    }
}

#[test]
fn selection_off_the_board_is_ignored() {
    let mut board = board_from_rows(&[&[R, R], &[R, R]], 3);
    for pos in [Pos::new(-1, 0), Pos::new(2, 0), Pos::new(0, 5), Pos::default()] {
        assert!(board.delete_tile(pos).is_empty());
    }
    assert_eq!(board.score(), 0);
    assert_eq!(board.count_occupied(), 4);
}

#[test]
fn input_is_refused_while_a_region_is_removed() {
    let mut board = board_from_rows(&[&[R, R, G, G]], 3);
    board.delete_tile(Pos::new(0, 0));
    assert_eq!(board.phase(), Phase::Dimming);
    assert!(board.delete_tile(Pos::new(2, 0)).is_empty());
    assert!(board.on_arrow(Arrow::Left).is_empty());
    assert!(board.close_up(0).is_empty());
    assert_eq!(board.score(), 2);
    board.delete_adjoining();
    assert!(board.delete_adjoining().is_empty());
    assert_eq!(board.phase(), Phase::Removing);
    assert_eq!(board.selected(), None);
    assert!(board.on_press_tile().is_empty());
    board.close_up(0);
    assert_eq!(board.phase(), Phase::Idle);
}

#[test]
fn arrows_move_the_cursor_over_tiles_only() {
    let mut board = board_from_rows(&[&[R, G, B], &[E, Y, R], &[G, E, B]], 3);
    assert_eq!(board.on_arrow(Arrow::Up), vec![req(Action::Redraw, 0)]);
    assert_eq!(board.selected(), Some(Pos::new(1, 1)));
    board.on_arrow(Arrow::Left);
    assert_eq!(board.selected(), Some(Pos::new(1, 1)));
    board.on_arrow(Arrow::Up);
    assert_eq!(board.selected(), Some(Pos::new(1, 0)));
    board.on_arrow(Arrow::Up);
    assert_eq!(board.selected(), Some(Pos::new(1, 0)));
    board.on_arrow(Arrow::Right);
    assert_eq!(board.selected(), Some(Pos::new(2, 0)));
    board.on_arrow(Arrow::Down);
    assert_eq!(board.selected(), Some(Pos::new(2, 1)));
    board.on_arrow(Arrow::Down);
    assert_eq!(board.selected(), Some(Pos::new(2, 2)));
}

#[test]
fn arrows_are_inert_once_the_game_is_over() {
    let mut board = Board::new();
    assert!(board.on_arrow(Arrow::Down).is_empty());
    assert_eq!(board.selected(), None);
}

#[test]
fn pressing_selects_the_cell_under_the_cursor() {
    let mut board = board_from_rows(&[&[R, G, G], &[B, G, R]], 3);
    assert!(board.on_press_tile().is_empty());
    board.on_arrow(Arrow::Down);
    assert_eq!(board.selected(), Some(Pos::new(1, 1)));
    let requests = board.on_press_tile();
    assert_eq!(requests.len(), 2);
    assert_eq!(board.adjoining().len(), 3);
    assert_eq!(board.score(), 3);
}

#[test]
fn cursor_is_dropped_when_its_tile_goes() {
    let mut board = board_from_rows(&[&[R, R, G]], 3);
    board.on_arrow(Arrow::Left);
    assert_eq!(board.selected(), Some(Pos::new(1, 0)));
    board.on_press_tile();
    board.delete_adjoining();
    board.close_up(0);
    // The green tile stays put: the middle cell touches no other tile.
    assert_eq!(grid_of(&board), vec![vec![E], vec![E], vec![G]]);
    assert_eq!(board.selected(), None);
    assert_eq!(board.mode(), Mode::GameOver);
}

#[test]
fn cursor_stays_when_a_tile_moves_into_its_cell() {
    let mut board = board_from_rows(&[&[R, G, G], &[B, G, R]], 3);
    board.on_arrow(Arrow::Down);
    assert_eq!(board.selected(), Some(Pos::new(1, 1)));
    board.on_press_tile();
    board.delete_adjoining();
    board.close_up(0);
    assert_eq!(grid_of(&board), vec![vec![E, E], vec![R, B], vec![E, R]]);
    assert_eq!(board.selected(), Some(Pos::new(1, 1)));
    assert_eq!(board.mode(), Mode::GameOver);
}

#[test]
fn click_maps_pixels_to_cells() {
    let mut board = board_from_rows(&[&[R, R, G], &[B, G, G]], 3);
    board.on_arrow(Arrow::Up);
    // Tiles are 40 by 30 pixels: (95, 35) lies in column 2, row 1.
    let requests = board.on_click_tile(95, 35, 120, 60);
    assert_eq!(board.selected(), None);
    assert_eq!(requests.len(), 2);
    let mut region = board.adjoining();
    region.sort();
    assert_eq!(region, vec![Pos::new(1, 1), Pos::new(2, 0), Pos::new(2, 1)]);
}

#[test]
fn click_outside_the_tiles_is_ignored() {
    let mut board = board_from_rows(&[&[R, R], &[R, R]], 3);
    assert!(board.on_click_tile(-5, 3, 100, 100).is_empty());
    assert!(board.on_click_tile(150, 3, 100, 100).is_empty());
    assert!(board.on_click_tile(3, 3, 1, 1).is_empty());
    assert_eq!(board.score(), 0);
}

#[test]
fn with_tiles_refuses_ragged_or_empty_boards() {
    assert!(Board::with_tiles(vec![], 3, 0).is_none());
    assert!(Board::with_tiles(vec![vec![R, G], vec![R]], 3, 0).is_none());
    assert!(Board::with_tiles(vec![vec![]], 3, 0).is_none());
    assert!(Board::with_tiles(vec![vec![R]], 2, 0).is_none());
    assert!(Board::with_tiles(vec![vec![R]], 3, 0).is_some());
}

#[test]
fn palettes_avoid_confusable_pairs() {
    assert!(!palette_ok(&vec![BEIGE, WHITE]));
    assert!(!palette_ok(&vec![GREEN, 1, TEAL]));
    assert!(!palette_ok(&vec![APRICOT, PINK]));
    assert!(palette_ok(&vec![BEIGE, TEAL, PINK]));
    assert!(palette_ok(&vec![]));
}

#[test]
fn put_tile_writes_on_the_board_only() {
    let mut board = board_from_rows(&[&[R, E], &[G, B]], 3);
    board.put_tile(Pos::new(1, 0), Y);
    assert_eq!(board.cell(Pos::new(1, 0)), Y);
    board.put_tile(Pos::new(0, 1), E);
    assert_eq!(board.count_occupied(), 3);
    board.put_tile(Pos::new(2, 0), R);
    board.put_tile(Pos::new(0, -1), R);
    assert_eq!(grid_of(&board), vec![vec![R, E], vec![Y, B]]);
}
