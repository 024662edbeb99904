use game_of_life::cell::Cell;
use game_of_life::render::{draw_cell, render, Framebuffer, MARGIN};
use game_of_life::rules::{calculate_next_generation, evaluate_cell, get_neightbor_cells};
use game_of_life::seed::{parse_rle_body, parse_run_length, parse_seed, ParseError, SeedFormat};
use game_of_life::state::State;

fn board(width: usize, height: usize, cells: &[(usize, usize)]) -> State {
    State {
        width,
        height,
        living_cells: cells.iter().map(|&(x, y)| Cell { x, y }).collect(),
    }
}

fn sorted(state: &State) -> Vec<(usize, usize)> {
    let mut v: Vec<(usize, usize)> = state.living_cells.iter().map(|c| (c.x, c.y)).collect();
    v.sort();
    v
}

fn sorted_of(cells: &[(usize, usize)]) -> Vec<(usize, usize)> {
    let mut v = cells.to_vec();
    v.sort();
    v
}

#[test]
fn empty_board_stays_empty() {
    let mut state = board(10, 10, &[]);
    calculate_next_generation(&mut state);
    assert!(state.living_cells.is_empty());
    assert_eq!((state.width, state.height), (10, 10));
}

#[test]
fn block_is_a_still_life() {
    let cells = [(1, 1), (2, 1), (1, 2), (2, 2)];
    let mut state = board(10, 10, &cells);
    calculate_next_generation(&mut state);
    assert_eq!(sorted(&state), sorted_of(&cells));
    calculate_next_generation(&mut state);
    assert_eq!(sorted(&state), sorted_of(&cells));
}

#[test]
fn blinker_has_period_two() {
    let horizontal = [(1, 2), (2, 2), (3, 2)];
    let vertical = [(2, 1), (2, 2), (2, 3)];
    let mut state = board(10, 10, &horizontal);
    calculate_next_generation(&mut state);
    assert_eq!(sorted(&state), sorted_of(&vertical));
    calculate_next_generation(&mut state);
    assert_eq!(sorted(&state), sorted_of(&horizontal));
}

#[test]
fn lonely_cell_dies() {
    let mut state = board(10, 10, &[(4, 4)]);
    calculate_next_generation(&mut state);
    assert!(state.living_cells.is_empty());
}

#[test]
fn l_tromino_gains_a_fourth_cell() {
    let state = board(10, 10, &[(1, 1), (2, 1), (1, 2)]);
    assert_eq!(evaluate_cell(&state, &Cell { x: 2, y: 2 }), Some(Cell { x: 2, y: 2 }));
    let mut state = state;
    calculate_next_generation(&mut state);
    assert_eq!(sorted(&state), sorted_of(&[(1, 1), (2, 1), (1, 2), (2, 2)]));
}

#[test]
fn evaluator_agrees_with_stepper_on_a_glider() {
    let glider = [(1, 0), (2, 1), (0, 2), (1, 2), (2, 2)];
    let state = board(20, 20, &glider);
    let mut union: Vec<(usize, usize)> = Vec::new();
    for cell in &state.living_cells {
        let mut candidates: Vec<Cell> = get_neightbor_cells(&state, cell).into_iter().flatten().collect();
        candidates.push(*cell);
        for c in candidates {
            if let Some(alive) = evaluate_cell(&state, &c) {
                if !union.contains(&(alive.x, alive.y)) {
                    union.push((alive.x, alive.y));
                }
            }
        }
    }
    union.sort();
    let mut stepped = board(20, 20, &glider);
    calculate_next_generation(&mut stepped);
    assert_eq!(sorted(&stepped), union);
    assert_eq!(union, vec![(0, 1), (1, 2), (1, 3), (2, 1), (2, 2)]);
}

#[test]
fn neighbors_of_a_corner_cell() {
    let state = board(5, 5, &[]);
    let slots = get_neightbor_cells(&state, &Cell { x: 0, y: 0 });
    assert_eq!(
        slots,
        vec![
            None,
            None,
            None,
            None,
            Some(Cell { x: 0, y: 1 }),
            None,
            Some(Cell { x: 1, y: 0 }),
            Some(Cell { x: 1, y: 1 }),
        ]
    );
}

#[test]
fn neighbors_reach_the_dimension_itself() {
    let state = board(4, 4, &[]);
    let slots = get_neightbor_cells(&state, &Cell { x: 3, y: 3 });
    assert_eq!(slots[7], Some(Cell { x: 4, y: 4 }));
    let slots = get_neightbor_cells(&state, &Cell { x: 4, y: 4 });
    assert_eq!(slots[7], None);
    assert_eq!(slots[0], Some(Cell { x: 3, y: 3 }));
}

#[test]
fn survival_needs_two_or_three_neighbors() {
    let state = board(10, 10, &[(1, 1), (2, 1), (3, 1), (2, 2), (2, 0)]);
    // (2, 1) has four live neighbours: overcrowded.
    assert_eq!(evaluate_cell(&state, &Cell { x: 2, y: 1 }), None);
    // (1, 1) has three.
    assert_eq!(evaluate_cell(&state, &Cell { x: 1, y: 1 }), Some(Cell { x: 1, y: 1 }));
}

#[test]
fn grid_pattern_reads_back_its_positions() {
    let text = "..O.\nO...\n....\n.O";
    let state = parse_rle_body(text).unwrap();
    assert_eq!(sorted(&state), sorted_of(&[(2, 0), (0, 1), (1, 3)]));
    assert_eq!(state.height, 4);
    assert_eq!(state.width, 4);
}

#[test]
fn grid_pattern_with_crlf_and_final_newline() {
    let state = parse_rle_body("O.\r\n.O.\r\n").unwrap();
    assert_eq!(sorted(&state), sorted_of(&[(0, 0), (1, 1)]));
    assert_eq!((state.width, state.height), (3, 2));
}

#[test]
fn empty_grid_pattern() {
    let state = parse_rle_body("").unwrap();
    assert!(state.living_cells.is_empty());
    assert_eq!((state.width, state.height), (0, 0));
}

#[test]
fn grid_pattern_rejects_other_characters() {
    assert_eq!(
        parse_rle_body("..O\n.xO\n#").err(),
        Some(ParseError::InvalidGlyph { character: 'x', line: 2, column: 2 })
    );
    assert_eq!(
        parse_rle_body("O b").err(),
        Some(ParseError::InvalidGlyph { character: ' ', line: 1, column: 2 })
    );
}

#[test]
fn run_length_two_rows_of_three() {
    let state = parse_run_length("3o$3o!").unwrap();
    assert_eq!(sorted(&state), sorted_of(&[(0, 0), (1, 0), (2, 0), (0, 1), (1, 1), (2, 1)]));
    assert_eq!((state.width, state.height), (3, 2));
}

#[test]
fn run_length_dead_runs_and_newlines() {
    let state = parse_run_length("2bo\n$o2bo!").unwrap();
    assert_eq!(sorted(&state), sorted_of(&[(2, 0), (0, 1), (3, 1)]));
    assert_eq!((state.width, state.height), (4, 2));
}

#[test]
fn run_length_multi_digit_count() {
    let state = parse_run_length("12o!").unwrap();
    assert_eq!(state.living_cells.len(), 12);
    assert_eq!(state.width, 12);
}

#[test]
fn run_length_stops_at_bang() {
    let state = parse_run_length("o!zz$o").unwrap();
    assert_eq!(sorted(&state), vec![(0, 0)]);
    assert_eq!((state.width, state.height), (1, 1));
}

#[test]
fn run_length_rejects_other_characters() {
    assert_eq!(
        parse_run_length("3o$x!").err(),
        Some(ParseError::InvalidRunLength { character: 'x', position: 4 })
    );
}

#[test]
fn run_length_rejects_a_count_too_large() {
    assert_eq!(
        parse_run_length("99999999999999999999999o!").err(),
        Some(ParseError::RunTooLong { position: 20 })
    );
}

#[test]
fn seed_format_selects_the_reader() {
    let grid = parse_seed(SeedFormat::GridGlyph, "OO").unwrap();
    assert_eq!(sorted(&grid), vec![(0, 0), (1, 0)]);
    let run = parse_seed(SeedFormat::RunLength, "2o!").unwrap();
    assert_eq!(sorted(&run), vec![(0, 0), (1, 0)]);
    assert!(parse_seed(SeedFormat::GridGlyph, "2o!").is_err());
}

#[test]
fn render_paints_cell_squares() {
    let mut fb = Framebuffer::new(100, 100, 0x000000);
    fb.set_current_color_hex(0xFFFFFF);
    let mut state = board(10, 10, &[(1, 0)]);
    render(&mut fb, &mut state, 10);
    let px = |x: usize, y: usize| fb.buffer[y * 100 + x];
    assert_eq!(MARGIN, 32);
    assert_eq!(px(42, 32), 0xFFFFFF);
    assert_eq!(px(51, 41), 0xFFFFFF);
    assert_eq!(px(41, 32), 0x000000);
    assert_eq!(px(52, 32), 0x000000);
    assert_eq!(px(42, 42), 0x000000);
    let painted = fb.buffer.iter().filter(|&&p| p == 0xFFFFFF).count();
    assert_eq!(painted, 100);
}

#[test]
fn draw_cell_clips_at_the_edge() {
    let mut fb = Framebuffer::new(10, 8, 0x1E1478);
    fb.set_current_color_hex(0x00FF00);
    draw_cell(&mut fb, 8, 6, 5);
    let painted: Vec<usize> = (0..80).filter(|&i| fb.buffer[i] == 0x00FF00).collect();
    assert_eq!(painted, vec![68, 69, 78, 79]);
    fb.clear();
    assert!(fb.buffer.iter().all(|&p| p == 0x1E1478));
}

#[test]
fn draw_point_off_the_grid_is_ignored() {
    let mut fb = Framebuffer::new(4, 4, 7);
    fb.draw_point(4, 0);
    fb.draw_point(0, 4);
    assert!(fb.buffer.iter().all(|&p| p == 7));
    fb.draw_point(3, 2);
    assert_eq!(fb.buffer[11], 0xFFFFFF);
}

#[test]
fn birth_past_the_board_edge_is_not_stepped() {
    let mut state = board(2, 4, &[(2, 0), (2, 1), (2, 2)]);
    assert_eq!(evaluate_cell(&state, &Cell { x: 3, y: 1 }), Some(Cell { x: 3, y: 1 }));
    calculate_next_generation(&mut state);
    assert_eq!(sorted(&state), vec![(1, 1), (2, 1)]);
}
