use minesweeper::board::RevealOutcome;
use minesweeper::cell::{Cell, CellType};
use minesweeper::grid::Grid;
use minesweeper::render::format_count;
use owo_colors::OwoColorize;

fn mines(g: &Grid) -> usize {
    let mut n = 0;
    for y in 0..g.height() {
        for x in 0..g.width() {
            if g.cell_at(x, y).cell_type == CellType::Mine {
                n += 1;
            }
        }
    }
    n
}

fn neighbours(g: &Grid, x: usize, y: usize) -> Vec<(usize, usize)> {
    let mut r = Vec::new();
    for dy in -1i64..=1 {
        for dx in -1i64..=1 {
            if dx == 0 && dy == 0 {
                continue;
            }
            let nx = x as i64 + dx;
            let ny = y as i64 + dy;
            if nx >= 0 && ny >= 0 && (nx as usize) < g.width() && (ny as usize) < g.height() {
                r.push((nx as usize, ny as usize));
            }
        }
    }
    r
}

fn mines_around(g: &Grid, x: usize, y: usize) -> u8 {
    neighbours(g, x, y)
        .into_iter()
        .filter(|&(a, b)| g.cell_at(a, b).cell_type == CellType::Mine)
        .count() as u8
}

#[test]
fn mine_count_is_floor_of_share() {
    assert_eq!(Grid::new(30, 20).mine_count(), 120);
    assert_eq!(Grid::new(1, 1).mine_count(), 0);
    assert_eq!(Grid::new(3, 3).mine_count(), 1);
    assert_eq!(Grid::with_mine_percentage(7, 3, 30).mine_count(), 6);
    assert_eq!(Grid::with_mine_percentage(3, 3, 0).mine_count(), 0);
}

#[test]
fn new_grid_is_hidden_and_empty() {
    let g = Grid::new(4, 3);
    assert!(!g.is_generated());
    assert_eq!(g.width(), 4);
    assert_eq!(g.height(), 3);
    for y in 0..3 {
        for x in 0..4 {
            assert_eq!(g.cell_at(x, y), Cell::new());
        }
    }
}

#[test]
fn generate_keeps_first_click_area_clear() {
    for _ in 0..20 {
        let mut g = Grid::with_mine_percentage(10, 10, 50);
        g.generate((5, 5));
        assert!(g.is_generated());
        for y in 4..=6 {
            for x in 4..=6 {
                assert_eq!(g.cell_at(x, y).cell_type, CellType::Empty);
            }
        }
    }
}

#[test]
fn generate_places_exactly_mine_count() {
    for _ in 0..20 {
        let mut g = Grid::with_mine_percentage(10, 10, 50);
        g.generate((0, 0));
        assert_eq!(mines(&g), 50);
        let mut h = Grid::new(30, 20);
        h.generate((29, 19));
        assert_eq!(mines(&h), 120);
    }
}

#[test]
fn generate_caps_mines_at_free_cells() {
    let mut g = Grid::with_mine_percentage(4, 4, 100);
    g.generate((0, 0));
    assert_eq!(g.mine_count(), 16);
    assert_eq!(mines(&g), 12);
}

#[test]
fn adjacency_counts_match_neighbours() {
    for _ in 0..20 {
        let mut g = Grid::with_mine_percentage(9, 7, 40);
        g.generate((3, 3));
        for y in 0..7 {
            for x in 0..9 {
                assert_eq!(g.cell_at(x, y).adjacent_mines, mines_around(&g, x, y));
            }
        }
    }
}

#[test]
fn generate_twice_changes_nothing() {
    let mut g = Grid::with_mine_percentage(8, 8, 30);
    g.generate((2, 2));
    let before: Vec<Cell> = (0..64).map(|i| g.cell_at(i % 8, i / 8)).collect();
    g.generate((6, 6));
    let after: Vec<Cell> = (0..64).map(|i| g.cell_at(i % 8, i / 8)).collect();
    assert_eq!(before, after);
}

#[test]
fn zero_mine_board_cascades_everywhere() {
    let mut g = Grid::with_mine_percentage(3, 3, 0);
    g.generate((1, 1));
    assert_eq!(g.reveal_cell(1, 1), RevealOutcome::Cleared);
    for y in 0..3 {
        for x in 0..3 {
            let c = g.cell_at(x, y);
            assert!(c.revealed);
            assert_eq!(c.adjacent_mines, 0);
        }
    }
}

#[test]
fn single_cell_board() {
    let mut g = Grid::new(1, 1);
    g.generate((0, 0));
    assert_eq!(mines(&g), 0);
    assert_eq!(g.reveal_cell(0, 0), RevealOutcome::Cleared);
    let c = g.cell_at(0, 0);
    assert!(c.revealed);
    assert_eq!(c.adjacent_mines, 0);
}

#[test]
fn reveal_on_flagged_cell_is_noop() {
    let mut g = Grid::with_mine_percentage(3, 3, 0);
    g.generate((1, 1));
    g.toggle_flag(0, 0);
    assert_eq!(g.reveal_cell(0, 0), RevealOutcome::Continue);
    let c = g.cell_at(0, 0);
    assert!(!c.revealed);
    assert!(c.flagged);
    assert!(!g.cell_at(1, 1).revealed);
}

#[test]
fn reveal_on_revealed_cell_is_noop() {
    let mut g = Grid::with_mine_percentage(5, 1, 20);
    g.generate((0, 0));
    g.reveal_cell(0, 0);
    let before: Vec<Cell> = (0..5).map(|x| g.cell_at(x, 0)).collect();
    g.reveal_cell(0, 0);
    let after: Vec<Cell> = (0..5).map(|x| g.cell_at(x, 0)).collect();
    assert_eq!(before, after);
}

#[test]
fn cascade_stops_at_flags_and_opens_borders() {
    let mut g = Grid::with_mine_percentage(3, 3, 0);
    g.generate((1, 1));
    g.toggle_flag(2, 2);
    assert_eq!(g.reveal_cell(0, 0), RevealOutcome::Continue);
    for y in 0..3 {
        for x in 0..3 {
            assert_eq!(g.cell_at(x, y).revealed, !(x == 2 && y == 2));
        }
    }
}

#[test]
fn cascade_is_closed_and_never_opens_mines() {
    for _ in 0..30 {
        let mut g = Grid::with_mine_percentage(12, 9, 15);
        g.generate((4, 4));
        assert_ne!(g.reveal_cell(4, 4), RevealOutcome::HitMine);
        for y in 0..9 {
            for x in 0..12 {
                let c = g.cell_at(x, y);
                if c.revealed {
                    assert_eq!(c.cell_type, CellType::Empty);
                    if c.adjacent_mines == 0 {
                        for (a, b) in neighbours(&g, x, y) {
                            assert!(g.cell_at(a, b).revealed);
                        }
                    }
                }
            }
        }
    }
}

#[test]
fn revealing_a_mine_is_reported() {
    let mut g = Grid::with_mine_percentage(4, 4, 100);
    g.generate((0, 0));
    assert_eq!(g.cell_at(3, 3).cell_type, CellType::Mine);
    assert_eq!(g.reveal_cell(3, 3), RevealOutcome::HitMine);
    assert!(g.cell_at(3, 3).revealed);
    assert!(!g.cell_at(2, 3).revealed);
}

#[test]
fn toggle_flag_on_hidden_and_revealed_cells() {
    let mut g = Grid::with_mine_percentage(3, 3, 0);
    g.toggle_flag(0, 1);
    assert!(g.cell_at(0, 1).flagged);
    g.toggle_flag(0, 1);
    assert!(!g.cell_at(0, 1).flagged);
    g.generate((1, 1));
    g.reveal_cell(1, 1);
    g.toggle_flag(0, 1);
    assert!(!g.cell_at(0, 1).flagged);
    assert!(g.cell_at(0, 1).revealed);
}

#[test]
fn toggling_twice_restores_flag() {
    let mut g = Grid::new(5, 5);
    let start = g.cell_at(2, 3);
    g.toggle_flag(2, 3);
    assert_ne!(g.cell_at(2, 3), start);
    g.toggle_flag(2, 3);
    assert_eq!(g.cell_at(2, 3), start);
}

#[test]
fn count_glyphs_are_styled() {
    assert_eq!(format_count(0), ".".bold().to_string());
    assert_eq!(format_count(1), "1".blue().bold().to_string());
    assert_eq!(format_count(4), "4".magenta().to_string());
    assert_eq!(format_count(8), "8".bright_black().to_string());
    assert_ne!(format_count(3), "3");
}

#[test]
fn cell_glyphs() {
    let mut c = Cell::new();
    assert_eq!(c.glyph(), " ");
    c.flagged = true;
    assert_eq!(c.glyph(), "⚑");
    c.flagged = false;
    c.revealed = true;
    c.cell_type = CellType::Mine;
    assert_eq!(c.glyph(), "*");
    c.cell_type = CellType::Empty;
    c.adjacent_mines = 2;
    assert_eq!(c.glyph(), "2".green().bold().to_string());
}

#[test]
fn render_frames_the_board() {
    let mut g = Grid::new(2, 1);
    g.set_selected(1, 0);
    let lines = g.render();
    assert_eq!(lines.len(), 3);
    assert_eq!(lines[0], "╭─────╮");
    assert_eq!(lines[2], "╰─────╯");
    let selected = " ".black().on_bright_white().to_string();
    assert_eq!(lines[1], format!("│   {} │", selected));
}

fn kinds(g: &Grid) -> Vec<CellType> {
    let mut r = Vec::new();
    for y in 0..g.height() {
        for x in 0..g.width() {
            r.push(g.cell_at(x, y).cell_type);
        }
    }
    r
}

#[test]
fn generate_with_identity_draws_places_mines_in_row_order() {
    let mut g = Grid::with_mine_percentage(5, 5, 40);
    let draws: Vec<usize> = (0..25).collect();
    g.generate_with((0, 0), &draws);
    let mine_at: Vec<usize> = kinds(&g)
        .iter()
        .enumerate()
        .filter(|(_, k)| **k == CellType::Mine)
        .map(|(i, _)| i)
        .collect();
    assert_eq!(mine_at, vec![2, 3, 4, 7, 8, 9, 10, 11, 12, 13]);
}

#[test]
fn generate_with_follows_the_draws() {
    let mut g = Grid::with_mine_percentage(5, 5, 40);
    let mut draws: Vec<usize> = (0..25).collect();
    draws[24] = 10;
    draws[20] = 0;
    draws[12] = 6;
    g.generate_with((0, 0), &draws);
    let mine_at: Vec<usize> = kinds(&g)
        .iter()
        .enumerate()
        .filter(|(_, k)| **k == CellType::Mine)
        .map(|(i, _)| i)
        .collect();
    assert_eq!(mine_at, vec![2, 3, 4, 7, 8, 9, 11, 12, 13, 24]);
    for y in 0..5 {
        for x in 0..5 {
            assert_eq!(g.cell_at(x, y).adjacent_mines, mines_around(&g, x, y));
        }
    }
}

#[test]
fn shuffle_moves_whole_cells() {
    let mut g = Grid::with_mine_percentage(5, 1, 0);
    g.toggle_flag(4, 0);
    let draws: Vec<usize> = vec![0, 1, 2, 3, 3];
    g.generate_with((0, 0), &draws);
    assert!(g.cell_at(3, 0).flagged);
    assert!(!g.cell_at(4, 0).flagged);
}

#[test]
fn styles_are_exact_escape_sequences() {
    assert_eq!(format_count(0), "\x1b[1m.\x1b[0m");
    assert_eq!(format_count(1), "\x1b[1m\x1b[34m1\x1b[39m\x1b[0m");
    assert_eq!(format_count(4), "\x1b[35m4\x1b[39m");
    assert_eq!(format_count(5), "\x1b[1m\x1b[91m5\x1b[39m\x1b[0m");
    assert_eq!(format_count(8), "\x1b[90m8\x1b[39m");
    let mut g = Grid::new(1, 1);
    g.set_selected(0, 0);
    assert_eq!(g.render()[1], "│ \x1b[30;107m \x1b[0m │");
}
