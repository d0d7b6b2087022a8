use minesweeper::grid::{glyph, place_mines, Cell, GameError, Grid, Point};

fn layout(n: usize, mines: &[(usize, usize)]) -> Vec<Vec<bool>> {
    let mut rows = vec![vec![false; n]; n];
    for &(r, c) in mines {
        rows[r][c] = true;
    }
    rows
}

fn count_mines(g: &Grid) -> usize {
    g.cells.iter().map(|row| row.iter().filter(|c| **c == Cell::Mine).count()).sum()
}

fn brute_count(g: &Grid, r: usize, c: usize) -> u8 {
    let n = g.size as isize;
    let mut k = 0;
    for dr in -1isize..=1 {
        for dc in -1isize..=1 {
            if dr == 0 && dc == 0 {
                continue;
            }
            let (rr, cc) = (r as isize + dr, c as isize + dc);
            if rr >= 0 && rr < n && cc >= 0 && cc < n && g.cells[rr as usize][cc as usize] == Cell::Mine {
                k += 1;
            }
        }
    }
    k
}

#[test]
fn generated_grid_has_exact_mine_count() {
    for &(n, b) in &[(1usize, 0usize), (2, 3), (3, 1), (5, 12), (8, 63), (10, 50)] {
        for _ in 0..20 {
            let g = Grid::generate(n, b).unwrap();
            assert_eq!(g.size, n);
            assert_eq!(g.mines, b);
            assert_eq!(count_mines(&g), b);
        }
    }
}

#[test]
fn generated_counts_match_brute_force() {
    for _ in 0..20 {
        let g = Grid::generate(7, 15).unwrap();
        for r in 0..7 {
            for c in 0..7 {
                if g.cells[r][c] != Cell::Mine {
                    assert_eq!(g.cells[r][c], Cell::Count(brute_count(&g, r, c)));
                }
            }
        }
    }
}

#[test]
fn place_mines_places_exactly_the_requested_number() {
    let mut rng = rand::thread_rng();
    for &(n, b) in &[(1usize, 1usize), (3, 9), (4, 0), (6, 20)] {
        let l = place_mines(n, b, &mut rng);
        assert_eq!(l.len(), n);
        assert!(l.iter().all(|row| row.len() == n));
        let k: usize = l.iter().map(|row| row.iter().filter(|x| **x).count()).sum();
        assert_eq!(k, b);
    }
}

#[test]
fn generated_layouts_vary() {
    let first = Grid::generate(6, 10).unwrap().cells;
    let mut differs = false;
    for _ in 0..20 {
        if Grid::generate(6, 10).unwrap().cells != first {
            differs = true;
        }
    }
    assert!(differs);
}

#[test]
fn invalid_configurations_are_refused() {
    assert_eq!(Grid::generate(0, 0).err(), Some(GameError::InvalidConfiguration));
    assert_eq!(Grid::generate(3, 9).err(), Some(GameError::InvalidConfiguration));
    assert_eq!(Grid::generate(3, 10).err(), Some(GameError::InvalidConfiguration));
    assert_eq!(Grid::generate(1, 1).err(), Some(GameError::InvalidConfiguration));
    assert_eq!(Grid::generate(usize::MAX, 0).err(), Some(GameError::InvalidConfiguration));
    assert!(Grid::generate(3, 8).is_ok());
}

#[test]
fn counts_of_a_known_layout() {
    let g = Grid::from_mines(&layout(4, &[(0, 3), (3, 3)]));
    assert_eq!(g.mines, 2);
    let expected = [
        [Some(0), Some(0), Some(1), None],
        [Some(0), Some(0), Some(1), Some(1)],
        [Some(0), Some(0), Some(1), Some(1)],
        [Some(0), Some(0), Some(1), None],
    ];
    for r in 0..4 {
        for c in 0..4 {
            let want = match expected[r][c] {
                Some(k) => Cell::Count(k),
                None => Cell::Mine,
            };
            assert_eq!(g.cell(Point { row: r, column: c }), want);
        }
    }
}

#[test]
fn centre_mine_touches_every_cell() {
    let g = Grid::from_mines(&layout(3, &[(1, 1)]));
    for r in 0..3 {
        for c in 0..3 {
            let want = if r == 1 && c == 1 { Cell::Mine } else { Cell::Count(1) };
            assert_eq!(g.cells[r][c], want);
        }
    }
}

#[test]
fn surrounded_cell_counts_eight() {
    let all: Vec<(usize, usize)> = (0..3).flat_map(|r| (0..3).map(move |c| (r, c))).filter(|p| *p != (1, 1)).collect();
    let g = Grid::from_mines(&layout(3, &all));
    assert_eq!(g.cells[1][1], Cell::Count(8));
    assert_eq!(g.mines, 8);
}

#[test]
fn glyphs() {
    assert_eq!(glyph(Cell::Mine), '*');
    assert_eq!(glyph(Cell::Count(0)), ' ');
    assert_eq!(glyph(Cell::Count(1)), '1');
    assert_eq!(glyph(Cell::Count(5)), '5');
    assert_eq!(glyph(Cell::Count(8)), '8');
}
