use minesweeper::game::{Game, Status};
use minesweeper::grid::{GameError, Grid, Point};

fn layout(n: usize, mines: &[(usize, usize)]) -> Vec<Vec<bool>> {
    let mut rows = vec![vec![false; n]; n];
    for &(r, c) in mines {
        rows[r][c] = true;
    }
    rows
}

fn pt(row: usize, column: usize) -> Point {
    Point { row, column }
}

fn board(n: usize, mines: &[(usize, usize)]) -> Game {
    Game::with_grid(Grid::from_mines(&layout(n, mines))).unwrap()
}

#[test]
fn single_cell_board_wins_at_once() {
    let mut g = Game::new(1, 0).unwrap();
    assert_eq!(g.status(), Status::AwaitingFirstMove);
    assert_eq!(g.play(pt(0, 0)), Ok(Status::Won));
    assert_eq!(g.visible.len(), 1);
    assert_eq!(g.glyph_at(pt(0, 0)), ' ');
}

#[test]
fn mine_free_board_wins_on_any_first_move() {
    for r in 0..3 {
        for c in 0..3 {
            let mut g = Game::new(3, 0).unwrap();
            assert_eq!(g.play(pt(r, c)), Ok(Status::Won));
            assert_eq!(g.visible.len(), 9);
        }
    }
}

#[test]
fn first_move_next_to_a_mine_lays_out_a_new_board() {
    let mut g = board(3, &[(1, 1)]);
    assert_eq!(g.play(pt(0, 0)), Ok(Status::AwaitingFirstMove));
    assert_eq!(g.status(), Status::AwaitingFirstMove);
    assert_eq!(g.size(), 3);
    assert_eq!(g.grid.mines, 1);
    assert_eq!(g.visible.len(), 0);
}

#[test]
fn first_move_on_a_mine_lays_out_a_new_board() {
    let mut g = board(3, &[(1, 1)]);
    assert_eq!(g.play(pt(1, 1)), Ok(Status::AwaitingFirstMove));
    assert_eq!(g.visible.len(), 0);
}

#[test]
fn rerolled_first_move_eventually_starts() {
    let mut g = Game::new(4, 3).unwrap();
    let mut tries = 0;
    while g.status() == Status::AwaitingFirstMove && tries < 10_000 {
        g.play(pt(0, 0)).unwrap();
        tries += 1;
    }
    assert_ne!(g.status(), Status::AwaitingFirstMove);
    assert!(g.visible.contains(pt(0, 0)));
    assert_eq!(g.grid.mines, 3);
}

#[test]
fn first_move_on_empty_cell_starts_normally() {
    let mut g = board(4, &[(0, 3), (3, 3)]);
    assert_eq!(g.play(pt(0, 0)), Ok(Status::Playing));
    assert_eq!(g.visible.len(), 12);
    assert_eq!(g.glyph_at(pt(0, 2)), '1');
    assert_eq!(g.glyph_at(pt(1, 1)), ' ');
    assert_eq!(g.glyph_at(pt(1, 3)), '/');
    assert_eq!(g.glyph_at(pt(0, 3)), '/');
}

#[test]
fn first_move_with_corner_mine_wins_at_once() {
    let mut g = board(3, &[(2, 2)]);
    assert_eq!(g.play(pt(0, 0)), Ok(Status::Won));
    assert_eq!(g.visible.len(), 8);
}

#[test]
fn uncovering_every_safe_cell_wins() {
    let mut g = board(4, &[(0, 3), (3, 3)]);
    assert_eq!(g.play(pt(0, 0)), Ok(Status::Playing));
    assert_eq!(g.play(pt(1, 3)), Ok(Status::Playing));
    assert_eq!(g.visible.len(), 13);
    assert_eq!(g.play(pt(2, 3)), Ok(Status::Won));
    assert_eq!(g.visible.len(), 14);
}

#[test]
fn replaying_a_shown_cell_changes_nothing() {
    let mut g = board(4, &[(0, 3), (3, 3)]);
    g.play(pt(0, 0)).unwrap();
    assert_eq!(g.play(pt(0, 0)), Ok(Status::Playing));
    assert_eq!(g.play(pt(2, 2)), Ok(Status::Playing));
    assert_eq!(g.visible.len(), 12);
}

#[test]
fn stepping_on_a_mine_loses_and_shows_every_mine() {
    let mut g = board(4, &[(0, 3), (3, 3)]);
    g.play(pt(0, 0)).unwrap();
    assert_eq!(g.play(pt(0, 3)), Ok(Status::Lost));
    assert_eq!(g.glyph_at(pt(0, 3)), '*');
    assert_eq!(g.glyph_at(pt(3, 3)), '*');
    assert_eq!(g.glyph_at(pt(1, 3)), '1');
    assert_eq!(g.glyph_at(pt(0, 0)), ' ');
}

#[test]
fn moves_after_the_end_are_refused() {
    let mut g = board(4, &[(0, 3), (3, 3)]);
    g.play(pt(0, 0)).unwrap();
    g.play(pt(3, 3)).unwrap();
    assert_eq!(g.play(pt(1, 3)), Err(GameError::GameOver));
    assert_eq!(g.status(), Status::Lost);
    let mut w = Game::new(1, 0).unwrap();
    w.play(pt(0, 0)).unwrap();
    assert_eq!(w.play(pt(0, 0)), Err(GameError::GameOver));
}

#[test]
fn off_board_moves_are_refused() {
    let mut g = board(4, &[(0, 3), (3, 3)]);
    assert_eq!(g.play(pt(4, 0)), Err(GameError::OutOfBounds));
    assert_eq!(g.play(pt(0, 7)), Err(GameError::OutOfBounds));
    assert_eq!(g.status(), Status::AwaitingFirstMove);
    g.play(pt(0, 0)).unwrap();
    assert_eq!(g.play(pt(9, 9)), Err(GameError::OutOfBounds));
    assert_eq!(g.visible.len(), 12);
}

#[test]
fn invalid_games_are_refused() {
    assert_eq!(Game::new(0, 0).err(), Some(GameError::InvalidConfiguration));
    assert_eq!(Game::new(2, 4).err(), Some(GameError::InvalidConfiguration));
    let full = Grid::from_mines(&layout(2, &[(0, 0), (0, 1), (1, 0), (1, 1)]));
    assert_eq!(Game::with_grid(full).err(), Some(GameError::InvalidConfiguration));
}
