use minesweeper::cascade::{search_map, Visible};
use minesweeper::grid::{Grid, Point};

fn layout(n: usize, mines: &[(usize, usize)]) -> Vec<Vec<bool>> {
    let mut rows = vec![vec![false; n]; n];
    for &(r, c) in mines {
        rows[r][c] = true;
    }
    rows
}

fn pt(row: usize, column: usize) -> Point {
    Point { row, column }
}

fn shown(v: &Visible) -> Vec<(usize, usize)> {
    let mut s: Vec<(usize, usize)> = v.cells().iter().map(|p| (p.row, p.column)).collect();
    s.sort();
    s
}

#[test]
fn visible_set_basics() {
    let mut v = Visible::new(3);
    assert_eq!(v.len(), 0);
    assert!(!v.contains(pt(1, 2)));
    v.insert(pt(1, 2));
    assert!(v.contains(pt(1, 2)));
    assert!(!v.contains(pt(2, 1)));
    assert!(!v.contains(pt(5, 5)));
    assert_eq!(v.len(), 1);
}

#[test]
fn empty_board_opens_entirely() {
    let g = Grid::from_mines(&layout(3, &[]));
    for r in 0..3 {
        for c in 0..3 {
            let mut v = Visible::new(3);
            search_map(&g, pt(r, c), &mut v);
            assert_eq!(v.len(), 9);
        }
    }
}

#[test]
fn numbered_cell_opens_alone() {
    let g = Grid::from_mines(&layout(4, &[(1, 1)]));
    let mut v = Visible::new(4);
    search_map(&g, pt(0, 0), &mut v);
    assert_eq!(shown(&v), vec![(0, 0)]);
}

#[test]
fn cascade_stops_at_numbered_border() {
    let g = Grid::from_mines(&layout(4, &[(0, 3), (3, 3)]));
    let mut v = Visible::new(4);
    search_map(&g, pt(3, 0), &mut v);
    let want: Vec<(usize, usize)> = (0..4).flat_map(|r| (0..3).map(move |c| (r, c))).collect();
    assert_eq!(shown(&v), want);
    assert!(!v.contains(pt(1, 3)));
    assert!(!v.contains(pt(0, 3)));
}

#[test]
fn cascade_does_not_cross_a_wall_of_mines() {
    let wall: Vec<(usize, usize)> = (0..5).map(|r| (r, 2)).collect();
    let g = Grid::from_mines(&layout(5, &wall));
    let mut v = Visible::new(5);
    search_map(&g, pt(0, 0), &mut v);
    let want: Vec<(usize, usize)> = (0..5).flat_map(|r| (0..2).map(move |c| (r, c))).collect();
    assert_eq!(shown(&v), want);
}

#[test]
fn cascade_reaches_around_a_corner() {
    let g = Grid::from_mines(&layout(4, &[(1, 1)]));
    let mut v = Visible::new(4);
    search_map(&g, pt(3, 3), &mut v);
    let want = vec![
        (0, 2), (0, 3), (1, 2), (1, 3), (2, 0), (2, 1), (2, 2), (2, 3), (3, 0), (3, 1), (3, 2), (3, 3),
    ];
    assert_eq!(shown(&v), want);
}

#[test]
fn uncovering_again_changes_nothing() {
    let g = Grid::from_mines(&layout(4, &[(0, 3), (3, 3)]));
    let mut v = Visible::new(4);
    search_map(&g, pt(3, 0), &mut v);
    let before = shown(&v);
    for &(r, c) in &[(3, 0), (0, 0), (1, 2), (2, 1)] {
        search_map(&g, pt(r, c), &mut v);
        assert_eq!(shown(&v), before);
        assert_eq!(v.len(), 12);
    }
}

#[test]
fn cells_already_shown_are_kept() {
    let g = Grid::from_mines(&layout(4, &[(0, 3), (3, 3)]));
    let mut v = Visible::new(4);
    search_map(&g, pt(1, 3), &mut v);
    assert_eq!(shown(&v), vec![(1, 3)]);
    search_map(&g, pt(0, 0), &mut v);
    assert_eq!(v.len(), 13);
    assert!(v.contains(pt(1, 3)));
}
