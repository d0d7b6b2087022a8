use vstd::prelude::*;

use crate::cascade::{closed, hidden_in, hidden_rows, lemma_uncover_keeps_closed, search_map, uncovered_from, Visible};
use crate::grid::{glyph, glyph_of, layout_mines, row_mines, Cell, GameError, Grid, Point};

verus! {

/// Where a game stands.
#[derive(Clone, Copy, Debug, PartialEq, Eq, Structural)]
pub enum Status {
    /// The board is laid out; the first move has not yet found an empty cell.
    AwaitingFirstMove,
    Playing,
    /// Every safe cell is uncovered.
    Won,
    /// A mine was uncovered.
    Lost,
}

/// Covered cells of a mask row that hold no mine in the layout row.
spec fn covered_safe_in(m: Seq<bool>, l: Seq<bool>) -> nat
    decreases m.len(),
{
    if m.len() == 0 {
        0
    } else {
        covered_safe_in(m.drop_last(), l.drop_last()) + if !m.last() && !l.last() {
            1nat
        } else {
            0nat
        }
    }
}

/// Covered cells of a mask that hold no mine in the layout.
spec fn covered_safe_rows(m: Seq<Vec<bool>>, l: Seq<Seq<bool>>) -> nat
    decreases m.len(),
{
    if m.len() == 0 {
        0
    } else {
        covered_safe_rows(m.drop_last(), l.drop_last()) + covered_safe_in(m.last()@, l.last())
    }
}

proof fn lemma_split_row(m: Seq<bool>, l: Seq<bool>)
    requires
        m.len() == l.len(),
        forall|j: int| 0 <= j < m.len() && #[trigger] l[j] ==> !m[j],
    ensures
        hidden_in(m) == row_mines(l) + covered_safe_in(m, l),
        covered_safe_in(m, l) == 0 <==> forall|j: int| 0 <= j < m.len() ==> #[trigger] m[j] || l[j],
    decreases m.len(),
{
    if m.len() > 0 {
        let (m0, l0) = (m.drop_last(), l.drop_last());
        assert forall|j: int| 0 <= j < m0.len() && #[trigger] l0[j] implies !m0[j] by {
            assert(l0[j] == l[j] && m0[j] == m[j]);
        }
        lemma_split_row(m0, l0);
        if covered_safe_in(m, l) == 0 {
            assert forall|j: int| 0 <= j < m.len() implies #[trigger] m[j] || l[j] by {
                if j < m0.len() {
                    assert(m0[j] || l0[j]);
                }
            }
        }
        if forall|j: int| 0 <= j < m.len() ==> #[trigger] m[j] || l[j] {
            assert forall|j: int| 0 <= j < m0.len() implies #[trigger] m0[j] || l0[j] by {
                assert(m[j] || l[j]);
            }
            assert(m[m.len() - 1] || l[m.len() - 1]);
        }
    }
}

proof fn lemma_split_rows(m: Seq<Vec<bool>>, l: Seq<Seq<bool>>)
    requires
        m.len() == l.len(),
        forall|i: int| 0 <= i < m.len() ==> (#[trigger] m[i])@.len() == l[i].len(),
        forall|i: int, j: int| 0 <= i < m.len() && 0 <= j < l[i].len() && #[trigger] l[i][j] ==> !m[i]@[j],
    ensures
        hidden_rows(m) == layout_mines(l) + covered_safe_rows(m, l),
        covered_safe_rows(m, l) == 0 <==> forall|i: int, j: int|
            0 <= i < m.len() && 0 <= j < l[i].len() ==> #[trigger] m[i]@[j] || l[i][j],
    decreases m.len(),
{
    if m.len() > 0 {
        let (m0, l0) = (m.drop_last(), l.drop_last());
        let k = m.len() - 1;
        assert forall|i: int, j: int| 0 <= i < m0.len() && 0 <= j < l0[i].len() && #[trigger] l0[i][j] implies !m0[i]@[j] by {
            assert(l0[i] == l[i] && m0[i] == m[i]);
        }
        assert forall|i: int| 0 <= i < m0.len() implies (#[trigger] m0[i])@.len() == l0[i].len() by {
            assert(l0[i] == l[i] && m0[i] == m[i]);
        }
        lemma_split_rows(m0, l0);
        assert forall|j: int| 0 <= j < m[k]@.len() && #[trigger] l[k][j] implies !m[k]@[j] by {}
        lemma_split_row(m[k]@, l[k]);
        if covered_safe_rows(m, l) == 0 {
            assert forall|i: int, j: int| 0 <= i < m.len() && 0 <= j < l[i].len() implies #[trigger] m[i]@[j] || l[i][j] by {
                if i < k {
                    assert(l0[i] == l[i] && m0[i] == m[i]);
                    assert(m0[i]@[j] || l0[i][j]);
                } else {
                    assert(m[k]@[j] || l[k][j]);
                }
            }
        }
        if forall|i: int, j: int| 0 <= i < m.len() && 0 <= j < l[i].len() ==> #[trigger] m[i]@[j] || l[i][j] {
            assert forall|i: int, j: int| 0 <= i < m0.len() && 0 <= j < l0[i].len() implies #[trigger] m0[i]@[j] || l0[i][j] by {
                assert(l0[i] == l[i] && m0[i] == m[i]);
                assert(m[i]@[j] || l[i][j]);
            }
            assert forall|j: int| 0 <= j < m[k]@.len() implies #[trigger] m[k]@[j] || l[k][j] by {
                assert(m[k]@[j] || l[k][j]);
            }
        }
    }
}

/// One game: its board, the cells uncovered so far, and where it stands.
pub struct Game {
    pub grid: Grid,
    pub visible: Visible,
    pub status: Status,
}

impl Game {
    /// How many cells are safe: uncovering all of them wins.
    pub open spec fn target(&self) -> int {
        self.grid.size * self.grid.size - self.grid.mines
    }

    pub open spec fn wf(&self) -> bool {
        &&& self.grid.wf()
        &&& self.visible.wf()
        &&& self.visible.size == self.grid.size
        &&& self.grid.size > 0
        &&& self.grid.size * self.grid.size <= usize::MAX
        &&& self.grid.mines < self.grid.size * self.grid.size
        &&& closed(&self.grid, self.visible@)
        &&& forall|p: (int, int)| #[trigger] self.visible@.contains(p) ==> !self.grid.is_mine(p)
        &&& self.status == Status::AwaitingFirstMove ==> self.visible@ == Set::<(int, int)>::empty()
        &&& self.status == Status::Playing ==> self.visible@.len() != self.target()
        &&& self.status == Status::Won ==> self.visible@.len() == self.target()
    }

    /// A game over a fresh random board of side `size` with `bombs` mines,
    /// waiting for its first move.
    pub fn new(size: usize, bombs: usize) -> (res: Result<Game, GameError>)
        ensures
            res is Err <==> (size == 0 || size * size > usize::MAX || bombs >= size * size),
            res is Err ==> res == Err::<Game, GameError>(GameError::InvalidConfiguration),
            res matches Ok(game) ==> {
                &&& game.wf()
                &&& game.grid.size == size
                &&& game.grid.mines == bombs
                &&& game.status == Status::AwaitingFirstMove
                &&& game.visible@ == Set::<(int, int)>::empty()
            },
    {
        match Grid::generate(size, bombs) {
            Ok(grid) => Game::with_grid(grid),
            Err(e) => Err(e),
        }
    }

    /// A game over a given board, waiting for its first move. Refused when
    /// the board is empty or has no safe cell.
    pub fn with_grid(grid: Grid) -> (res: Result<Game, GameError>)
        requires
            grid.wf(),
            grid.size * grid.size <= usize::MAX,
        ensures
            res is Err <==> (grid.size == 0 || grid.mines >= grid.size * grid.size),
            res is Err ==> res == Err::<Game, GameError>(GameError::InvalidConfiguration),
            res matches Ok(game) ==> {
                &&& game.wf()
                &&& game.grid == grid
                &&& game.status == Status::AwaitingFirstMove
                &&& game.visible@ == Set::<(int, int)>::empty()
            },
    {
        if grid.size == 0 || grid.mines >= grid.size * grid.size {
            return Err(GameError::InvalidConfiguration);
        }
        let visible = Visible::new(grid.size);
        Ok(Game { grid, visible, status: Status::AwaitingFirstMove })
    }

    /// Lays out a fresh random board of the same size and mine count, with
    /// nothing uncovered.
    pub fn reroll(&mut self)
        requires
            old(self).wf(),
            old(self).status == Status::AwaitingFirstMove,
        ensures
            final(self).wf(),
            final(self).status == Status::AwaitingFirstMove,
            final(self).grid.size == old(self).grid.size,
            final(self).grid.mines == old(self).grid.mines,
            final(self).visible@ == Set::<(int, int)>::empty(),
    {
        match Grid::generate(self.grid.size, self.grid.mines) {
            Ok(grid) => {
                self.grid = grid;
            },
            Err(_) => {},
        }
    }

    /// Whether the game has ended, won or lost.
    pub open spec fn over(&self) -> bool {
        self.status == Status::Won || self.status == Status::Lost
    }

    /// Plays the move `p`.
    ///
    /// Refused once the game is over, and for a point off the board. A first
    /// move that does not land on an empty cell lays out a new board and waits
    /// for the first move again. A later move on a mine loses. Otherwise the
    /// cell is uncovered, with its cascade, and the game is won exactly when
    /// every safe cell is uncovered.
    pub fn play(&mut self, p: Point) -> (res: Result<Status, GameError>)
        requires
            old(self).wf(),
        ensures
            final(self).wf(),
            old(self).over() ==> res == Err::<Status, GameError>(GameError::GameOver) && *final(self) == *old(self),
            !old(self).over() && !old(self).grid.in_bounds(p.pos()) ==> res == Err::<Status, GameError>(
                GameError::OutOfBounds,
            ) && *final(self) == *old(self),
            res is Ok <==> !old(self).over() && old(self).grid.in_bounds(p.pos()),
            res matches Ok(s) ==> s == final(self).status,
            ({
                let (a, b) = (*old(self), *final(self));
                a.status == Status::AwaitingFirstMove && a.grid.in_bounds(p.pos()) && a.grid.at(p.pos())
                    != Cell::Count(0) ==> {
                    &&& b.status == Status::AwaitingFirstMove
                    &&& b.grid.size == a.grid.size
                    &&& b.grid.mines == a.grid.mines
                    &&& b.visible@ == Set::<(int, int)>::empty()
                }
            }),
            ({
                let (a, b) = (*old(self), *final(self));
                a.status == Status::Playing && a.grid.is_mine(p.pos()) ==> {
                    &&& b.status == Status::Lost
                    &&& b.grid == a.grid
                    &&& b.visible@ == a.visible@
                }
            }),
            ({
                let (a, b) = (*old(self), *final(self));
                a.grid.in_bounds(p.pos()) && ((a.status == Status::AwaitingFirstMove && a.grid.at(p.pos())
                    == Cell::Count(0)) || (a.status == Status::Playing && !a.grid.is_mine(p.pos()))) ==> {
                    &&& b.grid == a.grid
                    &&& uncovered_from(&a.grid, a.visible@, p.pos(), b.visible@)
                    &&& b.status == Status::Won || b.status == Status::Playing
                    &&& b.status == Status::Won <==> b.visible@.len() == a.target()
                }
            }),
    {
        if self.status == Status::Won || self.status == Status::Lost {
            return Err(GameError::GameOver);
        }
        if p.row >= self.grid.size || p.column >= self.grid.size {
            return Err(GameError::OutOfBounds);
        }
        let content = self.grid.cell(p);
        if self.status == Status::AwaitingFirstMove {
            if content != Cell::Count(0) {
                self.reroll();
                return Ok(self.status);
            }
        } else if content == Cell::Mine {
            self.status = Status::Lost;
            return Ok(Status::Lost);
        }
        let ghost before = self.visible@;
        search_map(&self.grid, p, &mut self.visible);
        proof {
            lemma_uncover_keeps_closed(&self.grid, before, p.pos(), self.visible@);
        }
        let total = self.grid.size * self.grid.size - self.grid.mines;
        if self.visible.len() == total {
            self.status = Status::Won;
        } else {
            self.status = Status::Playing;
        }
        Ok(self.status)
    }

    /// What the board shows at `p`: every cell once the game is over, else
    /// the uncovered cells, with `/` on the covered ones.
    pub fn glyph_at(&self, p: Point) -> (ch: char)
        requires
            self.wf(),
            self.grid.in_bounds(p.pos()),
        ensures
            ch == if self.over() || self.visible@.contains(p.pos()) {
                glyph_of(self.grid.at(p.pos()))
            } else {
                '/'
            },
    {
        if self.status == Status::Won || self.status == Status::Lost || self.visible.contains(p) {
            glyph(self.grid.cell(p))
        } else {
            '/'
        }
    }

    /// The side of the board.
    pub fn size(&self) -> (n: usize)
        ensures
            n == self.grid.size,
    {
        self.grid.size
    }

    /// Where the game stands.
    pub fn status(&self) -> (s: Status)
        ensures
            s == self.status,
    {
        self.status
    }
}


/// While the game goes on, it is won exactly when as many cells are
/// uncovered as the board has safe cells, which is the same as having
/// uncovered every safe cell.
pub proof fn lemma_won_iff_every_safe_cell_uncovered(game: &Game)
    requires
        game.wf(),
        game.status == Status::Playing || game.status == Status::Won,
    ensures
        game.status == Status::Won <==> game.visible@.len() == game.target(),
        game.visible@.len() == game.target() <==> forall|p: (int, int)|
            game.grid.in_bounds(p) && !game.grid.is_mine(p) ==> #[trigger] game.visible@.contains(p),
        game.status == Status::Won <==> forall|p: (int, int)|
            game.grid.in_bounds(p) && !game.grid.is_mine(p) ==> #[trigger] game.visible@.contains(p),
{
    let g = &game.grid;
    let v = &game.visible;
    let n = g.size as int;
    let m = v.mask@;
    let l = g.layout();
    assert forall|i: int, j: int| 0 <= i < m.len() && 0 <= j < l[i].len() && #[trigger] l[i][j] implies !m[i]@[j] by {
        assert(g.is_mine((i, j)));
        assert(!game.visible@.contains((i, j)));
    }
    assert forall|i: int| 0 <= i < m.len() implies (#[trigger] m[i])@.len() == l[i].len() by {}
    lemma_split_rows(m, l);
    v.lemma_view_is_positions();
    if game.visible@.len() == game.target() {
        assert forall|p: (int, int)| g.in_bounds(p) && !g.is_mine(p) implies #[trigger] game.visible@.contains(p) by {
            assert(m[p.0]@[p.1] || l[p.0][p.1]);
        }
    }
    if forall|p: (int, int)| g.in_bounds(p) && !g.is_mine(p) ==> #[trigger] game.visible@.contains(p) {
        assert forall|i: int, j: int| 0 <= i < m.len() && 0 <= j < l[i].len() implies #[trigger] m[i]@[j] || l[i][j] by {
            if !l[i][j] {
                assert(!g.is_mine((i, j)));
                assert(game.visible@.contains((i, j)));
            }
        }
    }
}

} // verus!
