use rand::Rng;
use vstd::prelude::*;

verus! {

/// A cell of the board, addressed by row and column.
#[derive(Clone, Copy, Debug, PartialEq, Eq, Structural, Hash)]
pub struct Point {
    pub row: usize,
    pub column: usize,
}

impl Point {
    /// The coordinate pair that contracts speak of.
    pub open spec fn pos(self) -> (int, int) {
        (self.row as int, self.column as int)
    }
}

/// What a cell holds: a mine, or the number of mines among its neighbours.
#[derive(Clone, Copy, Debug, PartialEq, Eq, Structural)]
pub enum Cell {
    Mine,
    Count(u8),
}

/// Why a board or a move is refused.
#[derive(Clone, Copy, Debug, PartialEq, Eq, Structural)]
pub enum GameError {
    /// The side is zero, the number of cells overflows a `usize`, or there
    /// are so many mines that no safe cell is left.
    InvalidConfiguration,
    /// A coordinate lies off the board.
    OutOfBounds,
    /// The game has been won or lost already.
    GameOver,
}

/// The random generator of `rand`, carried through as an opaque value.
#[verifier::external_type_specification]
#[verifier::external_body]
pub struct ExThreadRng(rand::rngs::ThreadRng);

/// Relies on `rand::thread_rng`: hands out the generator of the current thread.
#[verifier::external_body]
fn new_rng() -> rand::rngs::ThreadRng {
    rand::thread_rng()
}

/// Relies on `Rng::gen_range`, which returns a value of the half-open range
/// `0..bound` and panics only when that range is empty.
#[verifier::external_body]
fn draw_below(rng: &mut rand::rngs::ThreadRng, bound: usize) -> (r: usize)
    requires
        bound > 0,
    ensures
        r < bound,
{
    rng.gen_range(0..bound)
}

/// The digit that shows a count from 1 to 8.
pub open spec fn digit_of(n: u8) -> char {
    if n == 1 {
        '1'
    } else if n == 2 {
        '2'
    } else if n == 3 {
        '3'
    } else if n == 4 {
        '4'
    } else if n == 5 {
        '5'
    } else if n == 6 {
        '6'
    } else if n == 7 {
        '7'
    } else {
        '8'
    }
}

/// How an uncovered cell shows: `*` for a mine, a blank for no mine around,
/// else the digit of its count.
pub open spec fn glyph_of(c: Cell) -> char {
    match c {
        Cell::Mine => '*',
        Cell::Count(n) => if n == 0 {
            ' '
        } else {
            digit_of(n)
        },
    }
}

/// How an uncovered cell shows.
pub fn glyph(c: Cell) -> (ch: char)
    ensures
        ch == glyph_of(c),
{
    match c {
        Cell::Mine => '*',
        Cell::Count(0) => ' ',
        Cell::Count(1) => '1',
        Cell::Count(2) => '2',
        Cell::Count(3) => '3',
        Cell::Count(4) => '4',
        Cell::Count(5) => '5',
        Cell::Count(6) => '6',
        Cell::Count(7) => '7',
        Cell::Count(_) => '8',
    }
}

/// Two distinct cells that touch, diagonals included.
pub open spec fn adjacent(a: (int, int), b: (int, int)) -> bool {
    &&& a != b
    &&& -1 <= a.0 - b.0 <= 1
    &&& -1 <= a.1 - b.1 <= 1
}

/// Mines in one row of a layout.
pub open spec fn row_mines(row: Seq<bool>) -> nat
    decreases row.len(),
{
    if row.len() == 0 {
        0
    } else {
        row_mines(row.drop_last()) + if row.last() {
            1nat
        } else {
            0nat
        }
    }
}

/// Mines in the rows of a layout.
pub open spec fn layout_mines(rows: Seq<Seq<bool>>) -> nat
    decreases rows.len(),
{
    if rows.len() == 0 {
        0
    } else {
        layout_mines(rows.drop_last()) + row_mines(rows.last())
    }
}

/// A layout as rows of booleans.
pub open spec fn layout_view(layout: Seq<Vec<bool>>) -> Seq<Seq<bool>> {
    layout.map_values(|row: Vec<bool>| row@)
}

/// A layout: a square of booleans, `true` where a mine lies.
pub open spec fn is_layout(rows: Seq<Seq<bool>>, size: int) -> bool {
    &&& rows.len() == size
    &&& forall|r: int| 0 <= r < size ==> (#[trigger] rows[r]).len() == size
}

/// 1 where `(r, c)` lies on a square layout of side `n` and holds a mine, else 0.
pub open spec fn mine_bit(rows: Seq<Seq<bool>>, n: int, r: int, c: int) -> int {
    if 0 <= r < n && 0 <= c < n && rows[r][c] {
        1
    } else {
        0
    }
}

/// The number of mines among the up to eight neighbours of `(r, c)`.
pub open spec fn mines_around(rows: Seq<Seq<bool>>, n: int, r: int, c: int) -> int {
    mine_bit(rows, n, r - 1, c - 1) + mine_bit(rows, n, r - 1, c) + mine_bit(rows, n, r - 1, c + 1)
        + mine_bit(rows, n, r, c - 1) + mine_bit(rows, n, r, c + 1) + mine_bit(rows, n, r + 1, c - 1)
        + mine_bit(rows, n, r + 1, c) + mine_bit(rows, n, r + 1, c + 1)
}

/// The content of a cell of a layout once counts are filled in.
pub open spec fn cell_of(rows: Seq<Seq<bool>>, n: int, r: int, c: int) -> Cell {
    if rows[r][c] {
        Cell::Mine
    } else {
        Cell::Count(mines_around(rows, n, r, c) as u8)
    }
}

/// A square board with every cell's content fixed.
pub struct Grid {
    pub size: usize,
    /// How many cells hold a mine.
    pub mines: usize,
    pub cells: Vec<Vec<Cell>>,
}

impl Grid {
    pub open spec fn in_bounds(&self, p: (int, int)) -> bool {
        0 <= p.0 < self.size && 0 <= p.1 < self.size
    }

    pub open spec fn at(&self, p: (int, int)) -> Cell {
        self.cells@[p.0]@[p.1]
    }

    /// The mine layout underneath the board.
    pub open spec fn layout(&self) -> Seq<Seq<bool>> {
        Seq::new(self.size as nat, |r: int| Seq::new(self.size as nat, |c: int| self.at((r, c)) == Cell::Mine))
    }

    pub open spec fn is_mine(&self, p: (int, int)) -> bool {
        self.in_bounds(p) && self.at(p) == Cell::Mine
    }

    /// A safe cell with no mine around it.
    pub open spec fn is_empty(&self, p: (int, int)) -> bool {
        self.in_bounds(p) && self.at(p) == Cell::Count(0)
    }

    /// The board is square, holds `mines` mines, and every safe cell holds the
    /// number of mines among its neighbours.
    pub open spec fn wf(&self) -> bool {
        &&& self.cells@.len() == self.size
        &&& forall|r: int| 0 <= r < self.size ==> (#[trigger] self.cells@[r])@.len() == self.size
        &&& forall|p: (int, int)|
            self.in_bounds(p) ==> #[trigger] self.at(p) == cell_of(self.layout(), self.size as int, p.0, p.1)
        &&& self.mines == layout_mines(self.layout())
    }
}

proof fn lemma_mines_around_bounds(lv: Seq<Seq<bool>>, n: int, r: int, c: int)
    ensures
        0 <= mines_around(lv, n, r, c) <= 8,
        (mines_around(lv, n, r, c) as u8) as int == mines_around(lv, n, r, c),
{
}

proof fn lemma_zero_count_neighbours(lv: Seq<Seq<bool>>, n: int, a: (int, int), b: (int, int))
    requires
        mines_around(lv, n, a.0, a.1) == 0,
        adjacent(a, b),
    ensures
        mine_bit(lv, n, b.0, b.1) == 0,
{
}

proof fn lemma_cell_index(i: int, j: int, n: int)
    requires
        0 <= i < n,
        0 <= j < n,
    ensures
        i * n + j < n * n,
        i * n + n == (i + 1) * n,
        0 <= i * n,
{
    assert(i * n + j < n * n) by (nonlinear_arith)
        requires
            0 <= i < n,
            0 <= j < n,
    ;
    assert(i * n + n == (i + 1) * n) by (nonlinear_arith);
    assert(0 <= i * n) by (nonlinear_arith)
        requires
            0 <= i < n,
    ;
}

/// 1 if the neighbour of `(r, c)` at offset `(dr - 1, dc - 1)` is a mine.
fn neighbour_bit(layout: &Vec<Vec<bool>>, r: usize, c: usize, dr: usize, dc: usize) -> (b: u8)
    requires
        is_layout(layout_view(layout@), layout@.len() as int),
        r < layout@.len(),
        c < layout@.len(),
        dr <= 2,
        dc <= 2,
    ensures
        b as int == mine_bit(layout_view(layout@), layout@.len() as int, r + dr - 1, c + dc - 1),
{
    let n = layout.len();
    if (dr == 0 && r == 0) || (dc == 0 && c == 0) {
        return 0;
    }
    let rr: usize = if dr == 0 { r - 1 } else { r + (dr - 1) };
    let cc: usize = if dc == 0 { c - 1 } else { c + (dc - 1) };
    if rr < n && cc < n {
        assert(layout_view(layout@)[rr as int] == layout@[rr as int]@);
        if layout[rr][cc] { 1 } else { 0 }
    } else {
        0
    }
}

/// The number of mines around `(r, c)` in a layout.
fn count_around(layout: &Vec<Vec<bool>>, r: usize, c: usize) -> (k: u8)
    requires
        is_layout(layout_view(layout@), layout@.len() as int),
        r < layout@.len(),
        c < layout@.len(),
    ensures
        k as int == mines_around(layout_view(layout@), layout@.len() as int, r as int, c as int),
{
    neighbour_bit(layout, r, c, 0, 0) + neighbour_bit(layout, r, c, 0, 1) + neighbour_bit(layout, r, c, 0, 2)
        + neighbour_bit(layout, r, c, 1, 0) + neighbour_bit(layout, r, c, 1, 2) + neighbour_bit(layout, r, c, 2, 0)
        + neighbour_bit(layout, r, c, 2, 1) + neighbour_bit(layout, r, c, 2, 2)
}

/// Chooses `bombs` distinct cells of a `size` by `size` square at random.
///
/// Cells are visited in order; each becomes a mine with probability
/// `needed / remaining`, which places exactly `bombs` mines.
pub fn place_mines(size: usize, bombs: usize, rng: &mut rand::rngs::ThreadRng) -> (layout: Vec<Vec<bool>>)
    requires
        size * size <= usize::MAX,
        bombs <= size * size,
    ensures
        is_layout(layout_view(layout@), size as int),
        layout_mines(layout_view(layout@)) == bombs,
{
    let n = size;
    let mut layout: Vec<Vec<bool>> = Vec::new();
    let mut needed: usize = bombs;
    let mut remaining: usize = n * n;
    let mut r: usize = 0;
    while r < n
        invariant
            n * n <= usize::MAX,
            r <= n,
            layout@.len() == r,
            forall|i: int| 0 <= i < r ==> (#[trigger] layout@[i])@.len() == n,
            remaining + r * n == n * n,
            needed <= remaining,
            layout_mines(layout_view(layout@)) + needed == bombs,
        decreases n - r,
    {
        let mut row: Vec<bool> = Vec::new();
        let mut c: usize = 0;
        proof {
            lemma_cell_index(r as int, 0, n as int);
        }
        while c < n
            invariant
                n * n <= usize::MAX,
                r < n,
                c <= n,
                row@.len() == c,
                remaining + r * n + c == n * n,
                needed <= remaining,
                layout_mines(layout_view(layout@)) + row_mines(row@) + needed == bombs,
            decreases n - c,
        {
            proof {
                lemma_cell_index(r as int, c as int, n as int);
            }
            let draw = draw_below(rng, remaining);
            let mine = draw < needed;
            proof {
                assert(row@.push(mine).drop_last() == row@);
            }
            row.push(mine);
            if mine {
                needed = needed - 1;
            }
            remaining = remaining - 1;
            c = c + 1;
        }
        proof {
            lemma_cell_index(r as int, 0, n as int);
            let lv = layout_view(layout@);
            assert(layout_view(layout@.push(row)).drop_last() == lv);
        }
        layout.push(row);
        r = r + 1;
    }
    assert(layout_view(layout@).len() == n);
    layout
}

impl Grid {
    /// A fresh board of side `size` with `bombs` mines at random distinct cells.
    ///
    /// Refused when `size` is zero, when `size * size` does not fit in a
    /// `usize`, or when `bombs` leaves no safe cell.
    pub fn generate(size: usize, bombs: usize) -> (res: Result<Grid, GameError>)
        ensures
            res is Err <==> (size == 0 || size * size > usize::MAX || bombs >= size * size),
            res is Err ==> res == Err::<Grid, GameError>(GameError::InvalidConfiguration),
            res matches Ok(g) ==> {
                &&& g.wf()
                &&& g.size == size
                &&& g.mines == bombs
                &&& layout_mines(g.layout()) == bombs
                &&& forall|p: (int, int)|
                    g.in_bounds(p) && !g.is_mine(p) ==> #[trigger] g.at(p) == Cell::Count(
                        mines_around(g.layout(), size as int, p.0, p.1) as u8,
                    )
            },
    {
        if size == 0 {
            return Err(GameError::InvalidConfiguration);
        }
        let total = match size.checked_mul(size) {
            Some(t) => t,
            None => {
                return Err(GameError::InvalidConfiguration);
            },
        };
        if bombs >= total {
            return Err(GameError::InvalidConfiguration);
        }
        let mut rng = new_rng();
        let layout = place_mines(size, bombs, &mut rng);
        Ok(Grid::from_mines(&layout))
    }

    /// The content of cell `p`.
    pub fn cell(&self, p: Point) -> (c: Cell)
        requires
            self.wf(),
            self.in_bounds(p.pos()),
        ensures
            c == self.at(p.pos()),
    {
        self.cells[p.row][p.column]
    }

    /// The neighbours of a cell with no mine around it are safe.
    pub proof fn lemma_empty_neighbours_safe(&self, a: (int, int), b: (int, int))
        requires
            self.wf(),
            self.is_empty(a),
            adjacent(a, b),
        ensures
            !self.is_mine(b),
    {
        let n = self.size as int;
        let lv = self.layout();
        assert(self.at(a) == cell_of(lv, n, a.0, a.1));
        assert(lv[a.0][a.1] == (self.at(a) == Cell::Mine));
        lemma_mines_around_bounds(lv, n, a.0, a.1);
        lemma_zero_count_neighbours(lv, n, a, b);
        if self.is_mine(b) {
            assert(lv[b.0][b.1] == (self.at(b) == Cell::Mine));
        }
    }

    /// Builds the board over a square mine layout: a mine where the layout
    /// holds `true`, and the count of neighbouring mines everywhere else.
    pub fn from_mines(layout: &Vec<Vec<bool>>) -> (g: Grid)
        requires
            is_layout(layout_view(layout@), layout@.len() as int),
            layout@.len() * layout@.len() <= usize::MAX,
        ensures
            g.wf(),
            g.size == layout@.len(),
            g.layout() == layout_view(layout@),
            g.mines == layout_mines(layout_view(layout@)),
    {
        let n = layout.len();
        let ghost lv = layout_view(layout@);
        let mut cells: Vec<Vec<Cell>> = Vec::new();
        let mut mines: usize = 0;
        let mut r: usize = 0;
        while r < n
            invariant
                n == layout@.len(),
                lv == layout_view(layout@),
                is_layout(lv, n as int),
                n * n <= usize::MAX,
                r <= n,
                cells@.len() == r,
                forall|i: int| 0 <= i < r ==> (#[trigger] cells@[i])@.len() == n,
                forall|i: int, j: int|
                    0 <= i < r && 0 <= j < n ==> #[trigger] cells@[i]@[j] == cell_of(lv, n as int, i, j),
                mines == layout_mines(lv.take(r as int)),
                mines <= r * n,
            decreases n - r,
        {
            let mut row: Vec<Cell> = Vec::new();
            let mut c: usize = 0;
            while c < n
                invariant
                    n == layout@.len(),
                    lv == layout_view(layout@),
                    is_layout(lv, n as int),
                    n * n <= usize::MAX,
                    r < n,
                    c <= n,
                    row@.len() == c,
                    forall|j: int| 0 <= j < c ==> #[trigger] row@[j] == cell_of(lv, n as int, r as int, j),
                    mines == layout_mines(lv.take(r as int)) + row_mines(lv[r as int].take(c as int)),
                    mines <= r * n + c,
                decreases n - c,
            {
                proof {
                    lemma_cell_index(r as int, c as int, n as int);
                    assert(lv[r as int] == layout@[r as int]@);
                    assert(lv[r as int].take(c + 1).drop_last() == lv[r as int].take(c as int));
                }
                if layout[r][c] {
                    row.push(Cell::Mine);
                    mines = mines + 1;
                } else {
                    let k = count_around(layout, r, c);
                    row.push(Cell::Count(k));
                }
                c = c + 1;
            }
            proof {
                lemma_cell_index(r as int, 0, n as int);
                assert(lv.take(r + 1).drop_last() == lv.take(r as int));
                assert(lv[r as int].take(n as int) == lv[r as int]);
            }
            cells.push(row);
            r = r + 1;
        }
        let g = Grid { size: n, mines, cells };
        assert(g.layout() =~~= lv) by {
            assert forall|i: int, j: int| 0 <= i < n && 0 <= j < n implies g.layout()[i][j] == lv[i][j] by {
                assert(g.at((i, j)) == cell_of(lv, n as int, i, j));
            }
        }
        assert(lv.take(n as int) == lv);
        g
    }
}

} // verus!
