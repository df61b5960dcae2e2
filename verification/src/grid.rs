use vstd::prelude::*;

verus! {

/// The state of one grid square.
#[derive(Clone, Copy, Debug, PartialEq, Eq, Structural)]
pub enum Cell {
    /// Impassable; the initial state of every interior square.
    Wall,
    /// Passable, carved-open passage.
    Way,
    /// Passable and currently marked as part of a search path.
    Route,
    /// Passable; the unique destination square.
    Goal,
}

/// Number of positions `i < n` of `s` that hold the cell state `c`.
pub open spec fn count_below(s: Seq<Cell>, c: Cell, n: int) -> int
    decreases n,
{
    if n <= 0 {
        0
    } else {
        count_below(s, c, n - 1) + if s[n - 1] == c {
            1int
        } else {
            0int
        }
    }
}

/// Number of squares of `s` that hold the cell state `c`.
pub open spec fn count_of(s: Seq<Cell>, c: Cell) -> int {
    count_below(s, c, s.len() as int)
}

pub proof fn lemma_count_below_bounds(s: Seq<Cell>, c: Cell, n: int)
    requires
        0 <= n <= s.len(),
    ensures
        0 <= count_below(s, c, n) <= n,
    decreases n,
{
    if n > 0 {
        lemma_count_below_bounds(s, c, n - 1);
    }
}

/// Replacing the cell at `i` shifts a count by the difference at `i`, and
/// leaves counts over prefixes that stop before `i` alone.
pub proof fn lemma_count_update(s: Seq<Cell>, c: Cell, i: int, v: Cell, n: int)
    requires
        0 <= i < s.len(),
        0 <= n <= s.len(),
    ensures
        count_below(s.update(i, v), c, n) == count_below(s, c, n) + if i < n {
            (if v == c { 1int } else { 0int }) - (if s[i] == c { 1int } else { 0int })
        } else {
            0int
        },
    decreases n,
{
    if n > 0 {
        lemma_count_update(s, c, i, v, n - 1);
    }
}

/// A state that occurs nowhere in `s` counts zero.
pub proof fn lemma_count_absent(s: Seq<Cell>, c: Cell, n: int)
    requires
        0 <= n <= s.len(),
        forall|i: int| 0 <= i < s.len() ==> s[i] != c,
    ensures
        count_below(s, c, n) == 0,
    decreases n,
{
    if n > 0 {
        lemma_count_absent(s, c, n - 1);
    }
}

pub proof fn lemma_count_pos(s: Seq<Cell>, c: Cell, i: int)
    requires
        0 <= i < s.len(),
        s[i] == c,
    ensures
        count_of(s, c) >= 1,
{
    lemma_count_below_pos(s, c, i, s.len() as int);
}

proof fn lemma_count_below_pos(s: Seq<Cell>, c: Cell, i: int, n: int)
    requires
        0 <= i < n <= s.len(),
        s[i] == c,
    ensures
        count_below(s, c, n) >= 1,
    decreases n,
{
    if i == n - 1 {
        lemma_count_below_bounds(s, c, n - 1);
    } else {
        lemma_count_below_pos(s, c, i, n - 1);
    }
}

pub proof fn lemma_flat_index_bounds(x: int, y: int, w: int, h: int)
    by (nonlinear_arith)
    requires
        0 <= x < w,
        0 <= y < h,
    ensures
        0 <= x * h + y < w * h,
{
}

pub proof fn lemma_flat_index_ne(x1: int, y1: int, x2: int, y2: int, h: int)
    by (nonlinear_arith)
    requires
        0 <= y1 < h,
        0 <= y2 < h,
        x1 != x2 || y1 != y2,
    ensures
        x1 * h + y1 != x2 * h + y2,
{
}

/// Every flat index comes from exactly one coordinate pair.
pub proof fn lemma_flat_unindex(i: int, w: int, h: int)
    by (nonlinear_arith)
    requires
        0 < h,
        0 <= i < w * h,
    ensures
        0 <= i / h < w,
        0 <= i % h < h,
        (i / h) * h + i % h == i,
{
}

/// A rectangular maze grid, indexed by column `x` and row `y` and stored
/// row-within-column in one flat vector.
pub struct Maze {
    pub width: usize,
    pub height: usize,
    pub cells: Vec<Cell>,
}

impl Maze {
    /// The cell at column `x`, row `y`.
    pub open spec fn at(self, x: int, y: int) -> Cell {
        self.cells@[x * self.height + y]
    }

    pub open spec fn in_bounds(self, x: int, y: int) -> bool {
        0 <= x < self.width && 0 <= y < self.height
    }

    /// Odd dimensions of at least five, and storage of the right size.
    pub open spec fn wf(self) -> bool {
        &&& 5 <= self.width
        &&& 5 <= self.height
        &&& self.width % 2 == 1
        &&& self.height % 2 == 1
        &&& self.cells@.len() == self.width * self.height
    }

    /// The flat cell storage, for stating counting properties.
    pub open spec fn flat(self) -> Seq<Cell> {
        self.cells@
    }

    pub open spec fn on_border(self, x: int, y: int) -> bool {
        x == 0 || y == 0 || x == self.width - 1 || y == self.height - 1
    }

    /// The whole outer border is open passage.
    pub open spec fn border_open(self) -> bool {
        forall|x: int, y: int|
            self.in_bounds(x, y) && self.on_border(x, y) ==> #[trigger] self.at(x, y)
                == Cell::Way
    }

    /// Squares whose two coordinates are both odd are never opened: they are
    /// the lattice of wall posts that keeps parallel corridors apart.
    pub open spec fn odd_posts_walled(self) -> bool {
        forall|x: int, y: int|
            self.in_bounds(x, y) && x % 2 == 1 && y % 2 == 1 ==> #[trigger] self.at(x, y)
                == Cell::Wall
    }

    fn flat_index(&self, x: usize, y: usize) -> (i: usize)
        requires
            self.wf(),
            x < self.width,
            y < self.height,
        ensures
            i == x * self.height + y,
            i < self.cells@.len(),
    {
        proof {
            lemma_flat_index_bounds(x as int, y as int, self.width as int, self.height as int);
        }
        let n = self.cells.len();
        x * self.height + y
    }

    /// Read one cell; bounds are the caller's responsibility.
    pub fn get(&self, x: usize, y: usize) -> (c: Cell)
        requires
            self.wf(),
            x < self.width,
            y < self.height,
        ensures
            c == self.at(x as int, y as int),
    {
        let i = self.flat_index(x, y);
        self.cells[i]
    }

    /// Write one cell; bounds are the caller's responsibility.
    pub fn set(&mut self, x: usize, y: usize, c: Cell)
        requires
            old(self).wf(),
            x < old(self).width,
            y < old(self).height,
        ensures
            final(self).wf(),
            final(self).width == old(self).width,
            final(self).height == old(self).height,
            final(self).flat() == old(self).flat().update(
                x as int * old(self).height + y as int,
                c,
            ),
            final(self).at(x as int, y as int) == c,
            forall|i: int, j: int|
                old(self).in_bounds(i, j) && (i != x || j != y) ==> #[trigger] final(self).at(i, j)
                    == old(self).at(i, j),
    {
        let i = self.flat_index(x, y);
        self.cells.set(i, c);
        proof {
            lemma_flat_index_bounds(x as int, y as int, self.width as int, self.height as int);
            assert forall|i2: int, j2: int|
                old(self).in_bounds(i2, j2) && (i2 != x || j2 != y) implies #[trigger] self.at(
                i2,
                j2,
            ) == old(self).at(i2, j2) by {
                lemma_flat_index_bounds(i2, j2, self.width as int, self.height as int);
                lemma_flat_index_ne(i2, j2, x as int, y as int, self.height as int);
            }
        }
    }

    /// Allocate a grid of the given odd dimensions, all walls inside an open
    /// border ring.
    pub fn new(width: usize, height: usize) -> (m: Maze)
        requires
            5 <= width,
            5 <= height,
            width % 2 == 1,
            height % 2 == 1,
            width * height <= usize::MAX,
        ensures
            m.wf(),
            m.width == width,
            m.height == height,
            m.border_open(),
            forall|x: int, y: int|
                m.in_bounds(x, y) && !m.on_border(x, y) ==> #[trigger] m.at(x, y) == Cell::Wall,
    {
        let n = width * height;
        let mut cells: Vec<Cell> = Vec::new();
        let mut k: usize = 0;
        while k < n
            invariant
                k <= n,
                cells@.len() == k,
                forall|i: int| 0 <= i < k ==> cells@[i] == Cell::Wall,
            decreases n - k,
        {
            cells.push(Cell::Wall);
            k = k + 1;
        }
        let mut m = Maze { width, height, cells };
        proof {
            assert forall|x: int, y: int| m.in_bounds(x, y) implies #[trigger] m.at(x, y)
                == Cell::Wall by {
                lemma_flat_index_bounds(x, y, width as int, height as int);
            }
        }
        let mut x: usize = 0;
        while x < width
            invariant
                m.wf(),
                m.width == width,
                m.height == height,
                x <= width,
                forall|i: int, j: int|
                    m.in_bounds(i, j) ==> #[trigger] m.at(i, j) == (if (j == 0 || j == height - 1)
                        && i < x {
                        Cell::Way
                    } else {
                        Cell::Wall
                    }),
            decreases width - x,
        {
            m.set(x, 0, Cell::Way);
            m.set(x, height - 1, Cell::Way);
            x = x + 1;
        }
        let mut y: usize = 0;
        while y < height
            invariant
                m.wf(),
                m.width == width,
                m.height == height,
                y <= height,
                forall|i: int, j: int|
                    m.in_bounds(i, j) ==> #[trigger] m.at(i, j) == (if j == 0 || j == height - 1 || (
                    (i == 0 || i == width - 1) && j < y) {
                        Cell::Way
                    } else {
                        Cell::Wall
                    }),
            decreases height - y,
        {
            m.set(0, y, Cell::Way);
            m.set(width - 1, y, Cell::Way);
            y = y + 1;
        }
        m
    }
}

/// In a grid whose odd-odd posts are all walls, no two-by-two block of
/// squares is open everywhere: any such block contains an odd-odd square.
pub proof fn lemma_no_open_block(m: Maze, x: int, y: int)
    requires
        m.wf(),
        m.odd_posts_walled(),
        0 <= x < m.width - 1,
        0 <= y < m.height - 1,
    ensures
        m.at(x, y) == Cell::Wall || m.at(x + 1, y) == Cell::Wall || m.at(x, y + 1) == Cell::Wall
            || m.at(x + 1, y + 1) == Cell::Wall,
{
    let ox = if x % 2 == 1 { x } else { x + 1 };
    let oy = if y % 2 == 1 { y } else { y + 1 };
    assert(ox % 2 == 1 && oy % 2 == 1);
    assert(m.at(ox, oy) == Cell::Wall);
}

} // verus!
