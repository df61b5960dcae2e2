use vstd::prelude::*;

use crate::grid::{
    count_of, lemma_count_below_bounds, lemma_count_update, lemma_flat_index_bounds,
    lemma_flat_index_ne, Cell, Maze,
};
use crate::paths::{
    adjacent, lemma_connected_mono, lemma_connected_self, lemma_connected_step,
    lemma_connected_trans, open_connected,
};
use crate::rng::{rand_range, rand_ratio};

verus! {

/// One of the four axis directions a corridor can grow in.
#[derive(Clone, Copy, Debug, PartialEq, Eq, Structural)]
pub enum Dir {
    Xp,
    Xn,
    Yp,
    Yn,
}

impl Dir {
    pub open spec fn dx(self) -> int {
        match self {
            Dir::Xp => 1,
            Dir::Xn => -1,
            Dir::Yp => 0,
            Dir::Yn => 0,
        }
    }

    pub open spec fn dy(self) -> int {
        match self {
            Dir::Xp => 0,
            Dir::Xn => 0,
            Dir::Yp => 1,
            Dir::Yn => -1,
        }
    }
}

impl Maze {
    /// Even coordinates away from the border ring: the lattice of corridor
    /// junctions that carving starts from and lands on.
    pub open spec fn even_interior(self, x: int, y: int) -> bool {
        &&& 2 <= x <= self.width - 3
        &&& x % 2 == 0
        &&& 2 <= y <= self.height - 3
        &&& y % 2 == 0
    }

    /// Direction `d` can be carved from `(x, y)`: the square two steps away
    /// is still a wall, so opening it cannot close a loop.
    pub open spec fn can_carve(self, x: int, y: int, d: Dir) -> bool {
        self.at(x + 2 * d.dx(), y + 2 * d.dy()) == Cell::Wall
    }

    pub open spec fn some_carve(self, x: int, y: int) -> bool {
        exists|d: Dir| #[trigger] self.can_carve(x, y, d)
    }

    /// A frontier square: an open junction from which carving can continue.
    pub open spec fn frontier(self, x: int, y: int) -> bool {
        self.even_interior(x, y) && self.at(x, y) == Cell::Way && self.some_carve(x, y)
    }

    /// Every square is wall or open passage: the state during carving,
    /// before the goal is placed.
    pub open spec fn all_wall_or_way(self) -> bool {
        forall|x: int, y: int|
            self.in_bounds(x, y) ==> (#[trigger] self.at(x, y) == Cell::Wall || self.at(x, y)
                == Cell::Way)
    }

    /// The ring one step inside the border stays walled: carving never
    /// reaches it, so the open border stays separate from the maze.
    pub open spec fn sheath_walls(self) -> bool {
        forall|x: int, y: int|
            self.in_bounds(x, y) && !self.on_border(x, y) && (x == 1 || x == self.width - 2 || y
                == 1 || y == self.height - 2) ==> #[trigger] self.at(x, y) == Cell::Wall
    }

    /// Everything the carving phase maintains.
    pub open spec fn carving_inv(self) -> bool {
        self.wf() && self.border_open() && self.odd_posts_walled() && self.all_wall_or_way()
            && self.sheath_walls()
    }
}

/// Every open interior square of the maze can be walked to from the seed
/// junction `(sx, sy)` over passable squares: the connectivity that carving
/// maintains incrementally as it grows the maze.
pub open spec fn connected_from(m: Maze, sx: int, sy: int) -> bool {
    &&& m.even_interior(sx, sy)
    &&& m.at(sx, sy) != Cell::Wall
    &&& forall|i: int, j: int|
        m.in_bounds(i, j) && !m.on_border(i, j) && (m.at(i, j) == Cell::Way || m.at(i, j)
            == Cell::Goal) ==> #[trigger] open_connected(m, (sx, sy), (i, j))
}

/// Once no frontier remains, every junction of the lattice is open: walk
/// from the open seed junction toward any other junction two steps at a
/// time; a walled junction beside an open one would itself leave a
/// frontier.
proof fn lemma_lattice_filled(m: Maze, sx: int, sy: int, tx: int, ty: int)
    requires
        m.wf(),
        m.all_wall_or_way(),
        m.even_interior(sx, sy),
        m.even_interior(tx, ty),
        m.at(sx, sy) == Cell::Way,
        forall|x: int, y: int|
            m.even_interior(x, y) && m.at(x, y) == Cell::Way ==> !(#[trigger] m.some_carve(x, y)),
    ensures
        m.at(tx, ty) == Cell::Way,
    decreases (if sx <= tx {
        tx - sx
    } else {
        sx - tx
    }) + (if sy <= ty {
        ty - sy
    } else {
        sy - ty
    }),
{
    if sx == tx && sy == ty {
    } else {
        let d = if tx > sx {
            Dir::Xp
        } else if tx < sx {
            Dir::Xn
        } else if ty > sy {
            Dir::Yp
        } else {
            Dir::Yn
        };
        let nx = sx + 2 * d.dx();
        let ny = sy + 2 * d.dy();
        assert(m.even_interior(nx, ny));
        assert(!m.can_carve(sx, sy, d)) by {
            if m.can_carve(sx, sy, d) {
                assert(m.some_carve(sx, sy));
            }
        }
        assert(m.at(nx, ny) == Cell::Way);
        lemma_lattice_filled(m, nx, ny, tx, ty);
    }
}

impl Maze {

    /// Read the cell two steps away in direction `d`.
    fn probe(&self, x: usize, y: usize, d: Dir) -> (c: Cell)
        requires
            self.wf(),
            self.even_interior(x as int, y as int),
        ensures
            c == self.at(x as int + 2 * d.dx(), y as int + 2 * d.dy()),
    {
        match d {
            Dir::Xp => self.get(x + 2, y),
            Dir::Xn => self.get(x - 2, y),
            Dir::Yp => self.get(x, y + 2),
            Dir::Yn => self.get(x, y - 2),
        }
    }

    /// List every frontier square exactly once, scanning the junction
    /// lattice in a fixed order, so that the generation loop can pick one
    /// uniformly at random.
    pub fn list_xy(&self) -> (r: Vec<(usize, usize)>)
        requires
            self.wf(),
        ensures
            forall|k: int|
                0 <= k < r@.len() ==> self.frontier(#[trigger] r@[k].0 as int, r@[k].1 as int),
            forall|x: int, y: int|
                #[trigger] self.frontier(x, y) ==> r@.contains((x as usize, y as usize)),
            forall|k1: int, k2: int|
                0 <= k1 < k2 < r@.len() ==> #[trigger] r@[k1] != #[trigger] r@[k2],
    {
        let mut xy: Vec<(usize, usize)> = Vec::new();
        let w = self.width;
        let h = self.height;
        let mut x: usize = 2;
        while x < w - 2
            invariant
                self.wf(),
                w == self.width,
                h == self.height,
                2 <= x <= w - 1,
                x % 2 == 0,
                forall|k: int|
                    0 <= k < xy@.len() ==> self.frontier(
                        #[trigger] xy@[k].0 as int,
                        xy@[k].1 as int,
                    ),
                forall|i: int, j: int|
                    #[trigger] self.frontier(i, j) && i < x ==> xy@.contains((
                        i as usize,
                        j as usize,
                    )),
                forall|k: int| 0 <= k < xy@.len() ==> (#[trigger] xy@[k]).0 < x,
                forall|k1: int, k2: int|
                    0 <= k1 < k2 < xy@.len() ==> #[trigger] xy@[k1] != #[trigger] xy@[k2],
            decreases w - x,
        {
            let mut y: usize = 2;
            while y < h - 2
                invariant
                    self.wf(),
                    w == self.width,
                    h == self.height,
                    2 <= x <= w - 3,
                    x % 2 == 0,
                    2 <= y <= h - 1,
                    y % 2 == 0,
                    forall|k: int|
                        0 <= k < xy@.len() ==> self.frontier(
                            #[trigger] xy@[k].0 as int,
                            xy@[k].1 as int,
                        ),
                    forall|i: int, j: int|
                        #[trigger] self.frontier(i, j) && i < x ==> xy@.contains((
                            i as usize,
                            j as usize,
                        )),
                    forall|j: int|
                        #[trigger] self.frontier(x as int, j) && j < y ==> xy@.contains((
                            x,
                            j as usize,
                        )),
                    forall|k: int|
                        0 <= k < xy@.len() ==> ((#[trigger] xy@[k]).0 < x || (xy@[k].0 == x
                            && xy@[k].1 < y)),
                    forall|k1: int, k2: int|
                        0 <= k1 < k2 < xy@.len() ==> #[trigger] xy@[k1] != #[trigger] xy@[k2],
                decreases h - y,
            {
                let is_way = self.get(x, y) == Cell::Way;
                let c1 = self.probe(x, y, Dir::Xp) == Cell::Wall;
                let c2 = self.probe(x, y, Dir::Xn) == Cell::Wall;
                let c3 = self.probe(x, y, Dir::Yp) == Cell::Wall;
                let c4 = self.probe(x, y, Dir::Yn) == Cell::Wall;
                if is_way && (c1 || c2 || c3 || c4) {
                    proof {
                        if c1 {
                            assert(self.can_carve(x as int, y as int, Dir::Xp));
                        } else if c2 {
                            assert(self.can_carve(x as int, y as int, Dir::Xn));
                        } else if c3 {
                            assert(self.can_carve(x as int, y as int, Dir::Yp));
                        } else {
                            assert(self.can_carve(x as int, y as int, Dir::Yn));
                        }
                        assert(self.frontier(x as int, y as int));
                    }
                    push_frontier(self, &mut xy, x, y);
                }
                proof {
                    if self.frontier(x as int, y as int) {
                        let d = choose|d: Dir| self.can_carve(x as int, y as int, d);
                        if d == Dir::Xp {
                            assert(c1);
                        } else if d == Dir::Xn {
                            assert(c2);
                        } else if d == Dir::Yp {
                            assert(c3);
                        } else {
                            assert(c4);
                        }
                        assert(xy@.contains((x, y)));
                    }
                    assert forall|j: int|
                        #[trigger] self.frontier(x as int, j) && j < y + 2 implies xy@.contains(
                        (x, j as usize),
                    ) by {
                        if j < y {
                        } else {
                            assert(j == y || j == y + 1);
                            assert(j % 2 == 0);
                        }
                    }
                }
                y = y + 2;
            }
            proof {
                assert forall|i: int, j: int|
                    #[trigger] self.frontier(i, j) && i < x + 2 implies xy@.contains(
                    (i as usize, j as usize),
                ) by {
                    if x <= i {
                        assert(i == x as int);
                        assert(j <= self.height - 3);
                        assert(j < y);
                    }
                }
            }
            x = x + 2;
        }
        proof {
            assert forall|i: int, j: int| #[trigger] self.frontier(i, j) implies xy@.contains(
                (i as usize, j as usize),
            ) by {
                assert(i < x);
            }
        }
        xy
    }

    /// Grow one randomized corridor from the junction `(x, y)`: repeatedly
    /// pick a still-legal direction, preferring to continue straight, and
    /// open the two squares toward the next junction. Carving only ever
    /// turns walls into passage, and when a legal direction exists at entry
    /// it opens at least one wall.
    #[verifier::loop_isolation(false)]
    #[verifier::rlimit(100)]
    pub fn make_way(&mut self, rng: &mut rand::rngs::StdRng, x: usize, y: usize)
        requires
            old(self).carving_inv(),
            old(self).even_interior(x as int, y as int),
            old(self).at(x as int, y as int) == Cell::Way,
        ensures
            final(self).carving_inv(),
            final(self).width == old(self).width,
            final(self).height == old(self).height,
            forall|i: int, j: int|
                old(self).in_bounds(i, j) ==> #[trigger] final(self).at(i, j) == old(self).at(i, j)
                    || (old(self).at(i, j) == Cell::Wall && final(self).at(i, j) == Cell::Way),
            forall|i: int, j: int|
                old(self).in_bounds(i, j) && old(self).at(i, j) == Cell::Wall && final(self).at(
                    i,
                    j,
                ) == Cell::Way ==> #[trigger] open_connected(
                    *final(self),
                    (x as int, y as int),
                    (i, j),
                ),
            !old(self).some_carve(x as int, y as int) ==> final(self).flat() == old(self).flat(),
            count_of(final(self).flat(), Cell::Wall) <= count_of(old(self).flat(), Cell::Wall),
            old(self).some_carve(x as int, y as int) ==> count_of(final(self).flat(), Cell::Wall)
                < count_of(old(self).flat(), Cell::Wall),
    {
        let longer = if self.width > self.height {
            self.width
        } else {
            self.height
        };
        let bound = rand_range(rng, 1, longer / 3 + 1) + 1;
        let mut cx = x;
        let mut cy = y;
        let mut last: Option<Dir> = None;
        let mut step: usize = 0;
        proof {
            lemma_connected_self(*self, (x as int, y as int));
        }
        while step < bound
            invariant
                self.carving_inv(),
                self.width == old(self).width,
                self.height == old(self).height,
                self.even_interior(cx as int, cy as int),
                step <= bound,
                step == 0 ==> cx == x && cy == y && self.flat() == old(self).flat(),
                step > 0 ==> old(self).some_carve(x as int, y as int),
                self.at(x as int, y as int) == Cell::Way,
                open_connected(*self, (x as int, y as int), (cx as int, cy as int)),
                forall|i: int, j: int|
                    old(self).in_bounds(i, j) && old(self).at(i, j) == Cell::Wall && self.at(i, j)
                        == Cell::Way ==> #[trigger] open_connected(
                        *self,
                        (x as int, y as int),
                        (i, j),
                    ),
                forall|i: int, j: int|
                    old(self).in_bounds(i, j) ==> #[trigger] self.at(i, j) == old(self).at(i, j)
                        || (old(self).at(i, j) == Cell::Wall && self.at(i, j) == Cell::Way),
                count_of(self.flat(), Cell::Wall) <= count_of(old(self).flat(), Cell::Wall),
                step > 0 ==> count_of(self.flat(), Cell::Wall) < count_of(
                    old(self).flat(),
                    Cell::Wall,
                ),
            decreases bound - step,
        {
            let mut ways: Vec<Dir> = Vec::new();
            if self.probe(cx, cy, Dir::Xp) == Cell::Wall {
                ways.push(Dir::Xp);
            }
            if self.probe(cx, cy, Dir::Xn) == Cell::Wall {
                ways.push(Dir::Xn);
            }
            if self.probe(cx, cy, Dir::Yp) == Cell::Wall {
                ways.push(Dir::Yp);
            }
            if self.probe(cx, cy, Dir::Yn) == Cell::Wall {
                ways.push(Dir::Yn);
            }
            proof {
                assert forall|k: int| 0 <= k < ways@.len() implies self.can_carve(
                    cx as int,
                    cy as int,
                    #[trigger] ways@[k],
                ) by {}
            }
            if ways.len() == 0 {
                proof {
                    assert forall|d: Dir| !(#[trigger] self.can_carve(
                        cx as int,
                        cy as int,
                        d,
                    )) by {
                        match d {
                            Dir::Xp => {},
                            Dir::Xn => {},
                            Dir::Yp => {},
                            Dir::Yn => {},
                        }
                    }
                    if step == 0 && old(self).some_carve(x as int, y as int) {
                        let d = choose|d: Dir|
                            old(self).can_carve(x as int, y as int, d);
                        assert(self.can_carve(x as int, y as int, d));
                    }
                }
                return;
            }
            let i = rand_range(rng, 0, ways.len());
            let pick = ways[i];
            let dir = match last {
                None => pick,
                Some(od) => {
                    if rand_ratio(rng, 2, 5) {
                        pick
                    } else {
                        if self.probe(cx, cy, od) == Cell::Wall {
                            od
                        } else {
                            pick
                        }
                    }
                },
            };
            last = Some(dir);
            proof {
                assert(self.can_carve(cx as int, cy as int, dir));
                if step == 0 {
                    assert(old(self).can_carve(x as int, y as int, dir));
                    assert(old(self).some_carve(x as int, y as int));
                }
            }
            let ghost pre = *self;
            match dir {
                Dir::Xp => {
                    self.set(cx + 1, cy, Cell::Way);
                    self.set(cx + 2, cy, Cell::Way);
                },
                Dir::Xn => {
                    self.set(cx - 1, cy, Cell::Way);
                    self.set(cx - 2, cy, Cell::Way);
                },
                Dir::Yp => {
                    self.set(cx, cy + 1, Cell::Way);
                    self.set(cx, cy + 2, Cell::Way);
                },
                Dir::Yn => {
                    self.set(cx, cy - 1, Cell::Way);
                    self.set(cx, cy - 2, Cell::Way);
                },
            }
            proof {
                assert(pre.flat().len() == pre.width * pre.height);
                assert(old(self).flat().len() == old(self).width * old(self).height);
                lemma_carve_pair(pre, *self, cx as int, cy as int, dir, old(self).flat());
                assert forall|i: int, j: int|
                    old(self).in_bounds(i, j) implies #[trigger] self.at(i, j) == old(self).at(
                    i,
                    j,
                ) || (old(self).at(i, j) == Cell::Wall && self.at(i, j) == Cell::Way) by {
                    assert(pre.at(i, j) == old(self).at(i, j) || (old(self).at(i, j) == Cell::Wall
                        && pre.at(i, j) == Cell::Way));
                }
                let hgt = pre.height as int;
                let start = (x as int, y as int);
                let curp = (cx as int, cy as int);
                let midp = (cx as int + dir.dx(), cy as int + dir.dy());
                let tgtp = (cx as int + 2 * dir.dx(), cy as int + 2 * dir.dy());
                assert forall|i: int, j: int|
                    pre.in_bounds(i, j) && #[trigger] pre.at(i, j) != Cell::Wall implies self.at(
                    i,
                    j,
                ) != Cell::Wall by {
                    assert(self.at(i, j) == pre.at(i, j) || (pre.at(i, j) == Cell::Wall
                        && self.at(i, j) == Cell::Way));
                }
                lemma_connected_mono(pre, *self, start, curp);
                assert(self.at(x as int, y as int) == Cell::Way);
                lemma_connected_step(*self, start, curp, midp);
                lemma_connected_step(*self, start, midp, tgtp);
                assert forall|i: int, j: int|
                    old(self).in_bounds(i, j) && old(self).at(i, j) == Cell::Wall && self.at(i, j)
                        == Cell::Way implies #[trigger] open_connected(*self, start, (i, j)) by {
                    if i == midp.0 && j == midp.1 {
                    } else if i == tgtp.0 && j == tgtp.1 {
                    } else {
                        lemma_flat_index_bounds(i, j, pre.width as int, hgt);
                        lemma_flat_index_ne(i, j, midp.0, midp.1, hgt);
                        lemma_flat_index_ne(i, j, tgtp.0, tgtp.1, hgt);
                        assert(self.at(i, j) == pre.at(i, j));
                        lemma_connected_mono(pre, *self, start, (i, j));
                    }
                }
            }
            match dir {
                Dir::Xp => {
                    cx = cx + 2;
                },
                Dir::Xn => {
                    cx = cx - 2;
                },
                Dir::Yp => {
                    cy = cy + 2;
                },
                Dir::Yn => {
                    cy = cy - 2;
                },
            }
            step = step + 1;
        }
    }
    /// Carve a complete maze: reset to a walled grid inside an open border,
    /// open a random seed junction and grow corridors from it, keep growing
    /// from randomly chosen frontier squares until the frontier is empty,
    /// then place the goal at the near-corner junction.
    #[verifier::loop_isolation(false)]
    pub fn make_maze(&mut self, rng: &mut rand::rngs::StdRng)
        requires
            5 <= old(self).width,
            5 <= old(self).height,
            old(self).width % 2 == 1,
            old(self).height % 2 == 1,
            old(self).width * old(self).height <= usize::MAX,
        ensures
            final(self).wf(),
            final(self).width == old(self).width,
            final(self).height == old(self).height,
            final(self).border_open(),
            final(self).odd_posts_walled(),
            final(self).at(final(self).width - 3, final(self).height - 3) == Cell::Goal,
            forall|x: int, y: int|
                final(self).in_bounds(x, y) && !(x == old(self).width - 3 && y == old(self).height
                    - 3) ==> #[trigger] final(self).at(x, y) == Cell::Wall || final(self).at(x, y)
                    == Cell::Way,
            final(self).sheath_walls(),
            forall|x: int, y: int|
                final(self).even_interior(x, y) && !(x == old(self).width - 3 && y == old(
                    self,
                ).height - 3) ==> #[trigger] final(self).at(x, y) == Cell::Way,
            exists|sx: int, sy: int| #[trigger] connected_from(*final(self), sx, sy),
    {
        let w = self.width;
        let h = self.height;
        *self = Maze::new(w, h);
        let rx = rand_range(rng, 1, (w - 3) / 2 + 1);
        let ry = rand_range(rng, 1, (h - 3) / 2 + 1);
        let sx = rx * 2;
        let sy = ry * 2;
        proof {
            assert(2 <= sx <= w - 3 && sx as int % 2 == 0);
            assert(2 <= sy <= h - 3 && sy as int % 2 == 0);
        }
        let ghost seed = (sx as int, sy as int);
        let ghost fresh = *self;
        self.set(sx, sy, Cell::Way);
        proof {
            assert(self.carving_inv());
            lemma_connected_self(*self, seed);
            assert forall|i: int, j: int|
                self.in_bounds(i, j) && !self.on_border(i, j) && self.at(i, j)
                    == Cell::Way implies #[trigger] open_connected(*self, seed, (i, j)) by {
                if !(i == seed.0 && j == seed.1) {
                    assert(self.at(i, j) == fresh.at(i, j));
                    assert(fresh.at(i, j) == Cell::Wall);
                }
            }
        }
        let ghost opened = *self;
        self.make_way(rng, sx, sy);
        proof {
            assert(self.at(seed.0, seed.1) == Cell::Way);
            assert forall|i: int, j: int|
                self.in_bounds(i, j) && !self.on_border(i, j) && self.at(i, j)
                    == Cell::Way implies #[trigger] open_connected(*self, seed, (i, j)) by {
                if opened.at(i, j) == Cell::Way {
                    if !(i == seed.0 && j == seed.1) {
                        assert(opened.at(i, j) == fresh.at(i, j));
                        assert(fresh.at(i, j) == Cell::Wall);
                    }
                    assert(i == seed.0 && j == seed.1);
                    lemma_connected_self(*self, seed);
                } else {
                    assert(opened.at(i, j) == Cell::Wall);
                    assert(open_connected(*self, seed, (i, j)));
                }
            }
        }
        let mut xy = self.list_xy();
        while xy.len() > 0
            invariant
                self.carving_inv(),
                self.width == w,
                self.height == h,
                self.at(seed.0, seed.1) == Cell::Way,
                forall|i: int, j: int|
                    self.in_bounds(i, j) && !self.on_border(i, j) && self.at(i, j) == Cell::Way
                        ==> #[trigger] open_connected(*self, seed, (i, j)),
                forall|k: int|
                    0 <= k < xy@.len() ==> self.frontier(#[trigger] xy@[k].0 as int, xy@[k].1 as int),
                forall|x2: int, y2: int|
                    #[trigger] self.frontier(x2, y2) ==> xy@.contains((x2 as usize, y2 as usize)),
            decreases count_of(self.flat(), Cell::Wall),
        {
            let i = rand_range(rng, 0, xy.len());
            let p = xy[i];
            let ghost before = *self;
            proof {
                assert(before.frontier(xy@[i as int].0 as int, xy@[i as int].1 as int));
                assert(before.at(p.0 as int, p.1 as int) == Cell::Way);
            }
            self.set(p.0, p.1, Cell::Way);
            proof {
                // The chosen square was already open: the refresh is a no-op.
                lemma_flat_index_bounds(p.0 as int, p.1 as int, w as int, h as int);
                assert(self.flat() =~= before.flat());
                let d = choose|d: Dir| before.can_carve(p.0 as int, p.1 as int, d);
                assert(self.can_carve(p.0 as int, p.1 as int, d));
                assert(self.some_carve(p.0 as int, p.1 as int));
            }
            let ghost mid = *self;
            self.make_way(rng, p.0, p.1);
            proof {
                lemma_count_below_bounds(self.flat(), Cell::Wall, self.flat().len() as int);
                let fpt = (p.0 as int, p.1 as int);
                assert forall|i: int, j: int|
                    mid.in_bounds(i, j) && #[trigger] mid.at(i, j) != Cell::Wall implies self.at(
                    i,
                    j,
                ) != Cell::Wall by {
                    assert(self.at(i, j) == mid.at(i, j) || (mid.at(i, j) == Cell::Wall
                        && self.at(i, j) == Cell::Way));
                }
                assert forall|i: int, j: int|
                    before.in_bounds(i, j) && #[trigger] before.at(i, j)
                        != Cell::Wall implies mid.at(i, j) != Cell::Wall by {}
                assert(open_connected(before, seed, fpt));
                lemma_connected_mono(before, mid, seed, fpt);
                lemma_connected_mono(mid, *self, seed, fpt);
                assert forall|i: int, j: int|
                    self.in_bounds(i, j) && !self.on_border(i, j) && self.at(i, j)
                        == Cell::Way implies #[trigger] open_connected(*self, seed, (i, j)) by {
                    if mid.at(i, j) == Cell::Way {
                        assert(before.at(i, j) == Cell::Way);
                        assert(open_connected(before, seed, (i, j)));
                        lemma_connected_mono(before, mid, seed, (i, j));
                        lemma_connected_mono(mid, *self, seed, (i, j));
                    } else {
                        assert(mid.at(i, j) == Cell::Wall);
                        assert(open_connected(*self, fpt, (i, j)));
                        lemma_connected_trans(*self, seed, fpt, (i, j));
                    }
                }
                assert(mid.at(seed.0, seed.1) == Cell::Way);
                assert(self.at(seed.0, seed.1) == Cell::Way);
            }
            xy = self.list_xy();
        }
        proof {
            assert forall|x3: int, y3: int|
                self.even_interior(x3, y3) && self.at(x3, y3) == Cell::Way implies !(
            #[trigger] self.some_carve(x3, y3)) by {
                if self.some_carve(x3, y3) {
                    assert(self.frontier(x3, y3));
                    assert(xy@.contains((x3 as usize, y3 as usize)));
                    let k = choose|k: int|
                        0 <= k < xy@.len() && xy@[k] == (x3 as usize, y3 as usize);
                }
            }
            assert forall|x2: int, y2: int|
                self.even_interior(x2, y2) implies #[trigger] self.at(x2, y2) == Cell::Way by {
                lemma_lattice_filled(*self, seed.0, seed.1, x2, y2);
            }
        }
        let gx = w - 3;
        let gy = h - 3;
        let ghost done = *self;
        self.set(gx, gy, Cell::Goal);
        proof {
            assert forall|i2: int, j2: int|
                done.in_bounds(i2, j2) && #[trigger] done.at(i2, j2)
                    != Cell::Wall implies self.at(i2, j2) != Cell::Wall by {}
            assert(done.even_interior(gx as int, gy as int));
            assert(done.at(gx as int, gy as int) == Cell::Way);
            assert forall|i: int, j: int|
                self.in_bounds(i, j) && !self.on_border(i, j) && (self.at(i, j) == Cell::Way
                    || self.at(i, j) == Cell::Goal) implies #[trigger] open_connected(
                *self,
                seed,
                (i, j),
            ) by {
                if !(i == gx && j == gy) {
                    assert(self.at(i, j) == done.at(i, j));
                }
                assert(done.at(i, j) == Cell::Way);
                assert(open_connected(done, seed, (i, j)));
                lemma_connected_mono(done, *self, seed, (i, j));
            }
            assert forall|x2: int, y2: int|
                self.even_interior(x2, y2) && !(x2 == gx && y2 == gy) implies #[trigger] self.at(
                x2,
                y2,
            ) == Cell::Way by {
                assert(done.at(x2, y2) == Cell::Way);
            }
            assert forall|x2: int, y2: int|
                self.in_bounds(x2, y2) && !self.on_border(x2, y2) && (x2 == 1 || x2 == w - 2 || y2
                    == 1 || y2 == h - 2) implies #[trigger] self.at(x2, y2) == Cell::Wall by {
                assert(done.at(x2, y2) == Cell::Wall);
                assert(self.at(x2, y2) == done.at(x2, y2));
            }
            assert(self.even_interior(seed.0, seed.1));
            assert(self.at(seed.0, seed.1) != Cell::Wall);
            assert(connected_from(*self, seed.0, seed.1));
        }
    }
}

/// Push a frontier square and keep both membership invariants of the scan.
fn push_frontier(m: &Maze, xy: &mut Vec<(usize, usize)>, x: usize, y: usize)
    requires
        m.frontier(x as int, y as int),
        forall|k: int|
            0 <= k < old(xy)@.len() ==> m.frontier(#[trigger] old(xy)@[k].0 as int, old(
                xy,
            )@[k].1 as int),
    ensures
        final(xy)@ == old(xy)@.push((x, y)),
        forall|k: int|
            0 <= k < final(xy)@.len() ==> m.frontier(
                #[trigger] final(xy)@[k].0 as int,
                final(xy)@[k].1 as int,
            ),
        forall|p: (usize, usize)| old(xy)@.contains(p) ==> final(xy)@.contains(p),
        final(xy)@.contains((x, y)),
{
    xy.push((x, y));
    proof {
        assert forall|p: (usize, usize)| old(xy)@.contains(p) implies xy@.contains(p) by {
            let k = choose|k: int| 0 <= k < old(xy)@.len() && old(xy)@[k] == p;
            assert(xy@[k] == p);
        }
        assert(xy@[old(xy)@.len() as int] == (x, y));
    }
}

/// Opening the two squares of one carving step in direction `d` keeps the
/// carving invariant, only opens walls, and strictly lowers the wall count.
proof fn lemma_carve_pair(pre: Maze, post: Maze, cx: int, cy: int, d: Dir, base: Seq<Cell>)
    requires
        pre.carving_inv(),
        pre.even_interior(cx, cy),
        pre.can_carve(cx, cy, d),
        post.width == pre.width,
        post.height == pre.height,
        post.flat() == pre.flat().update((cx + d.dx()) * pre.height + (cy + d.dy()), Cell::Way)
            .update((cx + 2 * d.dx()) * pre.height + (cy + 2 * d.dy()), Cell::Way),
        base.len() == pre.flat().len(),
        count_of(pre.flat(), Cell::Wall) <= count_of(base, Cell::Wall),
    ensures
        post.carving_inv(),
        post.even_interior(cx + 2 * d.dx(), cy + 2 * d.dy()),
        pre.in_bounds(cx + d.dx(), cy + d.dy()),
        post.at(cx + d.dx(), cy + d.dy()) == Cell::Way,
        post.at(cx + 2 * d.dx(), cy + 2 * d.dy()) == Cell::Way,
        adjacent((cx, cy), (cx + d.dx(), cy + d.dy())),
        adjacent((cx + d.dx(), cy + d.dy()), (cx + 2 * d.dx(), cy + 2 * d.dy())),
        forall|i: int, j: int|
            pre.in_bounds(i, j) ==> #[trigger] post.at(i, j) == pre.at(i, j) || (pre.at(i, j)
                == Cell::Wall && post.at(i, j) == Cell::Way),
        count_of(post.flat(), Cell::Wall) < count_of(base, Cell::Wall),
{
    let w = pre.width as int;
    let h = pre.height as int;
    let tx = cx + 2 * d.dx();
    let ty = cy + 2 * d.dy();
    let mx = cx + d.dx();
    let my = cy + d.dy();
    // The landing square holds a wall, so it is not on the open border.
    assert(pre.in_bounds(tx, ty));
    assert(!pre.on_border(tx, ty)) by {
        if pre.on_border(tx, ty) {
            assert(pre.at(tx, ty) == Cell::Way);
        }
    }
    assert(tx % 2 == 0 && ty % 2 == 0);
    assert(2 <= tx <= w - 3 && 2 <= ty <= h - 3);
    assert(2 <= mx <= w - 3 && 2 <= my <= h - 3);
    let mi = mx * h + my;
    let ti = tx * h + ty;
    lemma_flat_index_bounds(mx, my, w, h);
    lemma_flat_index_bounds(tx, ty, w, h);
    lemma_flat_index_ne(mx, my, tx, ty, h);
    let s0 = pre.flat();
    let s1 = s0.update(mi, Cell::Way);
    let s2 = s1.update(ti, Cell::Way);
    // Pointwise: each square is unchanged or was a wall now opened.
    assert forall|i: int, j: int|
        pre.in_bounds(i, j) implies #[trigger] post.at(i, j) == pre.at(i, j) || (pre.at(i, j)
        == Cell::Wall && post.at(i, j) == Cell::Way) by {
        lemma_flat_index_bounds(i, j, w, h);
        if i == mx && j == my {
        } else {
            lemma_flat_index_ne(i, j, mx, my, h);
        }
        if i == tx && j == ty {
        } else {
            lemma_flat_index_ne(i, j, tx, ty, h);
        }
        if pre.at(i, j) == Cell::Wall {
            assert(pre.all_wall_or_way());
        }
    }
    // The carving invariant carries over square by square.
    assert forall|i: int, j: int|
        post.in_bounds(i, j) && post.on_border(i, j) implies #[trigger] post.at(i, j)
        == Cell::Way by {
        lemma_flat_index_bounds(i, j, w, h);
        if !(i == mx && j == my) {
            lemma_flat_index_ne(i, j, mx, my, h);
        }
        if !(i == tx && j == ty) {
            lemma_flat_index_ne(i, j, tx, ty, h);
        }
        assert(pre.at(i, j) == Cell::Way);
    }
    assert forall|i: int, j: int|
        post.in_bounds(i, j) && !post.on_border(i, j) && (i == 1 || i == w - 2 || j == 1 || j == h
            - 2) implies #[trigger] post.at(i, j) == Cell::Wall by {
        lemma_flat_index_bounds(i, j, w, h);
        lemma_flat_index_ne(i, j, mx, my, h);
        lemma_flat_index_ne(i, j, tx, ty, h);
        assert(pre.at(i, j) == Cell::Wall);
    }
    assert forall|i: int, j: int|
        post.in_bounds(i, j) && i % 2 == 1 && j % 2 == 1 implies #[trigger] post.at(i, j)
        == Cell::Wall by {
        lemma_flat_index_bounds(i, j, w, h);
        lemma_flat_index_ne(i, j, mx, my, h);
        lemma_flat_index_ne(i, j, tx, ty, h);
        assert(pre.at(i, j) == Cell::Wall);
    }
    assert forall|i: int, j: int|
        post.in_bounds(i, j) implies (#[trigger] post.at(i, j) == Cell::Wall || post.at(i, j)
        == Cell::Way) by {
        lemma_flat_index_bounds(i, j, w, h);
        if !(i == mx && j == my) {
            lemma_flat_index_ne(i, j, mx, my, h);
        }
        if !(i == tx && j == ty) {
            lemma_flat_index_ne(i, j, tx, ty, h);
        }
    }
    // The wall count falls: the landing square was a wall and is opened.
    lemma_count_update(s0, Cell::Wall, mi, Cell::Way, s0.len() as int);
    lemma_count_update(s1, Cell::Wall, ti, Cell::Way, s1.len() as int);
    assert(s1[ti] == s0[ti]);
    assert(s0[ti] == Cell::Wall);
    assert(count_of(s2, Cell::Wall) < count_of(s0, Cell::Wall));
}

} // verus!
