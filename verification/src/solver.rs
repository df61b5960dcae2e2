use vstd::prelude::*;

use crate::grid::{
    count_of, lemma_count_absent, lemma_count_below_bounds, lemma_count_pos, lemma_count_update,
    lemma_flat_index_bounds, lemma_flat_index_ne, lemma_flat_unindex, Cell, Maze,
};
use crate::generator::connected_from;
use crate::paths::{
    adjacent, is_open_path, lemma_connected_mono, lemma_connected_self, lemma_connected_step,
    lemma_connected_sym, lemma_connected_trans, open_connected,
};

verus! {

impl Maze {
    /// A goal path: in-bounds squares, each step to an axis neighbor, every
    /// square before the last open passage, and the last one the goal.
    pub open spec fn is_goal_path(self, p: Seq<(int, int)>) -> bool {
        &&& p.len() >= 1
        &&& forall|k: int| 0 <= k < p.len() ==> self.in_bounds((#[trigger] p[k]).0, p[k].1)
        &&& forall|k: int| 0 <= k < p.len() - 1 ==> adjacent(#[trigger] p[k], p[k + 1])
        &&& forall|k: int|
            0 <= k < p.len() - 1 ==> self.at((#[trigger] p[k]).0, p[k].1) == Cell::Way
        &&& self.at(p[p.len() - 1].0, p[p.len() - 1].1) == Cell::Goal
    }

    /// Some goal path starts at `(x, y)`.
    pub open spec fn goal_reachable(self, x: int, y: int) -> bool {
        exists|p: Seq<(int, int)>| #[trigger] self.is_goal_path(p) && p[0] == (x, y)
    }
}

/// An open walk that ends at the unique goal square yields a goal path
/// from the walk's start, in a grid whose other squares are wall or
/// passage.
proof fn lemma_open_to_goal(m: Maze, p: Seq<(int, int)>, gx: int, gy: int)
    requires
        is_open_path(m, p),
        p[p.len() - 1] == (gx, gy),
        m.at(gx, gy) == Cell::Goal,
        forall|i: int, j: int|
            m.in_bounds(i, j) && !(i == gx && j == gy) ==> (#[trigger] m.at(i, j) == Cell::Wall
                || m.at(i, j) == Cell::Way),
    ensures
        m.goal_reachable(p[0].0, p[0].1),
    decreases p.len(),
{
    if p.len() == 1 || p[0] == (gx, gy) {
        assert(p[0] == (gx, gy));
        let q = seq![(gx, gy)];
        assert(q[0] == (gx, gy));
        assert(m.is_goal_path(q));
        assert(m.goal_reachable(p[0].0, p[0].1));
    } else {
        let t = p.subrange(1, p.len() as int);
        assert forall|k: int| 0 <= k < t.len() implies #[trigger] t[k] == p[k + 1] by {}
        assert(t[t.len() - 1] == p[p.len() - 1]);
        assert(is_open_path(m, t));
        lemma_open_to_goal(m, t, gx, gy);
        assert((t[0].0, t[0].1) == p[1]);
        let q = choose|q: Seq<(int, int)>| m.is_goal_path(q) && q[0] == (t[0].0, t[0].1);
        let r2 = seq![p[0]] + q;
        assert(r2[0] == p[0]);
        assert forall|k: int| 1 <= k < r2.len() implies #[trigger] r2[k] == q[k - 1] by {}
        assert(m.at(p[0].0, p[0].1) == Cell::Way);
        assert forall|k: int| 0 <= k < r2.len() implies m.in_bounds(
            (#[trigger] r2[k]).0,
            r2[k].1,
        ) by {
            if k >= 1 {
                assert(r2[k] == q[k - 1]);
            }
        }
        assert forall|k: int| 0 <= k < r2.len() - 1 implies adjacent(
            #[trigger] r2[k],
            r2[k + 1],
        ) by {
            if k == 0 {
                assert(r2[1] == q[0]);
                assert(adjacent(p[0], p[1]));
            } else {
                assert(r2[k] == q[k - 1]);
                assert(r2[k + 1] == q[k]);
            }
        }
        assert forall|k: int| 0 <= k < r2.len() - 1 implies m.at((#[trigger] r2[k]).0, r2[k].1)
            == Cell::Way by {
            if k >= 1 {
                assert(r2[k] == q[k - 1]);
            }
        }
        assert(r2[r2.len() - 1] == q[q.len() - 1]);
        assert(m.is_goal_path(r2));
        assert(m.goal_reachable(p[0].0, p[0].1));
    }
}

/// With the sheath ring walled, a walk over passable squares that starts
/// in the core of the grid never leaves it: to leave, it would have to
/// step onto a walled sheath square.
proof fn lemma_core_confined(m: Maze, p: Seq<(int, int)>, k: int)
    requires
        m.wf(),
        m.sheath_walls(),
        is_open_path(m, p),
        2 <= p[0].0 <= m.width - 3,
        2 <= p[0].1 <= m.height - 3,
        0 <= k < p.len(),
    ensures
        2 <= p[k].0 <= m.width - 3,
        2 <= p[k].1 <= m.height - 3,
    decreases k,
{
    if k > 0 {
        lemma_core_confined(m, p, k - 1);
        assert(adjacent(p[k - 1], p[k]));
        if !(2 <= p[k].0 <= m.width - 3 && 2 <= p[k].1 <= m.height - 3) {
            assert(p[k].0 == 1 || p[k].0 == m.width - 2 || p[k].1 == 1 || p[k].1 == m.height - 2);
            assert(!m.on_border(p[k].0, p[k].1));
            assert(m.at(p[k].0, p[k].1) == Cell::Wall);
            assert(m.at(p[k].0, p[k].1) != Cell::Wall);
        }
    }
}

/// A goal path from `a` of minimal length among all goal paths from `a`.
pub open spec fn min_goal_path(m: Maze, s: Seq<(int, int)>, a: (int, int)) -> bool {
    &&& m.is_goal_path(s)
    &&& s[0] == a
    &&& forall|q: Seq<(int, int)>|
        #[trigger] m.is_goal_path(q) && q[0] == a ==> s.len() <= q.len()
}

/// Whenever some goal path starts at a square, a shortest one does.
proof fn lemma_exists_min(m: Maze, p: Seq<(int, int)>)
    requires
        m.is_goal_path(p),
    ensures
        exists|s: Seq<(int, int)>| #[trigger] min_goal_path(m, s, p[0]),
    decreases p.len(),
{
    if exists|q: Seq<(int, int)>|
        #[trigger] m.is_goal_path(q) && q[0] == p[0] && q.len() < p.len() {
        let q = choose|q: Seq<(int, int)>|
            #[trigger] m.is_goal_path(q) && q[0] == p[0] && q.len() < p.len();
        lemma_exists_min(m, q);
    } else {
        assert(min_goal_path(m, p, p[0]));
    }
}

/// A shortest goal path never returns to its starting square.
proof fn lemma_min_no_revisit(m: Maze, s: Seq<(int, int)>, a: (int, int))
    requires
        min_goal_path(m, s, a),
    ensures
        forall|k: int| 1 <= k < s.len() ==> #[trigger] s[k] != a,
{
    assert forall|k: int| 1 <= k < s.len() implies #[trigger] s[k] != a by {
        if s[k] == a {
            let t = s.subrange(k, s.len() as int);
            assert forall|j: int| 0 <= j < t.len() implies #[trigger] t[j] == s[j + k] by {}
            assert(t[t.len() - 1] == s[s.len() - 1]);
            assert(m.is_goal_path(t));
            assert(t[0] == a);
            assert(s.len() <= t.len());
        }
    }
}

/// Reachability of the goal depends on the squares alone: it carries over
/// to any grid with the same dimensions and contents.
proof fn lemma_reach_same(a: Maze, b: Maze, x: int, y: int)
    requires
        a.width == b.width,
        a.height == b.height,
        a.flat() == b.flat(),
        a.goal_reachable(x, y),
    ensures
        b.goal_reachable(x, y),
{
    let p = choose|p: Seq<(int, int)>| a.is_goal_path(p) && p[0] == (x, y);
    assert(b.is_goal_path(p));
    assert(b.goal_reachable(x, y));
}

/// Dropping the start of a goal path that never returns to it gives a goal
/// path of the grid in which the start is marked.
proof fn lemma_tail_path(g0: Maze, cur: Maze, s: Seq<(int, int)>, x: int, y: int)
    requires
        g0.wf(),
        0 <= x < g0.width,
        0 <= y < g0.height,
        cur.width == g0.width,
        cur.height == g0.height,
        cur.flat() == g0.flat().update(x * g0.height + y, Cell::Route),
        g0.is_goal_path(s),
        s.len() >= 2,
        s[0] == (x, y),
        forall|k: int| 1 <= k < s.len() ==> #[trigger] s[k] != (x, y),
    ensures
        cur.goal_reachable(s[1].0, s[1].1),
{
    let w = g0.width as int;
    let h = g0.height as int;
    lemma_flat_index_bounds(x, y, w, h);
    let t = s.subrange(1, s.len() as int);
    assert forall|k: int| 0 <= k < t.len() implies #[trigger] t[k] == s[k + 1] by {}
    assert forall|k: int| 0 <= k < t.len() implies cur.at((#[trigger] t[k]).0, t[k].1) == g0.at(
        t[k].0,
        t[k].1,
    ) by {
        lemma_flat_index_bounds(t[k].0, t[k].1, w, h);
        lemma_flat_index_ne(t[k].0, t[k].1, x, y, h);
    }
    assert(t[t.len() - 1] == s[s.len() - 1]);
    assert(cur.is_goal_path(t));
    assert(t[0] == s[1]);
    assert(cur.goal_reachable(s[1].0, s[1].1));
}

/// A successful branch yields a goal path of the unmarked grid: the path
/// found from the neighbor cannot cross the marked start square, so the
/// start can be prepended to it.
proof fn lemma_prepend_path(g0: Maze, cur: Maze, x: int, y: int, nx: int, ny: int)
    requires
        g0.wf(),
        0 <= x < g0.width,
        0 <= y < g0.height,
        g0.at(x, y) == Cell::Way,
        cur.width == g0.width,
        cur.height == g0.height,
        cur.flat() == g0.flat().update(x * g0.height + y, Cell::Route),
        adjacent((x, y), (nx, ny)),
        cur.goal_reachable(nx, ny),
    ensures
        g0.goal_reachable(x, y),
{
    let w = g0.width as int;
    let h = g0.height as int;
    lemma_flat_index_bounds(x, y, w, h);
    let p = choose|p: Seq<(int, int)>| cur.is_goal_path(p) && p[0] == (nx, ny);
    assert forall|k: int| 0 <= k < p.len() implies #[trigger] p[k] != (x, y) by {
        if p[k] == (x, y) {
            assert(cur.at(x, y) == Cell::Route);
            if k < p.len() - 1 {
                assert(cur.at(p[k].0, p[k].1) == Cell::Way);
            } else {
                assert(cur.at(p[k].0, p[k].1) == Cell::Goal);
            }
        }
    }
    assert forall|k: int| 0 <= k < p.len() implies cur.at((#[trigger] p[k]).0, p[k].1) == g0.at(
        p[k].0,
        p[k].1,
    ) by {
        lemma_flat_index_bounds(p[k].0, p[k].1, w, h);
        lemma_flat_index_ne(p[k].0, p[k].1, x, y, h);
    }
    let q = seq![(x, y)] + p;
    assert(q[0] == (x, y));
    assert forall|k: int| 0 <= k < q.len() implies g0.in_bounds((#[trigger] q[k]).0, q[k].1) by {
        if k >= 1 {
            assert(q[k] == p[k - 1]);
        }
    }
    assert forall|k: int| 0 <= k < q.len() - 1 implies adjacent(#[trigger] q[k], q[k + 1]) by {
        if k == 0 {
            assert(q[0] == (x, y));
            assert(q[1] == p[0]);
        } else {
            assert(q[k] == p[k - 1]);
            assert(q[k + 1] == p[k]);
        }
    }
    assert forall|k: int| 0 <= k < q.len() - 1 implies g0.at((#[trigger] q[k]).0, q[k].1)
        == Cell::Way by {
        if k >= 1 {
            assert(q[k] == p[k - 1]);
            assert(cur.at(p[k - 1].0, p[k - 1].1) == Cell::Way);
        }
    }
    assert(q[q.len() - 1] == p[p.len() - 1]);
    assert(g0.is_goal_path(q));
    assert(g0.goal_reachable(x, y));
}

/// Whatever a branch search changed is connected to the current square:
/// the branch starts at an axis neighbor, and marking the current square
/// changes no square's passability.
proof fn lemma_branch_marks(g0: Maze, bb: Maze, g2: Maze, x: int, y: int, nx: int, ny: int)
    requires
        g0.wf(),
        0 <= x < g0.width,
        0 <= y < g0.height,
        g0.at(x, y) == Cell::Way,
        bb.width == g0.width,
        bb.height == g0.height,
        bb.flat() == g0.flat().update(x * g0.height + y, Cell::Route),
        adjacent((x, y), (nx, ny)),
        g0.in_bounds(nx, ny),
        bb.at(nx, ny) != Cell::Wall,
        g2.width == g0.width,
        g2.height == g0.height,
        forall|i: int, j: int|
            bb.in_bounds(i, j) && g2.at(i, j) != bb.at(i, j) ==> #[trigger] open_connected(
                bb,
                (nx, ny),
                (i, j),
            ),
    ensures
        forall|i: int, j: int|
            g0.in_bounds(i, j) && g2.at(i, j) != g0.at(i, j) ==> #[trigger] open_connected(
                g0,
                (x, y),
                (i, j),
            ),
{
    let w = g0.width as int;
    let h = g0.height as int;
    lemma_flat_index_bounds(x, y, w, h);
    lemma_connected_self(g0, (x, y));
    assert forall|i2: int, j2: int|
        bb.in_bounds(i2, j2) && #[trigger] bb.at(i2, j2) != Cell::Wall implies g0.at(i2, j2)
        != Cell::Wall by {
        lemma_flat_index_bounds(i2, j2, w, h);
        if !(i2 == x && j2 == y) {
            lemma_flat_index_ne(i2, j2, x, y, h);
        }
    }
    assert(g0.at(nx, ny) != Cell::Wall);
    lemma_connected_step(g0, (x, y), (x, y), (nx, ny));
    assert forall|i: int, j: int|
        g0.in_bounds(i, j) && g2.at(i, j) != g0.at(i, j) implies #[trigger] open_connected(
        g0,
        (x, y),
        (i, j),
    ) by {
        if !(i == x && j == y) {
            lemma_flat_index_bounds(i, j, w, h);
            lemma_flat_index_ne(i, j, x, y, h);
            assert(bb.at(i, j) == g0.at(i, j));
            assert(open_connected(bb, (nx, ny), (i, j)));
            lemma_connected_mono(bb, g0, (nx, ny), (i, j));
            lemma_connected_trans(g0, (x, y), (nx, ny), (i, j));
        }
    }
}

/// One backtracking step succeeded after the current square was marked:
/// relate the final grid back to the state before the mark.
proof fn lemma_search_compose(g0: Maze, g1: Maze, g2: Maze, x: int, y: int, depth: int, d: int)
    requires
        g0.wf(),
        0 <= x < g0.width,
        0 <= y < g0.height,
        g0.at(x, y) == Cell::Way,
        g1.width == g0.width,
        g1.height == g0.height,
        g1.flat() == g0.flat().update(x * g0.height + y, Cell::Route),
        g2.width == g1.width,
        g2.height == g1.height,
        forall|i: int, j: int|
            g1.in_bounds(i, j) ==> #[trigger] g2.at(i, j) == g1.at(i, j) || (g1.at(i, j)
                == Cell::Way && g2.at(i, j) == Cell::Route),
        count_of(g2.flat(), Cell::Route) == count_of(g1.flat(), Cell::Route) + (d - (depth + 1)),
        depth + 1 <= d,
    ensures
        forall|i: int, j: int|
            g0.in_bounds(i, j) ==> #[trigger] g2.at(i, j) == g0.at(i, j) || (g0.at(i, j)
                == Cell::Way && g2.at(i, j) == Cell::Route),
        count_of(g2.flat(), Cell::Route) == count_of(g0.flat(), Cell::Route) + (d - depth),
        depth <= d,
{
    let w = g0.width as int;
    let h = g0.height as int;
    lemma_flat_index_bounds(x, y, w, h);
    lemma_count_update(g0.flat(), Cell::Route, x * h + y, Cell::Route, g0.flat().len() as int);
    assert forall|i: int, j: int|
        g0.in_bounds(i, j) implies #[trigger] g2.at(i, j) == g0.at(i, j) || (g0.at(i, j)
        == Cell::Way && g2.at(i, j) == Cell::Route) by {
        lemma_flat_index_bounds(i, j, w, h);
        if i == x && j == y {
            assert(g1.at(i, j) == Cell::Route);
        } else {
            lemma_flat_index_ne(i, j, x, y, h);
            assert(g1.at(i, j) == g0.at(i, j));
        }
    }
}

/// Everything a successful branch establishes, relative to the grid
/// before the current square was marked: the grids relate pointwise, the
/// route count and depth add up, the goal is reachable, and every changed
/// square is connected to the current one.
proof fn lemma_branch_success(
    g0: Maze,
    bb: Maze,
    g2: Maze,
    x: int,
    y: int,
    nx: int,
    ny: int,
    depth: int,
    d: int,
)
    requires
        g0.wf(),
        0 <= x < g0.width,
        0 <= y < g0.height,
        g0.at(x, y) == Cell::Way,
        bb.width == g0.width,
        bb.height == g0.height,
        bb.flat() == g0.flat().update(x * g0.height + y, Cell::Route),
        adjacent((x, y), (nx, ny)),
        g0.in_bounds(nx, ny),
        bb.at(nx, ny) != Cell::Wall,
        g2.width == g0.width,
        g2.height == g0.height,
        forall|i: int, j: int|
            bb.in_bounds(i, j) ==> #[trigger] g2.at(i, j) == bb.at(i, j) || (bb.at(i, j)
                == Cell::Way && g2.at(i, j) == Cell::Route),
        count_of(g2.flat(), Cell::Route) == count_of(bb.flat(), Cell::Route) + (d - (depth + 1)),
        depth + 1 <= d,
        bb.goal_reachable(nx, ny),
        forall|i: int, j: int|
            bb.in_bounds(i, j) && g2.at(i, j) != bb.at(i, j) ==> #[trigger] open_connected(
                bb,
                (nx, ny),
                (i, j),
            ),
    ensures
        forall|i: int, j: int|
            g0.in_bounds(i, j) ==> #[trigger] g2.at(i, j) == g0.at(i, j) || (g0.at(i, j)
                == Cell::Way && g2.at(i, j) == Cell::Route),
        count_of(g2.flat(), Cell::Route) == count_of(g0.flat(), Cell::Route) + (d - depth),
        depth <= d,
        g0.goal_reachable(x, y),
        forall|i: int, j: int|
            g0.in_bounds(i, j) && g2.at(i, j) != g0.at(i, j) ==> #[trigger] open_connected(
                g0,
                (x, y),
                (i, j),
            ),
{
    lemma_branch_marks(g0, bb, g2, x, y, nx, ny);
    lemma_prepend_path(g0, bb, x, y, nx, ny);
    lemma_search_compose(g0, bb, g2, x, y, depth, d);
}

impl Maze {
    /// Exhaustive depth-first backtracking search from `(x, y)`, exploring
    /// neighbors in the fixed order `+x`, `-x`, `+y`, `-y`. A visited square
    /// is marked `Route`; when every branch from it fails the mark is
    /// reverted, so a failed search leaves the grid exactly as it was. On
    /// success the path from the start to the goal stays marked, and the
    /// returned depth counts the path: it exceeds the entry `depth` by the
    /// number of squares newly marked `Route`.
    #[verifier::rlimit(100)]
    #[verifier::spinoff_prover]
    pub fn route_search(&mut self, x: usize, y: usize, depth: usize) -> (r: Option<usize>)
        requires
            old(self).wf(),
            x < old(self).width,
            y < old(self).height,
            old(self).at(x as int, y as int) == Cell::Way || old(self).at(x as int, y as int)
                == Cell::Goal,
            depth + count_of(old(self).flat(), Cell::Way) <= usize::MAX,
        ensures
            final(self).wf(),
            final(self).width == old(self).width,
            final(self).height == old(self).height,
            forall|i: int, j: int|
                old(self).in_bounds(i, j) ==> #[trigger] final(self).at(i, j) == old(self).at(i, j)
                    || (old(self).at(i, j) == Cell::Way && final(self).at(i, j) == Cell::Route),
            r is None ==> final(self).flat() == old(self).flat(),
            r matches Some(d) ==> depth <= d && count_of(final(self).flat(), Cell::Route)
                == count_of(old(self).flat(), Cell::Route) + (d - depth),
            r is Some ==> old(self).goal_reachable(x as int, y as int),
            r is None ==> !old(self).goal_reachable(x as int, y as int),
            old(self).at(x as int, y as int) == Cell::Goal ==> r == Some(depth)
                && final(self).flat() == old(self).flat(),
            forall|i: int, j: int|
                old(self).in_bounds(i, j) && final(self).at(i, j) != old(self).at(i, j)
                    ==> #[trigger] open_connected(*old(self), (x as int, y as int), (i, j)),
        decreases count_of(old(self).flat(), Cell::Way),
    {
        let c = self.get(x, y);
        if c == Cell::Goal {
            proof {
                let p = seq![(x as int, y as int)];
                assert(p[0] == (x as int, y as int));
                assert(old(self).is_goal_path(p));
                assert(old(self).goal_reachable(x as int, y as int));
            }
            return Some(depth);
        }
        let ghost w = old(self).width as int;
        let ghost h = old(self).height as int;
        let ghost idx = x as int * h + y as int;
        proof {
            lemma_flat_index_bounds(x as int, y as int, w, h);
            lemma_count_pos(old(self).flat(), Cell::Way, idx);
            lemma_count_update(old(self).flat(), Cell::Way, idx, Cell::Route, old(
                self,
            ).flat().len() as int);
            lemma_count_update(old(self).flat(), Cell::Route, idx, Cell::Route, old(
                self,
            ).flat().len() as int);
        }
        self.set(x, y, Cell::Route);
        let ghost marked = *self;
        if x + 1 < self.width {
            let nc = self.get(x + 1, y);
            if nc == Cell::Way || nc == Cell::Goal {
                let ghost bb = *self;
                let r = self.route_search(x + 1, y, depth + 1);
                if let Some(d) = r {
                    proof {
                        lemma_branch_success(
                            *old(self),
                            bb,
                            *self,
                            x as int,
                            y as int,
                            x as int + 1, y as int,
                            depth as int,
                            d as int,
                        );
                    }
                    return Some(d);
                }
                proof {
                    if marked.goal_reachable(x as int + 1, y as int) {
                        lemma_reach_same(marked, bb, x as int + 1, y as int);
                    }
                    assert(!marked.goal_reachable(x as int + 1, y as int));
                }
            }
        }
        if x >= 1 {
            let nc = self.get(x - 1, y);
            if nc == Cell::Way || nc == Cell::Goal {
                let ghost bb = *self;
                let r = self.route_search(x - 1, y, depth + 1);
                if let Some(d) = r {
                    proof {
                        lemma_branch_success(
                            *old(self),
                            bb,
                            *self,
                            x as int,
                            y as int,
                            x as int - 1, y as int,
                            depth as int,
                            d as int,
                        );
                    }
                    return Some(d);
                }
                proof {
                    if marked.goal_reachable(x as int - 1, y as int) {
                        lemma_reach_same(marked, bb, x as int - 1, y as int);
                    }
                    assert(!marked.goal_reachable(x as int - 1, y as int));
                }
            }
        }
        if y + 1 < self.height {
            let nc = self.get(x, y + 1);
            if nc == Cell::Way || nc == Cell::Goal {
                let ghost bb = *self;
                let r = self.route_search(x, y + 1, depth + 1);
                if let Some(d) = r {
                    proof {
                        lemma_branch_success(
                            *old(self),
                            bb,
                            *self,
                            x as int,
                            y as int,
                            x as int, y as int + 1,
                            depth as int,
                            d as int,
                        );
                    }
                    return Some(d);
                }
                proof {
                    if marked.goal_reachable(x as int, y as int + 1) {
                        lemma_reach_same(marked, bb, x as int, y as int + 1);
                    }
                    assert(!marked.goal_reachable(x as int, y as int + 1));
                }
            }
        }
        if y >= 1 {
            let nc = self.get(x, y - 1);
            if nc == Cell::Way || nc == Cell::Goal {
                let ghost bb = *self;
                let r = self.route_search(x, y - 1, depth + 1);
                if let Some(d) = r {
                    proof {
                        lemma_branch_success(
                            *old(self),
                            bb,
                            *self,
                            x as int,
                            y as int,
                            x as int, y as int - 1,
                            depth as int,
                            d as int,
                        );
                    }
                    return Some(d);
                }
                proof {
                    if marked.goal_reachable(x as int, y as int - 1) {
                        lemma_reach_same(marked, bb, x as int, y as int - 1);
                    }
                    assert(!marked.goal_reachable(x as int, y as int - 1));
                }
            }
        }
        self.set(x, y, Cell::Way);
        proof {
            assert(self.flat() =~= old(self).flat());
            if old(self).goal_reachable(x as int, y as int) {
                let xi = x as int;
                let yi = y as int;
                let p0 = choose|p: Seq<(int, int)>|
                    old(self).is_goal_path(p) && p[0] == (xi, yi);
                lemma_exists_min(*old(self), p0);
                let s = choose|s: Seq<(int, int)>| min_goal_path(*old(self), s, (xi, yi));
                lemma_min_no_revisit(*old(self), s, (xi, yi));
                if s.len() == 1 {
                    assert(old(self).at(xi, yi) == Cell::Goal);
                } else {
                    lemma_tail_path(*old(self), marked, s, xi, yi);
                    let n = s[1];
                    assert(adjacent((xi, yi), n));
                    assert(old(self).in_bounds(n.0, n.1));
                    lemma_flat_index_bounds(n.0, n.1, w, h);
                    lemma_flat_index_ne(n.0, n.1, xi, yi, h);
                    assert(marked.at(n.0, n.1) == old(self).at(n.0, n.1));
                    assert(marked.at(n.0, n.1) == Cell::Way || marked.at(n.0, n.1) == Cell::Goal);
                    assert(marked.goal_reachable(n.0, n.1));
                    assert(false);
                }
            }
        }
        None
    }

    /// Rebuild the maze from scratch, then run one search from the fixed
    /// start junction next to the origin corner, at depth one, as the
    /// regeneration trigger does. The carved maze always has an open (or
    /// goal) start junction and a reachable goal, so the search always
    /// succeeds and leaves the found path marked.
    pub fn regenerate(&mut self, rng: &mut rand::rngs::StdRng) -> (r: Option<usize>)
        requires
            5 <= old(self).width,
            5 <= old(self).height,
            old(self).width % 2 == 1,
            old(self).height % 2 == 1,
            old(self).width * old(self).height < usize::MAX,
        ensures
            final(self).wf(),
            final(self).width == old(self).width,
            final(self).height == old(self).height,
            final(self).odd_posts_walled(),
            final(self).border_open(),
            final(self).at(old(self).width - 3, old(self).height - 3) == Cell::Goal,
            forall|i: int, j: int|
                final(self).in_bounds(i, j) && !(i == old(self).width - 3 && j == old(self).height
                    - 3) ==> (#[trigger] final(self).at(i, j) == Cell::Wall || final(self).at(i, j)
                    == Cell::Way || final(self).at(i, j) == Cell::Route),
            r is Some,
            r matches Some(d) ==> 1 <= d && count_of(final(self).flat(), Cell::Route) == d - 1,
    {
        self.make_maze(rng);
        let ghost carved = *self;
        let ghost w = self.width as int;
        let ghost h = self.height as int;
        let ghost gxi = w - 3;
        let ghost gyi = h - 3;
        proof {
            assert forall|i: int| 0 <= i < carved.flat().len() implies carved.flat()[i]
                != Cell::Route by {
                lemma_flat_unindex(i, w, h);
                assert(carved.at(i / h, i % h) != Cell::Route);
            }
            lemma_count_absent(carved.flat(), Cell::Route, carved.flat().len() as int);
            lemma_count_below_bounds(carved.flat(), Cell::Way, carved.flat().len() as int);
            // The carved maze always lets the search succeed: the start is an
            // open junction (or the goal itself) and the goal is reachable.
            assert(carved.even_interior(2, 2));
            assert(carved.at(2, 2) == Cell::Way || carved.at(2, 2) == Cell::Goal);
            let sd = choose|sx: int, sy: int| connected_from(carved, sx, sy);
            assert(connected_from(carved, sd.0, sd.1));
            assert(!carved.on_border(2, 2));
            assert(!carved.on_border(gxi, gyi));
            assert(open_connected(carved, (sd.0, sd.1), (2, 2)));
            assert(open_connected(carved, (sd.0, sd.1), (gxi, gyi)));
            lemma_connected_sym(carved, (sd.0, sd.1), (2, 2));
            lemma_connected_trans(carved, (2, 2), (sd.0, sd.1), (gxi, gyi));
            let pth = choose|p: Seq<(int, int)>|
                #[trigger] is_open_path(carved, p) && p[0] == (2int, 2int) && p[p.len() - 1] == (
                gxi,
                gyi,
            );
            lemma_open_to_goal(carved, pth, gxi, gyi);
            assert(carved.goal_reachable(2, 2));
        }
        let r = self.route_search(2, 2, 1);
        proof {
            // The search stays inside the sheath ring, so the border is
            // untouched and still fully open.
            assert forall|i: int, j: int|
                self.in_bounds(i, j) && self.on_border(i, j) implies #[trigger] self.at(i, j)
                == Cell::Way by {
                if self.at(i, j) != carved.at(i, j) {
                    assert(open_connected(carved, (2int, 2int), (i, j)));
                    let p = choose|p: Seq<(int, int)>|
                        #[trigger] is_open_path(carved, p) && p[0] == (2int, 2int) && p[p.len()
                            - 1] == (i, j);
                    lemma_core_confined(carved, p, p.len() - 1);
                }
                assert(carved.at(i, j) == Cell::Way);
            }
        }
        r
    }
}

} // verus!
