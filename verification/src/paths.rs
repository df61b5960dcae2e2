use vstd::prelude::*;

use crate::grid::{Cell, Maze};

verus! {

/// Two squares are axis neighbors.
pub open spec fn adjacent(a: (int, int), b: (int, int)) -> bool {
    ||| (b.0 == a.0 + 1 && b.1 == a.1)
    ||| (b.0 == a.0 - 1 && b.1 == a.1)
    ||| (b.0 == a.0 && b.1 == a.1 + 1)
    ||| (b.0 == a.0 && b.1 == a.1 - 1)
}

/// A walk over passable squares: in bounds, each step to an axis neighbor,
/// and no square a wall.
pub open spec fn is_open_path(m: Maze, p: Seq<(int, int)>) -> bool {
    &&& p.len() >= 1
    &&& forall|k: int| 0 <= k < p.len() ==> m.in_bounds((#[trigger] p[k]).0, p[k].1)
    &&& forall|k: int| 0 <= k < p.len() - 1 ==> adjacent(#[trigger] p[k], p[k + 1])
    &&& forall|k: int| 0 <= k < p.len() ==> m.at((#[trigger] p[k]).0, p[k].1) != Cell::Wall
}

/// Some walk over passable squares joins `a` to `b`.
pub open spec fn open_connected(m: Maze, a: (int, int), b: (int, int)) -> bool {
    exists|p: Seq<(int, int)>| #[trigger] is_open_path(m, p) && p[0] == a && p[p.len() - 1] == b
}

pub proof fn lemma_connected_self(m: Maze, a: (int, int))
    requires
        m.in_bounds(a.0, a.1),
        m.at(a.0, a.1) != Cell::Wall,
    ensures
        open_connected(m, a, a),
{
    let p = seq![a];
    assert(p[0] == a);
    assert(is_open_path(m, p));
    assert(open_connected(m, a, a));
}

/// A walk can be lengthened by one passable neighbor of its end.
pub proof fn lemma_connected_step(m: Maze, a: (int, int), b: (int, int), c: (int, int))
    requires
        open_connected(m, a, b),
        adjacent(b, c),
        m.in_bounds(c.0, c.1),
        m.at(c.0, c.1) != Cell::Wall,
    ensures
        open_connected(m, a, c),
{
    let p = choose|p: Seq<(int, int)>|
        #[trigger] is_open_path(m, p) && p[0] == a && p[p.len() - 1] == b;
    let q = p.push(c);
    assert(q[0] == a);
    assert(q[q.len() - 1] == c);
    assert forall|k: int| 0 <= k < q.len() implies m.in_bounds((#[trigger] q[k]).0, q[k].1)
        && m.at(q[k].0, q[k].1) != Cell::Wall by {
        if k < p.len() {
            assert(q[k] == p[k]);
        } else {
            assert(q[k] == c);
        }
    }
    assert forall|k: int| 0 <= k < q.len() - 1 implies adjacent(#[trigger] q[k], q[k + 1]) by {
        if k < p.len() - 1 {
            assert(q[k] == p[k]);
            assert(q[k + 1] == p[k + 1]);
        } else {
            assert(q[k] == p[p.len() - 1]);
            assert(q[k + 1] == c);
        }
    }
    assert(is_open_path(m, q));
    assert(open_connected(m, a, c));
}

/// Walks compose: one from `a` to `b` and one from `b` to `c` join up.
pub proof fn lemma_connected_trans(m: Maze, a: (int, int), b: (int, int), c: (int, int))
    requires
        open_connected(m, a, b),
        open_connected(m, b, c),
    ensures
        open_connected(m, a, c),
{
    let p1 = choose|p: Seq<(int, int)>|
        #[trigger] is_open_path(m, p) && p[0] == a && p[p.len() - 1] == b;
    let p2 = choose|p: Seq<(int, int)>|
        #[trigger] is_open_path(m, p) && p[0] == b && p[p.len() - 1] == c;
    let q = p1 + p2.subrange(1, p2.len() as int);
    assert(q.len() == p1.len() + p2.len() - 1);
    assert forall|k: int| 0 <= k < q.len() implies #[trigger] q[k] == (if k < p1.len() {
        p1[k]
    } else {
        p2[k - p1.len() + 1]
    }) by {}
    assert(q[0] == a);
    assert(q[q.len() - 1] == (if p2.len() >= 2 {
        p2[p2.len() - 1]
    } else {
        p1[p1.len() - 1]
    }));
    assert(q[q.len() - 1] == c);
    assert forall|k: int| 0 <= k < q.len() implies m.in_bounds((#[trigger] q[k]).0, q[k].1)
        && m.at(q[k].0, q[k].1) != Cell::Wall by {}
    assert forall|k: int| 0 <= k < q.len() - 1 implies adjacent(#[trigger] q[k], q[k + 1]) by {
        if k < p1.len() - 1 {
        } else if k == p1.len() - 1 {
            assert(q[k] == p1[p1.len() - 1]);
            assert(q[k + 1] == p2[1]);
            assert(adjacent(p2[0], p2[1]));
        } else {
            assert(q[k] == p2[k - p1.len() + 1]);
            assert(q[k + 1] == p2[k - p1.len() + 2]);
        }
    }
    assert(is_open_path(m, q));
    assert(open_connected(m, a, c));
}

/// A walk can be read backwards: connectivity is symmetric.
pub proof fn lemma_connected_sym(m: Maze, a: (int, int), b: (int, int))
    requires
        open_connected(m, a, b),
    ensures
        open_connected(m, b, a),
{
    let p = choose|p: Seq<(int, int)>|
        #[trigger] is_open_path(m, p) && p[0] == a && p[p.len() - 1] == b;
    let n = p.len() as int;
    let q = Seq::new(p.len(), |k: int| p[n - 1 - k]);
    assert(q[0] == b);
    assert(q[q.len() - 1] == a);
    assert forall|k: int| 0 <= k < q.len() implies m.in_bounds((#[trigger] q[k]).0, q[k].1)
        && m.at(q[k].0, q[k].1) != Cell::Wall by {
        assert(q[k] == p[n - 1 - k]);
    }
    assert forall|k: int| 0 <= k < q.len() - 1 implies adjacent(#[trigger] q[k], q[k + 1]) by {
        assert(q[k] == p[n - 1 - k]);
        assert(q[k + 1] == p[n - 2 - k]);
        assert(adjacent(p[n - 2 - k], p[n - 1 - k]));
    }
    assert(is_open_path(m, q));
    assert(open_connected(m, b, a));
}

/// Opening squares never disconnects: a walk survives any change that
/// leaves every passable square passable.
pub proof fn lemma_connected_mono(m1: Maze, m2: Maze, a: (int, int), b: (int, int))
    requires
        m1.width == m2.width,
        m1.height == m2.height,
        forall|i: int, j: int|
            m1.in_bounds(i, j) && #[trigger] m1.at(i, j) != Cell::Wall ==> m2.at(i, j)
                != Cell::Wall,
        open_connected(m1, a, b),
    ensures
        open_connected(m2, a, b),
{
    let p = choose|p: Seq<(int, int)>|
        #[trigger] is_open_path(m1, p) && p[0] == a && p[p.len() - 1] == b;
    assert forall|k: int| 0 <= k < p.len() implies m2.at((#[trigger] p[k]).0, p[k].1)
        != Cell::Wall by {
        assert(m1.at(p[k].0, p[k].1) != Cell::Wall);
    }
    assert(is_open_path(m2, p));
    assert(open_connected(m2, a, b));
}

} // verus!
