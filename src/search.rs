use vstd::prelude::*;
use crate::maze::{Maze, index_of, lemma_index_in_grid};
use crate::point::{Point, adjacent};

verus! {

/// `path` is a walk over passable cells of `maze`, each step to an adjacent cell.
pub open spec fn is_walk(maze: Maze, path: Seq<Point>) -> bool {
    &&& path.len() >= 1
    &&& forall|i: int| 0 <= i < path.len() ==> !maze.wall_at(#[trigger] path[i])
    &&& forall|i: int| 0 <= i < path.len() - 1 ==> adjacent(#[trigger] path[i], path[i + 1])
}

/// Some walk over passable cells leads from `a` to `b`.
pub open spec fn reachable(maze: Maze, a: Point, b: Point) -> bool {
    exists|path: Seq<Point>| is_walk(maze, path) && path[0] == a && path.last() == b
}

/// `path` leads from the start of `maze` to its end without visiting a cell twice.
pub open spec fn is_route(maze: Maze, path: Seq<Point>) -> bool {
    &&& is_walk(maze, path)
    &&& path[0] == maze.start
    &&& path.last() == maze.end
    &&& path.no_duplicates()
}

/// `p` is in the grid of width `w` and marked in the visited grid `v`.
pub open spec fn seen(v: Seq<bool>, w: nat, p: Point) -> bool {
    p.0 < w && p.1 < w && v[index_of(p, w)]
}

/// `p` is marked in `v1` but was not in `v0`.
pub open spec fn newly_seen(v0: Seq<bool>, v1: Seq<bool>, w: nat, p: Point) -> bool {
    seen(v1, w, p) && !seen(v0, w, p)
}

/// Every passable neighbour of `c` is marked in `v`.
pub open spec fn explored(maze: Maze, v: Seq<bool>, c: Point) -> bool {
    forall|q: Point| #[trigger] adjacent(c, q) && !maze.wall_at(q) ==> seen(v, maze.size(), q)
}

/// `v1` keeps every mark of `v0`.
pub open spec fn grows(v0: Seq<bool>, v1: Seq<bool>) -> bool {
    v1.len() == v0.len() && forall|i: int| 0 <= i < v0.len() && #[trigger] v0[i] ==> v1[i]
}

/// The number of unmarked cells in `v`.
pub open spec fn unseen(v: Seq<bool>) -> nat
    decreases v.len(),
{
    if v.len() == 0 {
        0
    } else {
        unseen(v.drop_last()) + if v.last() { 0nat } else { 1nat }
    }
}

/// Marking more cells never raises the count of unmarked ones, and marking a
/// new one lowers it.
proof fn lemma_unseen_grows(a: Seq<bool>, b: Seq<bool>, k: int)
    requires
        grows(a, b),
    ensures
        unseen(b) <= unseen(a),
        0 <= k < a.len() && !a[k] && b[k] ==> unseen(b) < unseen(a),
    decreases a.len(),
{
    if a.len() > 0 {
        let (a1, b1) = (a.drop_last(), b.drop_last());
        assert(grows(a1, b1)) by {
            assert forall|i: int| 0 <= i < a1.len() && #[trigger] a1[i] implies b1[i] by {
                assert(a[i]);
            }
        }
        if a[a.len() - 1] {
            assert(b[b.len() - 1]);
        }
        lemma_unseen_grows(a1, b1, k as int);
    }
}

/// Keeping the marks of a grid that kept the marks of another keeps those too.
proof fn lemma_grows_trans(a: Seq<bool>, b: Seq<bool>, c: Seq<bool>)
    requires
        grows(a, b),
        grows(b, c),
    ensures
        grows(a, c),
{
    assert forall|i: int| 0 <= i < a.len() && #[trigger] a[i] implies c[i] by {
        assert(b[i]);
    }
}

/// Marking the cell of `m` marks no other point.
proof fn lemma_mark_one(vb: Seq<bool>, va: Seq<bool>, w: nat, m: Point, c: Point)
    requires
        m.0 < w,
        m.1 < w,
        vb.len() == w * w,
        0 <= index_of(m, w) < vb.len(),
        va == vb.update(index_of(m, w), true),
        seen(va, w, c),
        c != m,
    ensures
        seen(vb, w, c),
{
    lemma_index_in_grid(c, w);
    if index_of(c, w) == index_of(m, w) {
        crate::maze::lemma_index_unique(c, m, w);
    }
    assert(va[index_of(c, w)] == vb[index_of(c, w)]);
}

/// The count of unmarked cells is at most the number of cells.
proof fn lemma_unseen_bound(v: Seq<bool>)
    ensures
        unseen(v) <= v.len(),
    decreases v.len(),
{
    if v.len() > 0 {
        lemma_unseen_bound(v.drop_last());
    }
}

/// Marks that are closed under moves hold a walk that starts among them.
proof fn lemma_closed_walk(maze: Maze, v: Seq<bool>, path: Seq<Point>)
    requires
        is_walk(maze, path),
        seen(v, maze.size(), path[0]),
        forall|c: Point| seen(v, maze.size(), c) ==> #[trigger] explored(maze, v, c),
    ensures
        seen(v, maze.size(), path.last()),
    decreases path.len(),
{
    if path.len() > 1 {
        let front = path.drop_last();
        assert(is_walk(maze, front)) by {
            assert forall|i: int| 0 <= i < front.len() implies !maze.wall_at(#[trigger] front[i]) by {
                assert(path[i] == front[i]);
            }
            assert forall|i: int| 0 <= i < front.len() - 1 implies adjacent(#[trigger] front[i], front[i + 1]) by {
                assert(path[i] == front[i]);
            }
        }
        lemma_closed_walk(maze, v, front);
        let c = front.last();
        let q = path.last();
        assert(path[path.len() - 2] == c);
        assert(adjacent(c, q));
        assert(!maze.wall_at(q));
        assert(explored(maze, v, c));
    }
}

/// Depth-first search from `from` towards the end of `maze`. Each passable
/// neighbour that is not yet visited is marked visited and searched in turn,
/// in the order left, right, up, down; marks are never removed, so a cell
/// that one branch explored is not explored again by a sibling. The first
/// branch that reaches the end wins. Returns the path from the end back to
/// `from`; `total` counts the calls that did not start at the end.
pub fn walk(from: Point, maze: &Maze, visited: &mut Vec<bool>, total: &mut usize) -> (r: Option<
    Vec<Point>,
>)
    requires
        maze.wf(),
        !maze.wall_at(from),
        old(visited)@.len() == maze.cells().len(),
        seen(old(visited)@, maze.size(), from),
        *old(total) + unseen(old(visited)@) < usize::MAX,
    ensures
        grows(old(visited)@, final(visited)@),
        from == maze.end ==> r is Some && r->0@ == seq![from] && *final(total) == *old(total)
            && final(visited)@ == old(visited)@,
        from != maze.end ==> *old(total) + 1 <= *final(total),
        *final(total) <= *old(total) + 1 + unseen(old(visited)@) - unseen(final(visited)@),
        match r {
            Some(p) => {
                &&& p@[0] == maze.end
                &&& p@.last() == from
                &&& is_walk(*maze, p@)
                &&& p@.no_duplicates()
                &&& forall|i: int|
                    0 <= i < p@.len() - 1 ==> newly_seen(
                        old(visited)@,
                        final(visited)@,
                        maze.size(),
                        #[trigger] p@[i],
                    )
            },
            None => {
                &&& from != maze.end
                &&& !newly_seen(old(visited)@, final(visited)@, maze.size(), maze.end)
                &&& explored(*maze, final(visited)@, from)
                &&& forall|c: Point|
                    newly_seen(old(visited)@, final(visited)@, maze.size(), c)
                        ==> #[trigger] explored(*maze, final(visited)@, c)
            },
        },
    decreases unseen(old(visited)@),
{
    if from == maze.end {
        let r = vec![from];
        assert(r@ =~= seq![from]);
        return Some(r);
    }
    let ghost v0 = visited@;
    let ghost w = maze.size();
    let ghost t0 = *total;
    *total = *total + 1;
    let moves = maze.valid_moves(from);
    let mut i: usize = 0;
    while i < moves.len()
        invariant
            maze.wf(),
            w == maze.size(),
            !maze.wall_at(from),
            from != maze.end,
            forall|q: Point| #[trigger] moves@.contains(q) <==> (adjacent(from, q) && !maze.wall_at(q)),
            i <= moves@.len(),
            v0 == old(visited)@,
            t0 == *old(total),
            seen(v0, w, from),
            grows(v0, visited@),
            v0.len() == maze.cells().len(),
            t0 + 1 <= *total,
            *total <= t0 + 1 + unseen(v0) - unseen(visited@),
            t0 + unseen(v0) < usize::MAX,
            forall|j: int| 0 <= j < i ==> seen(visited@, w, #[trigger] moves@[j]),
            !newly_seen(v0, visited@, w, maze.end),
            forall|c: Point| newly_seen(v0, visited@, w, c) ==> #[trigger] explored(*maze, visited@, c),
        decreases moves@.len() - i,
    {
        let m = moves[i];
        assert(moves@[i as int] == m);
        assert(moves@.contains(m));
        let n = maze.layout.len();
        proof {
            lemma_index_in_grid(m, w);
            assert(m.1 * maze.width <= m.1 * maze.width + m.0);
        }
        let k = m.1 * maze.width + m.0;
        let ghost vb = visited@;
        if !visited[k] {
            visited.set(k, true);
            let ghost va = visited@;
            proof {
                assert(grows(vb, va));
                lemma_grows_trans(v0, vb, va);
                assert(!v0[k as int]);
                lemma_unseen_grows(vb, va, k as int);
                lemma_unseen_grows(v0, va, k as int);
                lemma_unseen_grows(v0, vb, k as int);
                assert(unseen(va) < unseen(v0));
            }
            let found = walk(m, maze, visited, total);
            let ghost vc = visited@;
            proof {
                lemma_unseen_grows(va, vc, k as int);
                lemma_grows_trans(v0, va, vc);
                lemma_unseen_grows(v0, vc, k as int);
            }
            match found {
                Some(mut v) => {
                    let ghost pv = v@;
                    v.push(from);
                    proof {
                        assert(v@ == pv.push(from));
                        assert(v@[0] == maze.end);
                        assert forall|j: int| 0 <= j < v@.len() implies !maze.wall_at(#[trigger] v@[j]) by {
                            if j < pv.len() {
                                assert(v@[j] == pv[j]);
                            }
                        }
                        assert forall|j: int| 0 <= j < v@.len() - 1 implies newly_seen(v0, vc, w, #[trigger] v@[j]) by {
                            assert(v@[j] == pv[j]);
                            if j < pv.len() - 1 {
                                assert(newly_seen(va, vc, w, pv[j]));
                                if seen(v0, w, pv[j]) {
                                    lemma_index_in_grid(pv[j], w);
                                    assert(va[index_of(pv[j], w)]);
                                }
                            } else {
                                assert(pv[j] == m);
                                lemma_index_in_grid(m, w);
                                assert(vc[index_of(m, w)]);
                                if v0[index_of(m, w)] {
                                    assert(vb[index_of(m, w)]);
                                }
                            }
                        }
                        assert forall|a: int, b: int| 0 <= a < b < v@.len() implies v@[a] != v@[b] by {
                            assert(newly_seen(v0, vc, w, v@[a]));
                            if b < pv.len() {
                                assert(pv[a] != pv[b]);
                            }
                        }
                        assert forall|j: int| 0 <= j < v@.len() - 1 implies adjacent(#[trigger] v@[j], v@[j + 1]) by {
                            assert(v@[j] == pv[j]);
                            if j < pv.len() - 1 {
                                assert(v@[j + 1] == pv[j + 1]);
                            } else {
                                assert(pv[j] == m);
                            }
                        }
                    }
                    return Some(v);
                },
                None => {
                    proof {
                        assert forall|c: Point| newly_seen(v0, vc, w, c) implies #[trigger] explored(*maze, vc, c) by {
                            if newly_seen(v0, vb, w, c) {
                                assert(explored(*maze, vb, c));
                                assert forall|q: Point| #[trigger] adjacent(c, q) && !maze.wall_at(q) implies seen(vc, w, q) by {
                                    assert(seen(vb, w, q));
                                    lemma_index_in_grid(q, w);
                                    assert(vb[index_of(q, w)]);
                                }
                            } else if c != m && !newly_seen(va, vc, w, c) {
                                lemma_mark_one(vb, va, w, m, c);
                            }
                        }
                        assert(!newly_seen(va, vc, w, maze.end));
                        if seen(vc, w, maze.end) && !seen(vb, w, maze.end) {
                            lemma_mark_one(vb, va, w, m, maze.end);
                        }
                    }
                },
            }
        }
        proof {
            assert(seen(visited@, w, m));
            assert forall|j: int| 0 <= j < i + 1 implies seen(visited@, w, #[trigger] moves@[j]) by {
                if j < i {
                    assert(seen(vb, w, moves@[j]));
                    lemma_index_in_grid(moves@[j], w);
                    assert(vb[index_of(moves@[j], w)]);
                }
            }
        }
        i = i + 1;
    }
    proof {
        assert forall|q: Point| #[trigger] adjacent(from, q) && !maze.wall_at(q) implies seen(visited@, w, q) by {
            assert(moves@.contains(q));
            let j = choose|j: int| 0 <= j < moves@.len() && moves@[j] == q;
        }
    }
    None
}

/// Searches `maze` from its start, with the start marked visited before the
/// first step so that no path comes back through it. Returns a route from
/// start to end exactly when the end is reachable, and the number of search
/// calls that did not start at the end.
pub fn solve(maze: &Maze) -> (r: (Option<Vec<Point>>, usize))
    requires
        maze.wf(),
    ensures
        r.0 is Some <==> reachable(*maze, maze.start, maze.end),
        r.0 is Some ==> is_route(*maze, r.0->0@),
        maze.start == maze.end ==> r.0 is Some && r.0->0@ == seq![maze.start] && r.1 == 0,
        maze.start != maze.end ==> r.1 >= 1,
{
    let n = maze.layout.len();
    let ghost w = maze.size();
    let mut visited: Vec<bool> = Vec::new();
    let mut i: usize = 0;
    while i < n
        invariant
            n == maze.cells().len(),
            i <= n,
            visited@.len() == i,
            forall|j: int| 0 <= j < i ==> !#[trigger] visited@[j],
        decreases n - i,
    {
        visited.push(false);
        i = i + 1;
    }
    proof {
        lemma_index_in_grid(maze.start, w);
        assert(maze.start.1 * maze.width <= maze.start.1 * maze.width + maze.start.0);
    }
    let ghost zeros = visited@;
    visited.set(maze.start.1 * maze.width + maze.start.0, true);
    let ghost v_start = visited@;
    proof {
        lemma_unseen_bound(zeros);
        lemma_unseen_grows(zeros, v_start, index_of(maze.start, w));
    }
    let mut total: usize = 0;
    proof {
        assert(v_start[index_of(maze.start, w)]);
    }
    let found = walk(maze.start, maze, &mut visited, &mut total);
    match found {
        Some(p) => {
            let mut out: Vec<Point> = Vec::new();
            let mut j: usize = p.len();
            while j > 0
                invariant
                    j <= p@.len(),
                    out@.len() == p@.len() - j,
                    forall|k: int| 0 <= k < out@.len() ==> #[trigger] out@[k] == p@[p@.len() - 1 - k],
                decreases j,
            {
                j = j - 1;
                out.push(p[j]);
            }
            proof {
                let q = out@;
                let pp = p@;
                assert forall|k: int| 0 <= k < q.len() implies !maze.wall_at(#[trigger] q[k]) by {
                    assert(!maze.wall_at(pp[pp.len() - 1 - k]));
                }
                assert forall|k: int| 0 <= k < q.len() - 1 implies adjacent(#[trigger] q[k], q[k + 1]) by {
                    let a = pp.len() - 2 - k;
                    assert(adjacent(pp[a], pp[a + 1]));
                    assert(q[k + 1] == pp[a]);
                }
                assert(is_walk(*maze, q));
                assert(is_route(*maze, q));
                assert(q[0] == maze.start);
                assert(q.last() == maze.end);
                assert forall|a: int, b: int| 0 <= a < b < q.len() implies q[a] != q[b] by {
                    assert(pp[pp.len() - 1 - a] != pp[pp.len() - 1 - b]);
                }
                if maze.start == maze.end {
                    assert(q =~= seq![maze.start]);
                }
            }
            (Some(out), total)
        },
        None => {
            proof {
                let v = visited@;
                let ks = index_of(maze.start, w);
                assert(v_start[ks]);
                assert(v[ks]);
                assert(seen(v, w, maze.start));
                assert forall|c: Point| seen(v, w, c) implies #[trigger] explored(*maze, v, c) by {
                    if c != maze.start {
                        if seen(v_start, w, c) {
                            lemma_mark_one(zeros, v_start, w, maze.start, c);
                            lemma_index_in_grid(c, w);
                            assert(!zeros[index_of(c, w)]);
                        }
                        assert(newly_seen(v_start, v, w, c));
                    }
                }
                if seen(v_start, w, maze.end) {
                    lemma_mark_one(zeros, v_start, w, maze.start, maze.end);
                    lemma_index_in_grid(maze.end, w);
                    assert(!zeros[index_of(maze.end, w)]);
                }
                if reachable(*maze, maze.start, maze.end) {
                    let path = choose|path: Seq<Point>|
                        is_walk(*maze, path) && path[0] == maze.start && path.last() == maze.end;
                    lemma_closed_walk(*maze, v, path);
                }
            }
            (None, total)
        },
    }
}

} // verus!
