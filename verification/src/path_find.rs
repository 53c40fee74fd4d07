//! Routing of wires over the grid: the way from one cell to another.

use vstd::prelude::*;
use crate::display_elems::{Screen, ScreenView};

verus! {

/// The cost of a way over the grid.
pub type Cost = u64;

/// A cell of the grid: abscissa, then ordinate.
pub type Point = (i32, i32);

/// The point lies on the grid.
pub open spec fn on_screen(p: Point, scr: ScreenView) -> bool {
    scr.holds(p.0 as int, p.1 as int)
}

/// The two points are different and neighbours: they differ by at most one
/// in each coordinate.
pub open spec fn adjacent(a: Point, b: Point) -> bool {
    &&& a != b
    &&& -1 <= a.0 - b.0 <= 1
    &&& -1 <= a.1 - b.1 <= 1
}

/// A way from `from` to `to`: it starts at the one and ends at the other,
/// stays on the grid, and goes from each point to a neighbour.
pub open spec fn is_route(pts: Seq<Point>, from: Point, to: Point, scr: ScreenView) -> bool {
    &&& pts.len() >= 1
    &&& pts[0] == from
    &&& pts[pts.len() - 1] == to
    &&& forall|i: int| 0 <= i < pts.len() ==> on_screen(#[trigger] pts[i], scr)
    &&& forall|i: int| 0 <= i < pts.len() - 1 ==> adjacent(#[trigger] pts[i], pts[i + 1])
}

/// The distance between two numbers.
pub open spec fn gap(a: int, b: int) -> int {
    if a >= b {
        a - b
    } else {
        b - a
    }
}

/// The estimate of the cost of the way between two points: 14 for each
/// diagonal step and 10 for each straight step of the shortest way on an
/// empty grid.
pub open spec fn heuristic_spec(from: Point, to: Point) -> int {
    let dx = gap(from.0 as int, to.0 as int);
    let dy = gap(from.1 as int, to.1 as int);
    if dx <= dy {
        dx * 14 + (dy - dx) * 10
    } else {
        dy * 14 + (dx - dy) * 10
    }
}

fn gap_of(a: i32, b: i32) -> (r: u64)
    ensures
        r == gap(a as int, b as int),
        r <= 0xffff_ffff,
{
    if a >= b {
        (a as i64 - b as i64) as u64
    } else {
        (b as i64 - a as i64) as u64
    }
}

/// Estimates the cost of the way between two points.
pub fn heuristic_cost(from: Point, to: Point) -> (c: Cost)
    ensures
        c == heuristic_spec(from, to),
{
    let mut x_diff = gap_of(from.0, to.0);
    let mut y_diff = gap_of(from.1, to.1);
    if x_diff > y_diff {
        let t = x_diff;
        x_diff = y_diff;
        y_diff = t;
    }
    x_diff * 14 + (y_diff - x_diff) * 10
}

/// Whether the point `(i, j)` lies on the grid.
pub fn is_valid(i: i32, j: i32, scr: &Screen) -> (r: bool)
    ensures
        r == on_screen((i, j), scr@),
{
    i >= 0 && j >= 0 && (i as usize) < scr.logical_width() && (j as usize) < scr.logical_height()
}

/// The point `p` moved by `(dx, dy)`, where that is a point.
pub open spec fn moved(p: Point, dx: int, dy: int) -> Option<Point> {
    if i32::MIN <= p.0 + dx <= i32::MAX && i32::MIN <= p.1 + dy <= i32::MAX {
        Some(((p.0 + dx) as i32, (p.1 + dy) as i32))
    } else {
        None
    }
}

/// The list with `p` moved by `(dx, dy)` at its end, where that is a point
/// of the grid.
pub open spec fn keep(s: Seq<Point>, p: Point, dx: int, dy: int, scr: ScreenView) -> Seq<Point> {
    match moved(p, dx, dy) {
        Some(q) => if on_screen(q, scr) {
            s.push(q)
        } else {
            s
        },
        None => s,
    }
}

/// The neighbours of `p` on the grid: left, right, above, below, then the
/// four diagonal ones.
pub open spec fn neighbours_spec(p: Point, scr: ScreenView) -> Seq<Point> {
    let s0 = keep(Seq::empty(), p, -1, 0, scr);
    let s1 = keep(s0, p, 1, 0, scr);
    let s2 = keep(s1, p, 0, -1, scr);
    let s3 = keep(s2, p, 0, 1, scr);
    let s4 = keep(s3, p, 1, 1, scr);
    let s5 = keep(s4, p, 1, -1, scr);
    let s6 = keep(s5, p, -1, 1, scr);
    keep(s6, p, -1, -1, scr)
}

fn keep_move(nbrs: &mut Vec<Point>, p: &Point, dx: i32, dy: i32, scr: &Screen)
    requires
        -1 <= dx <= 1,
        -1 <= dy <= 1,
    ensures
        final(nbrs)@ == keep(old(nbrs)@, *p, dx as int, dy as int, scr@),
{
    let x = p.0 as i64 + dx as i64;
    let y = p.1 as i64 + dy as i64;
    if x >= -2147483648 && x <= 2147483647 && y >= -2147483648 && y <= 2147483647 {
        let q: Point = (x as i32, y as i32);
        if is_valid(q.0, q.1, scr) {
            nbrs.push(q);
        }
    }
}

/// The neighbours of `p` on the grid.
pub fn neighbours(p: &Point, scr: &Screen) -> (nbrs: Vec<Point>)
    ensures
        nbrs@ == neighbours_spec(*p, scr@),
{
    let mut nbrs: Vec<Point> = Vec::new();
    keep_move(&mut nbrs, p, -1, 0, scr);
    keep_move(&mut nbrs, p, 1, 0, scr);
    keep_move(&mut nbrs, p, 0, -1, scr);
    keep_move(&mut nbrs, p, 0, 1, scr);
    keep_move(&mut nbrs, p, 1, 1, scr);
    keep_move(&mut nbrs, p, 1, -1, scr);
    keep_move(&mut nbrs, p, -1, 1, scr);
    keep_move(&mut nbrs, p, -1, -1, scr);
    nbrs
}

/// The neighbours of a point are exactly the points of the grid next to
/// it.
pub proof fn lemma_neighbours(p: Point, scr: ScreenView, q: Point)
    ensures
        neighbours_spec(p, scr).contains(q) <==> on_screen(q, scr) && adjacent(p, q),
        neighbours_spec(p, scr).len() <= 8,
{
    let s0 = keep(Seq::empty(), p, -1, 0, scr);
    let s1 = keep(s0, p, 1, 0, scr);
    let s2 = keep(s1, p, 0, -1, scr);
    let s3 = keep(s2, p, 0, 1, scr);
    let s4 = keep(s3, p, 1, 1, scr);
    let s5 = keep(s4, p, 1, -1, scr);
    let s6 = keep(s5, p, -1, 1, scr);
    let s7 = keep(s6, p, -1, -1, scr);
    lemma_keep(Seq::empty(), p, -1, 0, scr, q);
    lemma_keep(s0, p, 1, 0, scr, q);
    lemma_keep(s1, p, 0, -1, scr, q);
    lemma_keep(s2, p, 0, 1, scr, q);
    lemma_keep(s3, p, 1, 1, scr, q);
    lemma_keep(s4, p, 1, -1, scr, q);
    lemma_keep(s5, p, -1, 1, scr, q);
    lemma_keep(s6, p, -1, -1, scr, q);
    assert(!Seq::<Point>::empty().contains(q));
}

/// A list with a move kept holds what it held, and the moved point where
/// that lies on the grid.
pub proof fn lemma_keep(s: Seq<Point>, p: Point, dx: int, dy: int, scr: ScreenView, q: Point)
    ensures
        keep(s, p, dx, dy, scr).contains(q) <==> s.contains(q) || (moved(p, dx, dy) == Some(q)
            && on_screen(q, scr)),
        keep(s, p, dx, dy, scr).len() <= s.len() + 1,
{
    let t = keep(s, p, dx, dy, scr);
    if t.len() > s.len() {
        let m = moved(p, dx, dy)->Some_0;
        assert(t[t.len() - 1] == m);
        if s.contains(q) {
            let i = choose|i: int| 0 <= i < s.len() && s[i] == q;
            assert(t[i] == q);
        }
        if t.contains(q) {
            let i = choose|i: int| 0 <= i < t.len() && t[i] == q;
            if i < s.len() {
                assert(s[i] == q);
            }
        }
    }
}

/// The weight of the cell at a point of the grid.
pub open spec fn weight_at(scr: ScreenView, p: Point) -> int {
    scr.weights[p.1 as int][p.0 as int] as int
}

/// The cost of the step from `a` to its neighbour `b`: 10 for a straight
/// step, 14 for a diagonal one, and the weight of the cell entered.
pub open spec fn step_cost(a: Point, b: Point, scr: ScreenView) -> int {
    heuristic_spec(a, b) + weight_at(scr, b)
}

/// The cost of a way: the costs of its steps together.
pub open spec fn route_cost(pts: Seq<Point>, scr: ScreenView) -> int
    decreases pts.len(),
{
    if pts.len() <= 1 {
        0
    } else {
        route_cost(pts.drop_last(), scr) + step_cost(pts[pts.len() - 2], pts.last(), scr)
    }
}

/// A cost as the search holds it: costs are added up to the largest number
/// that a cost can be, and stay there.
pub open spec fn capped(c: int) -> int {
    if c >= u64::MAX {
        u64::MAX as int
    } else {
        c
    }
}

/// No way costs less than nothing.
pub proof fn lemma_route_cost_positive(pts: Seq<Point>, scr: ScreenView)
    ensures
        route_cost(pts, scr) >= 0,
    decreases pts.len(),
{
    if pts.len() > 1 {
        lemma_route_cost_positive(pts.drop_last(), scr);
    }
}

/// A way that is entered by one more step at its start costs that step
/// more.
pub proof fn lemma_route_cost_front(a: Point, pts: Seq<Point>, scr: ScreenView)
    requires
        pts.len() >= 1,
    ensures
        route_cost(seq![a] + pts, scr) == step_cost(a, pts[0], scr) + route_cost(pts, scr),
    decreases pts.len(),
{
    let all = seq![a] + pts;
    if pts.len() == 1 {
        assert(all.drop_last() =~= seq![a]);
        assert(all[0] == a && all[1] == pts[0]);
        assert(route_cost(seq![a], scr) == 0);
        assert(route_cost(pts, scr) == 0);
        assert(route_cost(all, scr) == route_cost(all.drop_last(), scr) + step_cost(
            all[all.len() - 2],
            all.last(),
            scr,
        ));
    } else {
        let head = pts.drop_last();
        lemma_route_cost_front(a, head, scr);
        assert(all.drop_last() =~= seq![a] + head);
        assert(all[all.len() - 2] == pts[pts.len() - 2]);
        assert(all.last() == pts.last());
        assert(head[0] == pts[0]);
        assert(route_cost(all, scr) == route_cost(all.drop_last(), scr) + step_cost(
            all[all.len() - 2],
            all.last(),
            scr,
        ));
        assert(route_cost(pts, scr) == route_cost(head, scr) + step_cost(
            pts[pts.len() - 2],
            pts.last(),
            scr,
        ));
    }
}

/// The estimate never falls by more than a step costs: from `a` the goal
/// is estimated no farther than the step to a neighbour `b` and the
/// estimate from there.
pub proof fn lemma_estimate_consistent(a: Point, b: Point, t: Point)
    requires
        adjacent(a, b),
    ensures
        heuristic_spec(t, a) <= heuristic_spec(a, b) + heuristic_spec(t, b),
        heuristic_spec(a, b) == 10 || heuristic_spec(a, b) == 14,
{
}

/// The beginning of a way is a way, and each step adds its cost.
pub proof fn lemma_route_prefix(pts: Seq<Point>, from: Point, to: Point, scr: ScreenView, i: int)
    requires
        is_route(pts, from, to, scr),
        1 <= i <= pts.len(),
    ensures
        is_route(pts.take(i), from, pts[i - 1], scr),
        i < pts.len() ==> route_cost(pts.take(i + 1), scr) == route_cost(pts.take(i), scr)
            + step_cost(pts[i - 1], pts[i], scr),
        i == pts.len() ==> pts.take(i) == pts,
{
    let head = pts.take(i);
    assert forall|k: int| 0 <= k < head.len() - 1 implies adjacent(#[trigger] head[k], head[k + 1]) by {
        assert(adjacent(pts[k], pts[k + 1]));
    }
    if i < pts.len() {
        assert(pts.take(i + 1).drop_last() =~= head);
    } else {
        assert(head =~= pts);
    }
}

/// Along a way, the cost so far and the estimate of the rest never fall.
pub proof fn lemma_cost_and_estimate_grow(
    pts: Seq<Point>,
    from: Point,
    to: Point,
    scr: ScreenView,
    goal: Point,
    i: int,
    j: int,
)
    requires
        is_route(pts, from, to, scr),
        1 <= i <= j <= pts.len(),
    ensures
        route_cost(pts.take(i), scr) + heuristic_spec(goal, pts[i - 1]) <= route_cost(
            pts.take(j),
            scr,
        ) + heuristic_spec(goal, pts[j - 1]),
    decreases j - i,
{
    if i < j {
        lemma_cost_and_estimate_grow(pts, from, to, scr, goal, i + 1, j);
        lemma_route_prefix(pts, from, to, scr, i);
        assert(adjacent(pts[i - 1], pts[i - 1 + 1]));
        lemma_estimate_consistent(pts[i - 1], pts[i], goal);
    }
}

/// A point on the way of the search, with the cost of the way to it and
/// the estimate of the rest.
pub struct OrdPt {
    pub pos: Point,
    pub gcost: Cost,
    pub hcost: Cost,
}

impl OrdPt {
    /// The neighbours of the point on the grid.
    pub fn neighbours(&self, scr: &Screen) -> (nbrs: Vec<Point>)
        ensures
            nbrs@ == neighbours_spec(self.pos, scr@),
    {
        neighbours(&self.pos, scr)
    }

    /// Whether the point `(i, j)` lies on the grid.
    pub fn is_valid(&self, i: i32, j: i32, scr: &Screen) -> (r: bool)
        ensures
            r == on_screen((i, j), scr@),
    {
        is_valid(i, j, scr)
    }

    /// The estimate of the whole way through the point; it stops at the
    /// largest cost.
    pub fn fcost(&self) -> (c: Cost)
        ensures
            c == if self.gcost + self.hcost > u64::MAX {
                u64::MAX as int
            } else {
                self.gcost + self.hcost
            },
    {
        return self.gcost.saturating_add(self.hcost);
    }
}

/// The grid `g` has a cell for each cell of the screen.
pub open spec fn shaped<T>(g: Seq<Vec<T>>, scr: ScreenView) -> bool {
    &&& g.len() == scr.height
    &&& forall|y: int| 0 <= y < scr.height ==> (#[trigger] g[y])@.len() == scr.width
}

/// The cell of the grid `g` at the point `p`.
pub open spec fn cell<T>(g: Seq<Vec<T>>, p: Point) -> T {
    g[p.1 as int]@[p.0 as int]
}

/// How many cells of a row are not marked.
pub open spec fn unmarked_in(row: Seq<bool>) -> nat
    decreases row.len(),
{
    if row.len() == 0 {
        0
    } else {
        unmarked_in(row.drop_last()) + if row.last() {
            0nat
        } else {
            1nat
        }
    }
}

/// How many cells of a grid are not marked.
pub open spec fn unmarked(g: Seq<Vec<bool>>) -> nat
    decreases g.len(),
{
    if g.len() == 0 {
        0
    } else {
        unmarked(g.drop_last()) + unmarked_in(g.last()@)
    }
}

/// Marking an unmarked cell of a row leaves one unmarked cell less.
pub proof fn lemma_mark_row(row: Seq<bool>, x: int)
    requires
        0 <= x < row.len(),
        !row[x],
    ensures
        unmarked_in(row.update(x, true)) + 1 == unmarked_in(row),
    decreases row.len(),
{
    if x == row.len() - 1 {
        assert(row.update(x, true).drop_last() =~= row.drop_last());
    } else {
        assert(row.update(x, true).drop_last() =~= row.drop_last().update(x, true));
        lemma_mark_row(row.drop_last(), x);
    }
}

/// Marking an unmarked cell of a grid leaves one unmarked cell less.
pub proof fn lemma_mark_grid(g: Seq<Vec<bool>>, h: Seq<Vec<bool>>, y: int, x: int)
    requires
        0 <= y < g.len(),
        0 <= x < g[y]@.len(),
        !g[y]@[x],
        h.len() == g.len(),
        h[y]@ == g[y]@.update(x, true),
        forall|k: int| 0 <= k < g.len() && k != y ==> h[k] == g[k],
    ensures
        unmarked(h) + 1 == unmarked(g),
    decreases g.len(),
{
    if y == g.len() - 1 {
        assert(h.drop_last() =~= g.drop_last());
        lemma_mark_row(g[y]@, x);
    } else {
        lemma_mark_grid(g.drop_last(), h.drop_last(), y, x);
    }
}

fn grid<T: Copy>(width: usize, height: usize, v: T, Ghost(scr): Ghost<ScreenView>) -> (g: Vec<Vec<T>>)
    requires
        scr.width == width,
        scr.height == height,
    ensures
        shaped(g@, scr),
        forall|p: Point| on_screen(p, scr) ==> #[trigger] cell(g@, p) == v,
{
    let mut g: Vec<Vec<T>> = Vec::new();
    let mut y: usize = 0;
    while y < height
        invariant
            y <= height,
            g@.len() == y,
            forall|k: int| 0 <= k < y ==> (#[trigger] g@[k])@.len() == width,
            forall|k: int, x: int| 0 <= k < y && 0 <= x < width ==> #[trigger] g@[k]@[x] == v,
        decreases height - y,
    {
        let mut row: Vec<T> = Vec::new();
        let mut x: usize = 0;
        while x < width
            invariant
                x <= width,
                row@.len() == x,
                forall|k: int| 0 <= k < x ==> row@[k] == v,
            decreases width - x,
        {
            row.push(v);
            x = x + 1;
        }
        g.push(row);
        y = y + 1;
    }
    assert forall|p: Point| on_screen(p, scr) implies #[trigger] cell(g@, p) == v by {
        assert(g@[p.1 as int]@[p.0 as int] == v);
    }
    g
}

fn get<T: Copy>(g: &Vec<Vec<T>>, p: Point, Ghost(scr): Ghost<ScreenView>) -> (v: T)
    requires
        shaped(g@, scr),
        on_screen(p, scr),
    ensures
        v == cell(g@, p),
{
    g[p.1 as usize][p.0 as usize]
}

fn put<T>(g: &mut Vec<Vec<T>>, p: Point, v: T, Ghost(scr): Ghost<ScreenView>)
    requires
        shaped(old(g)@, scr),
        on_screen(p, scr),
    ensures
        shaped(final(g)@, scr),
        cell(final(g)@, p) == v,
        forall|q: Point| on_screen(q, scr) && q != p ==> #[trigger] cell(final(g)@, q) == cell(old(g)@, q),
        final(g)@.len() == old(g)@.len(),
        final(g)@[p.1 as int]@ == old(g)@[p.1 as int]@.update(p.0 as int, v),
        forall|k: int| 0 <= k < old(g)@.len() && k != p.1 ==> final(g)@[k] == old(g)@[k],
{
    g[p.1 as usize][p.0 as usize] = v;
}

/// Any point of the grid is reached from any other by steps to
/// neighbours: a set of points that holds `from` and, with each of its
/// points, the neighbours of that point on the grid, holds every point of
/// the grid.
pub proof fn lemma_grid_connected(v: Set<Point>, scr: ScreenView, from: Point, q: Point)
    requires
        on_screen(from, scr),
        on_screen(q, scr),
        v.contains(from),
        forall|a: Point, b: Point|
            v.contains(a) && on_screen(a, scr) && on_screen(b, scr) && #[trigger] adjacent(a, b)
                ==> v.contains(b),
    ensures
        v.contains(q),
    decreases gap(q.0 as int, from.0 as int) + gap(q.1 as int, from.1 as int),
{
    if q == from {
    } else {
        let nearer: Point = if q.0 > from.0 {
            ((q.0 - 1) as i32, q.1)
        } else if q.0 < from.0 {
            ((q.0 + 1) as i32, q.1)
        } else if q.1 > from.1 {
            (q.0, (q.1 - 1) as i32)
        } else {
            (q.0, (q.1 + 1) as i32)
        };
        lemma_grid_connected(v, scr, from, nearer);
        assert(adjacent(nearer, q));
    }
}

/// The place of an entry of least cost in a frontier that is not empty.
fn least(frontier: &Vec<(Cost, Point)>) -> (idx: usize)
    requires
        frontier@.len() > 0,
    ensures
        idx < frontier@.len(),
        forall|i: int| 0 <= i < frontier@.len() ==> frontier@[idx as int].0 <= frontier@[i].0,
{
    let mut idx: usize = 0;
    let mut i: usize = 1;
    while i < frontier.len()
        invariant
            1 <= i <= frontier@.len(),
            idx < i,
            forall|k: int| 0 <= k < i ==> frontier@[idx as int].0 <= frontier@[k].0,
        decreases frontier@.len() - i,
    {
        if frontier[i].0 < frontier[idx].0 {
            idx = i;
        }
        i = i + 1;
    }
    idx
}

/// The state of a search: which points were visited and in which order,
/// which were found, from which point each was found, and at what cost.
pub struct Search {
    pub visited: Set<Point>,
    pub found: Set<Point>,
    pub parent: Map<Point, Point>,
    pub rank: Map<Point, nat>,
    pub clock: nat,
    pub cost: Map<Point, int>,
}

impl Search {
    /// Every visited point was found; the start was found; every other
    /// found point was found from a visited neighbour, which was visited
    /// before it; and the neighbours of every visited point were found.
    pub open spec fn inv(self, from: Point, scr: ScreenView) -> bool {
        &&& forall|p: Point| #[trigger] self.visited.contains(p) ==> self.found.contains(p)
        &&& forall|p: Point| #[trigger] self.found.contains(p) ==> on_screen(p, scr)
        &&& self.found.contains(from)
        &&& forall|p: Point|
            #[trigger] self.found.contains(p) && p != from ==> {
                &&& self.parent.contains_key(p)
                &&& self.visited.contains(self.parent[p])
                &&& adjacent(self.parent[p], p)
            }
        &&& forall|p: Point|
            #[trigger] self.visited.contains(p) ==> self.rank.contains_key(p) && self.rank[p]
                < self.clock
        &&& forall|p: Point|
            #[trigger] self.visited.contains(p) && p != from ==> self.rank[self.parent[p]]
                < self.rank[p]
    }

    /// The neighbours of every visited point but `cur` were found.
    pub open spec fn closed_but(self, cur: Option<Point>, scr: ScreenView) -> bool {
        forall|a: Point, b: Point|
            self.visited.contains(a) && Some(a) != cur && on_screen(a, scr) && on_screen(b, scr)
                && #[trigger] adjacent(a, b) ==> self.found.contains(b)
    }
}

/// The grids mirror the state of the search.
pub open spec fn mirrors(
    s: Search,
    visited: Seq<Vec<bool>>,
    found: Seq<Vec<bool>>,
    prev: Seq<Vec<Point>>,
    from: Point,
    scr: ScreenView,
) -> bool {
    &&& shaped(visited, scr)
    &&& shaped(found, scr)
    &&& shaped(prev, scr)
    &&& forall|p: Point| on_screen(p, scr) ==> #[trigger] cell(visited, p) == s.visited.contains(p)
    &&& forall|p: Point| on_screen(p, scr) ==> #[trigger] cell(found, p) == s.found.contains(p)
    &&& forall|p: Point|
        on_screen(p, scr) && s.found.contains(p) && p != from ==> #[trigger] cell(prev, p)
            == s.parent[p]
}

/// Every found point that was not visited waits in the frontier, and the
/// frontier holds found points only.
pub open spec fn waiting(s: Search, frontier: Seq<(Cost, Point)>) -> bool {
    &&& forall|p: Point|
        #[trigger] s.found.contains(p) && !s.visited.contains(p) ==> exists|i: int|
            0 <= i < frontier.len() && (#[trigger] frontier[i]).1 == p
    &&& forall|i: int| 0 <= i < frontier.len() ==> s.found.contains((#[trigger] frontier[i]).1)
}

/// The entry with which a found point waits in the frontier: the cost of
/// the way to it and the estimate of the rest, and the point.
pub open spec fn entry_of(s: Search, to: Point, p: Point) -> (Cost, Point) {
    (capped(s.cost[p] + heuristic_spec(to, p)) as u64, p)
}

/// The costs of the search are in order. The grid of costs holds the cost
/// of every found point; the start costs nothing; every other found point
/// costs what the point it was found from costs and the step from there;
/// no step from a visited point but `cur`, nor from `cur` to a point of
/// `done`, would make a waiting point cheaper; no way from the start to a
/// visited point costs less than the point does, unless the way reaches
/// the ceiling of the costs; and every waiting point stands in the
/// frontier with its cost and estimate, below every other entry for it.
#[verifier::opaque]
pub open spec fn priced(
    s: Search,
    frontier: Seq<(Cost, Point)>,
    costs: Seq<Vec<Cost>>,
    scr: ScreenView,
    from: Point,
    to: Point,
    cur: Option<Point>,
    done: Seq<Point>,
) -> bool {
    &&& s.cost[from] == 0
    &&& forall|p: Point|
        #[trigger] s.found.contains(p) ==> 0 <= s.cost[p] <= u64::MAX && cell(costs, p) == s.cost[p]
    &&& forall|p: Point|
        #[trigger] s.found.contains(p) && p != from ==> s.cost[p] == capped(
            s.cost[s.parent[p]] + step_cost(s.parent[p], p, scr),
        )
    &&& forall|y: Point, v: Point|
        s.visited.contains(y) && Some(y) != cur && on_screen(v, scr) && #[trigger] adjacent(y, v)
            && !s.visited.contains(v) ==> s.cost[v] <= capped(s.cost[y] + step_cost(y, v, scr))
    &&& match cur {
        Some(c) => forall|i: int|
            0 <= i < done.len() && !s.visited.contains(#[trigger] done[i]) ==> s.cost[done[i]]
                <= capped(s.cost[c] + step_cost(c, done[i], scr)),
        None => true,
    }
    &&& forall|u: Point, way: Seq<Point>|
        s.visited.contains(u) && #[trigger] is_route(way, from, u, scr) ==> s.cost[u] <= route_cost(
            way,
            scr,
        ) || route_cost(way, scr) + heuristic_spec(to, u) >= u64::MAX
    &&& forall|p: Point|
        #[trigger] s.found.contains(p) && !s.visited.contains(p) && p != from ==> exists|i: int|
            0 <= i < frontier.len() && (#[trigger] frontier[i]) == entry_of(s, to, p)
    &&& forall|i: int|
        0 <= i < frontier.len() && (#[trigger] frontier[i]).1 != from ==> frontier[i].0 >= capped(
            s.cost[frontier[i].1] + heuristic_spec(to, frontier[i].1),
        )
}

/// What the order of the costs gives for single points.
pub proof fn lemma_priced_facts(
    s: Search,
    frontier: Seq<(Cost, Point)>,
    costs: Seq<Vec<Cost>>,
    scr: ScreenView,
    from: Point,
    to: Point,
    cur: Option<Point>,
    done: Seq<Point>,
)
    requires
        priced(s, frontier, costs, scr, from, to, cur, done),
    ensures
        s.cost[from] == 0,
        forall|p: Point|
            #[trigger] s.found.contains(p) ==> 0 <= s.cost[p] <= u64::MAX && cell(costs, p)
                == s.cost[p],
        forall|p: Point|
            #[trigger] s.found.contains(p) && p != from ==> s.cost[p] == capped(
                s.cost[s.parent[p]] + step_cost(s.parent[p], p, scr),
            ),
        forall|way: Seq<Point>|
            s.visited.contains(to) && #[trigger] is_route(way, from, to, scr) ==> s.cost[to]
                <= route_cost(way, scr) || route_cost(way, scr) >= u64::MAX,
{
    reveal(priced);
}

/// The first point of a way that was not visited, where the way starts at
/// a visited point and ends at one that was not: the point before it was
/// visited.
pub proof fn lemma_first_outside(way: Seq<Point>, visited: Set<Point>, upto: int) -> (i: int)
    requires
        1 <= upto < way.len(),
        visited.contains(way[0]),
        !visited.contains(way[upto]),
    ensures
        1 <= i <= upto,
        visited.contains(way[i - 1]),
        !visited.contains(way[i]),
    decreases upto,
{
    if visited.contains(way[upto - 1]) {
        upto
    } else {
        lemma_first_outside(way, visited, upto - 1)
    }
}

/// The point that the frontier gives up as its least entry has the least
/// cost of all ways to it from the start, unless such a way reaches the
/// ceiling of the costs.
pub proof fn lemma_least_entry_is_cheapest(
    s: Search,
    frontier: Seq<(Cost, Point)>,
    idx: int,
    costs: Seq<Vec<Cost>>,
    scr: ScreenView,
    from: Point,
    to: Point,
    way: Seq<Point>,
)
    requires
        s.inv(from, scr),
        s.closed_but(None, scr),
        waiting(s, frontier),
        priced(s, frontier, costs, scr, from, to, None, Seq::empty()),
        0 <= idx < frontier.len(),
        forall|i: int| 0 <= i < frontier.len() ==> frontier[idx].0 <= frontier[i].0,
        !s.visited.contains(frontier[idx].1),
        is_route(way, from, frontier[idx].1, scr),
    ensures
        s.cost[frontier[idx].1] <= route_cost(way, scr) || route_cost(way, scr) + heuristic_spec(
            to,
            frontier[idx].1,
        ) >= u64::MAX,
{
    reveal(priced);
    let u = frontier[idx].1;
    let n = way.len() as int;
    lemma_route_cost_positive(way, scr);
    assert(s.found.contains(frontier[idx].1));
    if !s.visited.contains(from) {
        if u != from {
            assert(s.visited.contains(s.parent[u]));
            lemma_start_first(s, from, scr, s.parent[u]);
        }
    } else {
        assert(u != from);
        assert(way[0] == from && way[n - 1] == u);
        let i = lemma_first_outside(way, s.visited, n - 1);
        let y = way[i - 1];
        let x = way[i];
        lemma_route_prefix(way, from, u, scr, i);
        lemma_route_prefix(way, from, u, scr, n);
        lemma_cost_and_estimate_grow(way, from, u, scr, to, i, i + 1);
        lemma_cost_and_estimate_grow(way, from, u, scr, to, i + 1, n);
        lemma_route_cost_positive(way.take(i), scr);
        lemma_route_cost_positive(way.take(i + 1), scr);
        if route_cost(way, scr) + heuristic_spec(to, u) < u64::MAX {
            assert(is_route(way.take(i), from, y, scr));
            assert(s.cost[y] <= route_cost(way.take(i), scr));
            assert(adjacent(way[i - 1], way[i - 1 + 1]));
            assert(on_screen(x, scr));
            assert(on_screen(y, scr));
            assert(s.found.contains(x));
            assert(x != from);
            assert(s.cost[x] <= capped(s.cost[y] + step_cost(y, x, scr)));
            let j = choose|j: int| 0 <= j < frontier.len() && (#[trigger] frontier[j]) == entry_of(s, to, x);
            assert(frontier[idx].0 <= frontier[j].0);
            assert(frontier[idx].0 >= capped(s.cost[u] + heuristic_spec(to, u)));
        }
    }
}

/// Dropping an entry for a point that was visited already keeps the costs
/// in order.
pub proof fn lemma_priced_stale(
    s: Search,
    f0: Seq<(Cost, Point)>,
    idx: int,
    costs: Seq<Vec<Cost>>,
    scr: ScreenView,
    from: Point,
    to: Point,
)
    requires
        priced(s, f0, costs, scr, from, to, None, Seq::empty()),
        0 <= idx < f0.len(),
        s.visited.contains(f0[idx].1),
    ensures
        priced(s, f0.update(idx, f0.last()).drop_last(), costs, scr, from, to, None, Seq::empty()),
{
    reveal(priced);
    let f1 = f0.update(idx, f0.last()).drop_last();
    assert forall|p: Point|
        #[trigger] s.found.contains(p) && !s.visited.contains(p) && p != from implies exists|i: int|
        0 <= i < f1.len() && (#[trigger] f1[i]) == entry_of(s, to, p) by {
        let j = choose|j: int| 0 <= j < f0.len() && (#[trigger] f0[j]) == entry_of(s, to, p);
        if j == f0.len() - 1 {
            assert(f1[idx] == entry_of(s, to, p));
        } else {
            assert(f1[j] == entry_of(s, to, p));
        }
    }
    assert forall|i: int| 0 <= i < f1.len() && (#[trigger] f1[i]).1 != from implies f1[i].0 >= capped(
        s.cost[f1[i].1] + heuristic_spec(to, f1[i].1),
    ) by {
        if i == idx {
            assert(f1[i] == f0[f0.len() - 1]);
        } else {
            assert(f1[i] == f0[i]);
        }
    }
}

/// Visiting the point of the least entry of the frontier keeps the costs
/// in order; its neighbours are still to be looked at.
pub proof fn lemma_priced_close(
    s0: Search,
    s1: Search,
    f0: Seq<(Cost, Point)>,
    idx: int,
    costs: Seq<Vec<Cost>>,
    scr: ScreenView,
    from: Point,
    to: Point,
)
    requires
        s0.inv(from, scr),
        s0.closed_but(None, scr),
        waiting(s0, f0),
        priced(s0, f0, costs, scr, from, to, None, Seq::empty()),
        0 <= idx < f0.len(),
        forall|i: int| 0 <= i < f0.len() ==> f0[idx].0 <= f0[i].0,
        !s0.visited.contains(f0[idx].1),
        s1 == (Search {
            visited: s0.visited.insert(f0[idx].1),
            rank: s0.rank.insert(f0[idx].1, s0.clock),
            clock: s0.clock + 1,
            ..s0
        }),
    ensures
        priced(
            s1,
            f0.update(idx, f0.last()).drop_last(),
            costs,
            scr,
            from,
            to,
            Some(f0[idx].1),
            Seq::empty(),
        ),
{
    let u = f0[idx].1;
    let f1 = f0.update(idx, f0.last()).drop_last();
    assert forall|v: Point, way: Seq<Point>|
        s1.visited.contains(v) && #[trigger] is_route(way, from, v, scr) implies s1.cost[v]
        <= route_cost(way, scr) || route_cost(way, scr) + heuristic_spec(to, v) >= u64::MAX by {
        if v == u {
            lemma_least_entry_is_cheapest(s0, f0, idx, costs, scr, from, to, way);
        } else {
            reveal(priced);
            assert(s0.visited.contains(v));
        }
    }
    reveal(priced);
    assert forall|p: Point|
        #[trigger] s1.found.contains(p) && !s1.visited.contains(p) && p != from implies exists|i: int|
        0 <= i < f1.len() && (#[trigger] f1[i]) == entry_of(s1, to, p) by {
        assert(s0.found.contains(p) && !s0.visited.contains(p));
        let j = choose|j: int| 0 <= j < f0.len() && (#[trigger] f0[j]) == entry_of(s0, to, p);
        assert(j != idx);
        if j == f0.len() - 1 {
            assert(f1[idx] == entry_of(s1, to, p));
        } else {
            assert(f1[j] == entry_of(s1, to, p));
        }
    }
    assert forall|i: int| 0 <= i < f1.len() && (#[trigger] f1[i]).1 != from implies f1[i].0 >= capped(
        s1.cost[f1[i].1] + heuristic_spec(to, f1[i].1),
    ) by {
        if i == idx {
            assert(f1[i] == f0[f0.len() - 1]);
        } else {
            assert(f1[i] == f0[i]);
        }
    }
    assert forall|y: Point, v: Point|
        s1.visited.contains(y) && Some(y) != Some(u) && on_screen(v, scr) && #[trigger] adjacent(
            y,
            v,
        ) && !s1.visited.contains(v) implies s1.cost[v] <= capped(
        s1.cost[y] + step_cost(y, v, scr),
    ) by {
        assert(s0.visited.contains(y));
        assert(!s0.visited.contains(v));
    }
}

/// A neighbour that was visited, or that the step from `cur` does not make
/// cheaper, is done with.
pub proof fn lemma_priced_skip(
    s: Search,
    frontier: Seq<(Cost, Point)>,
    costs: Seq<Vec<Cost>>,
    scr: ScreenView,
    from: Point,
    to: Point,
    cur: Point,
    done: Seq<Point>,
    v: Point,
)
    requires
        priced(s, frontier, costs, scr, from, to, Some(cur), done),
        s.visited.contains(v) || s.cost[v] <= capped(s.cost[cur] + step_cost(cur, v, scr)),
    ensures
        priced(s, frontier, costs, scr, from, to, Some(cur), done.push(v)),
{
    reveal(priced);
    let more = done.push(v);
    assert forall|i: int| 0 <= i < more.len() && !s.visited.contains(#[trigger] more[i]) implies s.cost[more[i]]
        <= capped(s.cost[cur] + step_cost(cur, more[i], scr)) by {
        if i < done.len() {
            assert(more[i] == done[i]);
        }
    }
}

/// A neighbour that the step from `cur` finds, or makes cheaper, takes
/// that cost and waits in the frontier with it.
pub proof fn lemma_priced_relax(
    s0: Search,
    s1: Search,
    f0: Seq<(Cost, Point)>,
    c0: Seq<Vec<Cost>>,
    c1: Seq<Vec<Cost>>,
    scr: ScreenView,
    from: Point,
    to: Point,
    cur: Point,
    done: Seq<Point>,
    v: Point,
    mc: Cost,
)
    requires
        s0.inv(from, scr),
        s0.closed_but(Some(cur), scr),
        waiting(s0, f0),
        s0.visited.contains(cur),
        priced(s0, f0, c0, scr, from, to, Some(cur), done),
        on_screen(v, scr),
        adjacent(cur, v),
        !s0.visited.contains(v),
        v != from,
        mc == capped(s0.cost[cur] + step_cost(cur, v, scr)),
        !s0.found.contains(v) || mc < s0.cost[v],
        s1 == (Search {
            found: s0.found.insert(v),
            parent: s0.parent.insert(v, cur),
            cost: s0.cost.insert(v, mc as int),
            ..s0
        }),
        cell(c1, v) == mc,
        forall|q: Point| on_screen(q, scr) && q != v ==> #[trigger] cell(c1, q) == cell(c0, q),
    ensures
        priced(
            s1,
            f0.push((capped(mc + heuristic_spec(to, v)) as u64, v)),
            c1,
            scr,
            from,
            to,
            Some(cur),
            done.push(v),
        ),
{
    reveal(priced);
    let f1 = f0.push((capped(mc + heuristic_spec(to, v)) as u64, v));
    let more = done.push(v);
    assert(s0.found.contains(cur));
    assert(0 <= s0.cost[cur]);
    assert forall|p: Point| #[trigger] s1.found.contains(p) implies 0 <= s1.cost[p] <= u64::MAX
        && cell(c1, p) == s1.cost[p] by {
        if p != v {
            assert(s0.found.contains(p));
            assert(on_screen(p, scr));
        }
    }
    assert forall|p: Point| #[trigger] s1.found.contains(p) && p != from implies s1.cost[p]
        == capped(s1.cost[s1.parent[p]] + step_cost(s1.parent[p], p, scr)) by {
        if p != v {
            assert(s0.found.contains(p));
            assert(s0.visited.contains(s0.parent[p]));
        }
    }
    assert forall|y: Point, w: Point|
        s1.visited.contains(y) && Some(y) != Some(cur) && on_screen(w, scr) && #[trigger] adjacent(
            y,
            w,
        ) && !s1.visited.contains(w) implies s1.cost[w] <= capped(
        s1.cost[y] + step_cost(y, w, scr),
    ) by {
        if w == v {
            assert(on_screen(y, scr)) by {
                assert(s0.found.contains(y));
            }
            assert(s0.found.contains(v));
        }
    }
    assert forall|i: int| 0 <= i < more.len() && !s1.visited.contains(#[trigger] more[i]) implies s1.cost[more[i]]
        <= capped(s1.cost[cur] + step_cost(cur, more[i], scr)) by {
        if i < done.len() {
            assert(more[i] == done[i]);
        }
    }
    assert forall|u: Point, way: Seq<Point>|
        s1.visited.contains(u) && #[trigger] is_route(way, from, u, scr) implies s1.cost[u]
        <= route_cost(way, scr) || route_cost(way, scr) + heuristic_spec(to, u) >= u64::MAX by {
        assert(s0.visited.contains(u));
    }
    assert forall|p: Point|
        #[trigger] s1.found.contains(p) && !s1.visited.contains(p) && p != from implies exists|i: int|
        0 <= i < f1.len() && (#[trigger] f1[i]) == entry_of(s1, to, p) by {
        if p == v {
            assert(f1[f0.len() as int] == entry_of(s1, to, p));
        } else {
            assert(s0.found.contains(p));
            let j = choose|j: int| 0 <= j < f0.len() && (#[trigger] f0[j]) == entry_of(s0, to, p);
            assert(f1[j] == entry_of(s1, to, p));
        }
    }
    assert forall|i: int| 0 <= i < f1.len() && (#[trigger] f1[i]).1 != from implies f1[i].0 >= capped(
        s1.cost[f1[i].1] + heuristic_spec(to, f1[i].1),
    ) by {
        if i < f0.len() {
            assert(f1[i] == f0[i]);
            assert(s0.found.contains(f0[i].1));
        }
    }
}

/// Once every neighbour of `cur` is done with, no step from any visited
/// point would make a waiting point cheaper.
pub proof fn lemma_priced_rest(
    s: Search,
    frontier: Seq<(Cost, Point)>,
    costs: Seq<Vec<Cost>>,
    scr: ScreenView,
    from: Point,
    to: Point,
    cur: Point,
)
    requires
        on_screen(cur, scr),
        priced(s, frontier, costs, scr, from, to, Some(cur), neighbours_spec(cur, scr)),
    ensures
        priced(s, frontier, costs, scr, from, to, None, Seq::empty()),
{
    reveal(priced);
    let nbrs = neighbours_spec(cur, scr);
    assert forall|y: Point, v: Point|
        s.visited.contains(y) && on_screen(v, scr) && #[trigger] adjacent(y, v)
            && !s.visited.contains(v) implies s.cost[v] <= capped(
        s.cost[y] + step_cost(y, v, scr),
    ) by {
        if y == cur {
            lemma_neighbours(cur, scr, v);
            let j = choose|j: int| 0 <= j < nbrs.len() && nbrs[j] == v;
            assert(!s.visited.contains(nbrs[j]));
        }
    }
}

/// One step back along the way keeps the cost of the goal at the cost of
/// the point reached and the cost of the way from there.
pub proof fn lemma_walk_cost(
    s: Search,
    scr: ScreenView,
    to: Point,
    pos: Point,
    before: Point,
    pts: Seq<Point>,
)
    requires
        pts.len() >= 1,
        pts[0] == pos,
        adjacent(before, pos),
        0 <= s.cost[before],
        s.cost[pos] == capped(s.cost[before] + step_cost(before, pos, scr)),
        s.cost[to] == capped(s.cost[pos] + route_cost(pts, scr)),
    ensures
        s.cost[to] == capped(s.cost[before] + route_cost(seq![before] + pts, scr)),
{
    lemma_route_cost_front(before, pts, scr);
    lemma_route_cost_positive(pts, scr);
    lemma_estimate_consistent(before, pos, to);
}

/// Walks back from `to` to `from` along the points from which each was
/// found, and gives the way from `from` to `to`.
#[verifier::rlimit(30)]
fn walk_back(
    from: Point,
    to: Point,
    prev: &Vec<Vec<Point>>,
    Ghost(s): Ghost<Search>,
    Ghost(visited): Ghost<Seq<Vec<bool>>>,
    Ghost(found): Ghost<Seq<Vec<bool>>>,
    Ghost(scr): Ghost<ScreenView>,
) -> (pts: Vec<Point>)
    requires
        s.inv(from, scr),
        mirrors(s, visited, found, prev@, from, scr),
        s.visited.contains(to),
        s.cost[from] == 0,
        forall|p: Point| #[trigger] s.found.contains(p) ==> 0 <= s.cost[p] <= u64::MAX,
        forall|p: Point|
            #[trigger] s.found.contains(p) && p != from ==> s.cost[p] == capped(
                s.cost[s.parent[p]] + step_cost(s.parent[p], p, scr),
            ),
    ensures
        is_route(pts@, from, to, scr),
        pts@.no_duplicates(),
        s.cost[to] == capped(route_cost(pts@, scr)),
{
    let mut pts: Vec<Point> = Vec::new();
    pts.push(to);
    let mut pos = to;
    proof {
        assert(s.found.contains(to));
        assert(route_cost(pts@, scr) == 0);
    }
    while pos.0 != from.0 || pos.1 != from.1
        invariant
            s.cost[from] == 0,
            forall|p: Point| #[trigger] s.found.contains(p) ==> 0 <= s.cost[p] <= u64::MAX,
            forall|p: Point|
                #[trigger] s.found.contains(p) && p != from ==> s.cost[p] == capped(
                    s.cost[s.parent[p]] + step_cost(s.parent[p], p, scr),
                ),
            s.cost[to] == capped(s.cost[pos] + route_cost(pts@, scr)),
            s.inv(from, scr),
            mirrors(s, visited, found, prev@, from, scr),
            s.visited.contains(pos),
            pts@.len() >= 1,
            pts@[0] == pos,
            pts@[pts@.len() - 1] == to,
            forall|i: int| 0 <= i < pts@.len() ==> on_screen(#[trigger] pts@[i], scr),
            forall|i: int| 0 <= i < pts@.len() - 1 ==> adjacent(#[trigger] pts@[i], pts@[i + 1]),
            forall|i: int| 0 <= i < pts@.len() ==> s.visited.contains(#[trigger] pts@[i]),
            forall|i: int, j: int|
                0 <= i < j < pts@.len() ==> s.rank[#[trigger] pts@[i]] < s.rank[#[trigger] pts@[j]],
        decreases s.rank[pos],
    {
        assert(s.found.contains(pos));
        let before = get(prev, pos, Ghost(scr));
        assert(s.visited.contains(before));
        assert(s.found.contains(before));
        let ghost old_pts = pts@;
        pts.insert(0, before);
        proof {
            assert forall|i: int| 0 <= i < pts@.len() implies on_screen(#[trigger] pts@[i], scr) by {
                if i > 0 {
                    assert(pts@[i] == old_pts[i - 1]);
                }
            }
            assert forall|i: int| 0 <= i < pts@.len() - 1 implies adjacent(
                #[trigger] pts@[i],
                pts@[i + 1],
            ) by {
                if i > 0 {
                    assert(pts@[i] == old_pts[i - 1]);
                    assert(pts@[i + 1] == old_pts[i]);
                } else {
                    assert(pts@[1] == old_pts[0]);
                }
            }
            assert forall|i: int| 0 <= i < pts@.len() implies s.visited.contains(
                #[trigger] pts@[i],
            ) by {
                if i > 0 {
                    assert(pts@[i] == old_pts[i - 1]);
                }
            }
            assert(s.rank[before] < s.rank[pos]);
            assert(s.cost[to] == capped(s.cost[before] + route_cost(pts@, scr))) by {
                assert(pts@ =~= seq![before] + old_pts);
                assert(adjacent(before, pos));
                assert(s.cost[pos] == capped(s.cost[before] + step_cost(before, pos, scr)));
                assert(0 <= s.cost[before]);
                lemma_walk_cost(s, scr, to, pos, before, old_pts);
            }
            assert forall|i: int, j: int| 0 <= i < j < pts@.len() implies s.rank[#[trigger] pts@[i]]
                < s.rank[#[trigger] pts@[j]] by {
                assert(pts@[j] == old_pts[j - 1]);
                if i > 0 {
                    assert(pts@[i] == old_pts[i - 1]);
                } else if j > 1 {
                    assert(s.rank[old_pts[0]] < s.rank[old_pts[j - 1]]);
                }
            }
        }
        pos = before;
    }
    pts
}

/// Looks at the neighbours of the point `cur` that was just visited: each
/// one that was not visited yet, and that the step from `cur` finds or
/// makes cheaper, takes `cur` as the point it is found from and waits in
/// the frontier with its new cost.
#[verifier::rlimit(30)]
fn expand(
    curr_pt: Point,
    from: Point,
    to: Point,
    scr: &Screen,
    visited: &Vec<Vec<bool>>,
    found: Vec<Vec<bool>>,
    prev_loc: Vec<Vec<Point>>,
    g_costs_so_far: Vec<Vec<Cost>>,
    frontier: Vec<(Cost, Point)>,
    Ghost(s0): Ghost<Search>,
) -> (r: (Vec<Vec<bool>>, Vec<Vec<Point>>, Vec<Vec<Cost>>, Vec<(Cost, Point)>, Ghost<Search>))
    requires
        scr.wf(),
        on_screen(from, scr@),
        on_screen(to, scr@),
        on_screen(curr_pt, scr@),
        s0.visited.contains(curr_pt),
        !s0.visited.contains(to),
        s0.inv(from, scr@),
        s0.closed_but(Some(curr_pt), scr@),
        mirrors(s0, visited@, found@, prev_loc@, from, scr@),
        shaped(g_costs_so_far@, scr@),
        waiting(s0, frontier@),
        priced(s0, frontier@, g_costs_so_far@, scr@, from, to, Some(curr_pt), Seq::empty()),
    ensures
        r.4@.visited == s0.visited,
        r.4@.inv(from, scr@),
        r.4@.closed_but(None, scr@),
        mirrors(r.4@, visited@, r.0@, r.1@, from, scr@),
        shaped(r.2@, scr@),
        waiting(r.4@, r.3@),
        priced(r.4@, r.3@, r.2@, scr@, from, to, None, Seq::empty()),
{
    let ghost view = scr@;
    let ghost mut s = s0;
    let mut found = found;
    let mut prev_loc = prev_loc;
    let mut g_costs_so_far = g_costs_so_far;
    let mut frontier = frontier;
    proof {
        lemma_priced_facts(
            s,
            frontier@,
            g_costs_so_far@,
            view,
            from,
            to,
            Some(curr_pt),
            Seq::empty(),
        );
        assert(s.found.contains(curr_pt));
    }
    let nbrs = neighbours(&curr_pt, scr);
    let here = get(&g_costs_so_far, curr_pt, Ghost(view));
    let mut k: usize = 0;
    assert(nbrs@.take(0) =~= Seq::empty());
    while k < nbrs.len()
        invariant
            priced(
                s,
                frontier@,
                g_costs_so_far@,
                view,
                from,
                to,
                Some(curr_pt),
                nbrs@.take(k as int),
            ),
            here == s.cost[curr_pt],
            s.visited == s0.visited,
            k <= nbrs@.len(),
            view == scr@,
            scr.wf(),
            nbrs@ == neighbours_spec(curr_pt, view),
            on_screen(from, view),
            on_screen(to, view),
            on_screen(curr_pt, view),
            s.visited.contains(curr_pt),
            s.inv(from, view),
            s.closed_but(Some(curr_pt), view),
            forall|j: int| 0 <= j < k ==> s.found.contains(#[trigger] nbrs@[j]),
            mirrors(s, visited@, found@, prev_loc@, from, view),
            shaped(g_costs_so_far@, view),
            waiting(s, frontier@),
            !s.visited.contains(to),
        decreases nbrs@.len() - k,
    {
        let nbp = nbrs[k];
        proof {
            lemma_neighbours(curr_pt, view, nbp);
            assert(nbrs@.contains(nbp));
            assert(nbrs@.take(k + 1) =~= nbrs@.take(k as int).push(nbp));
            lemma_priced_facts(
                s,
                frontier@,
                g_costs_so_far@,
                view,
                from,
                to,
                Some(curr_pt),
                nbrs@.take(k as int),
            );
            lemma_estimate_consistent(curr_pt, nbp, to);
        }
        let ghost done = nbrs@.take(k as int);
        if !get(visited, nbp, Ghost(view)) {
            let step = heuristic_cost(curr_pt, nbp);
            let weight = match scr.at(nbp.0 as usize, nbp.1 as usize) {
                Some(w) => *w as u64,
                None => 0,
            };
            let movement_cost = here.saturating_add(step).saturating_add(weight);
            assert(movement_cost == capped(s.cost[curr_pt] + step_cost(curr_pt, nbp, view)));
            let known = get(&found, nbp, Ghost(view));
            if !known || movement_cost < get(&g_costs_so_far, nbp, Ghost(view)) {
                let h_cost = heuristic_cost(to, nbp);
                let ghost costs_before = g_costs_so_far@;
                put(&mut g_costs_so_far, nbp, movement_cost, Ghost(view));
                put(&mut found, nbp, true, Ghost(view));
                put(&mut prev_loc, nbp, curr_pt, Ghost(view));
                let ghost old_f = frontier@;
                frontier.push((movement_cost.saturating_add(h_cost), nbp));
                proof {
                    let s0 = s;
                    s = Search {
                        found: s0.found.insert(nbp),
                        parent: s0.parent.insert(nbp, curr_pt),
                        cost: s0.cost.insert(nbp, movement_cost as int),
                        ..s0
                    };
                    assert(nbp != from) by {
                        if nbp == from {
                            // the start is the first point visited
                            assert(s0.found.contains(curr_pt));
                            if curr_pt != from {
                                lemma_start_first(s0, from, view, curr_pt);
                            }
                        }
                    }
                    lemma_priced_relax(
                        s0,
                        s,
                        old_f,
                        costs_before,
                        g_costs_so_far@,
                        view,
                        from,
                        to,
                        curr_pt,
                        done,
                        nbp,
                        movement_cost,
                    );
                    assert(s.inv(from, view)) by {
                        assert forall|p: Point| #[trigger] s.found.contains(p) && p
                            != from implies s.parent.contains_key(p) && s.visited.contains(
                            s.parent[p],
                        ) && adjacent(s.parent[p], p) by {
                            if p != nbp {
                                assert(s0.found.contains(p));
                            }
                        }
                        assert forall|p: Point|
                            #[trigger] s.visited.contains(p) && p
                                != from implies s.rank[s.parent[p]] < s.rank[p] by {
                            assert(p != nbp);
                            assert(s0.visited.contains(p));
                        }
                    }
                    assert(waiting(s, frontier@)) by {
                        assert forall|p: Point|
                            #[trigger] s.found.contains(p) && !s.visited.contains(
                                p,
                            ) implies exists|i: int|
                            0 <= i < frontier@.len() && (#[trigger] frontier@[i]).1 == p by {
                            if p == nbp {
                                assert(frontier@[old_f.len() as int].1 == p);
                            } else {
                                assert(s0.found.contains(p));
                                let j = choose|j: int|
                                    0 <= j < old_f.len() && (#[trigger] old_f[j]).1 == p;
                                assert(frontier@[j].1 == p);
                            }
                        }
                        assert forall|i: int| 0 <= i < frontier@.len() implies s.found.contains(
                            (#[trigger] frontier@[i]).1,
                        ) by {
                            if i < old_f.len() {
                                assert(frontier@[i] == old_f[i]);
                                assert(s0.found.contains(old_f[i].1));
                            }
                        }
                    }
                    assert forall|j: int| 0 <= j < k + 1 implies s.found.contains(
                        #[trigger] nbrs@[j],
                    ) by {
                        if j < k {
                            assert(s0.found.contains(nbrs@[j]));
                        }
                    }
                }
            } else {
                assert(s.found.contains(nbp));
                proof {
                    lemma_priced_skip(
                        s,
                        frontier@,
                        g_costs_so_far@,
                        view,
                        from,
                        to,
                        curr_pt,
                        done,
                        nbp,
                    );
                }
            }
        } else {
            assert(s.visited.contains(nbp));
            assert(s.found.contains(nbp));
            proof {
                lemma_priced_skip(
                    s,
                    frontier@,
                    g_costs_so_far@,
                    view,
                    from,
                    to,
                    curr_pt,
                    done,
                    nbp,
                );
            }
        }
        k = k + 1;
    }
    proof {
        assert(nbrs@.take(nbrs@.len() as int) =~= nbrs@);
        lemma_priced_rest(s, frontier@, g_costs_so_far@, view, from, to, curr_pt);
        assert(s.closed_but(None, view)) by {
            assert forall|a: Point, b: Point|
                s.visited.contains(a) && on_screen(a, view) && on_screen(b, view)
                    && #[trigger] adjacent(a, b) implies s.found.contains(b) by {
                if a == curr_pt {
                    lemma_neighbours(curr_pt, view, b);
                    let j = choose|j: int| 0 <= j < nbrs@.len() && nbrs@[j] == b;
                    assert(s.found.contains(nbrs@[j]));
                }
            }
        }
    }
    (found, prev_loc, g_costs_so_far, frontier, Ghost(s))
}

/// A way from `from` to `to` over the grid: it starts at `from`, ends at
/// `to`, goes from each cell to a neighbour, and passes no cell twice; for
/// equal ends it is that one cell. Where one of the two points does not
/// lie on the grid there is no way, and the result is empty.
///
/// The way is a cheapest one. A step costs 10 where it is straight and 14
/// where it is diagonal, and the weight of the cell that it enters; no way
/// between the two points costs less than the one returned, as long as
/// costs stay below the largest number that a cost can be. Of ways at
/// that ceiling nothing more is said.
#[verifier::rlimit(30)]
pub fn a_star_get_pts(from: Point, to: Point, scr: &Screen) -> (pts: Vec<Point>)
    requires
        scr.wf(),
    ensures
        if on_screen(from, scr@) && on_screen(to, scr@) {
            is_route(pts@, from, to, scr@) && pts@.no_duplicates()
        } else {
            pts@.len() == 0
        },
        from == to && on_screen(from, scr@) ==> pts@ == seq![from],
        forall|other: Seq<Point>| #[trigger]
            is_route(other, from, to, scr@) ==> route_cost(pts@, scr@) <= route_cost(
                other,
                scr@,
            ) || route_cost(other, scr@) >= u64::MAX,
{
    if !is_valid(from.0, from.1, scr) || !is_valid(to.0, to.1, scr) {
        return Vec::new();
    }
    let ghost view = scr@;
    let width = scr.logical_width();
    let height = scr.logical_height();
    let mut visited: Vec<Vec<bool>> = grid(width, height, false, Ghost(view));
    let mut found: Vec<Vec<bool>> = grid(width, height, false, Ghost(view));
    let mut prev_loc: Vec<Vec<Point>> = grid(width, height, from, Ghost(view));
    let mut g_costs_so_far: Vec<Vec<Cost>> = grid(width, height, 0u64, Ghost(view));
    let mut frontier: Vec<(Cost, Point)> = Vec::new();
    let ghost mut s = Search {
        visited: Set::empty(),
        found: Set::empty().insert(from),
        parent: Map::empty(),
        rank: Map::empty(),
        clock: 0,
        cost: Map::empty().insert(from, 0int),
    };
    put(&mut found, from, true, Ghost(view));
    frontier.push((0, from));
    assert(frontier@[0].1 == from);
    proof {
        reveal(priced);
        assert(priced(s, frontier@, g_costs_so_far@, view, from, to, None, Seq::empty()));
    }
    while frontier.len() > 0
        invariant
            priced(s, frontier@, g_costs_so_far@, view, from, to, None, Seq::empty()),
            view == scr@,
            scr.wf(),
            on_screen(from, view),
            on_screen(to, view),
            s.inv(from, view),
            s.closed_but(None, view),
            mirrors(s, visited@, found@, prev_loc@, from, view),
            shaped(g_costs_so_far@, view),
            waiting(s, frontier@),
            !s.visited.contains(to),
        decreases unmarked(visited@), frontier@.len(),
    {
        let idx = least(&frontier);
        let ghost old_frontier = frontier@;
        let entry = frontier.swap_remove(idx);
        let curr_pt = entry.1;
        proof {
            assert(old_frontier[idx as int].1 == curr_pt);
            assert(s.found.contains(curr_pt));
            assert forall|i: int| 0 <= i < frontier@.len() implies s.found.contains(
                (#[trigger] frontier@[i]).1,
            ) by {
                if i == idx {
                    assert(frontier@[i] == old_frontier[old_frontier.len() - 1]);
                } else {
                    assert(frontier@[i] == old_frontier[i]);
                }
            }
            assert forall|p: Point|
                #[trigger] s.found.contains(p) && !s.visited.contains(p) && p
                    != curr_pt implies exists|i: int|
                0 <= i < frontier@.len() && (#[trigger] frontier@[i]).1 == p by {
                let j = choose|j: int| 0 <= j < old_frontier.len() && (#[trigger] old_frontier[j]).1 == p;
                if j == old_frontier.len() - 1 {
                    assert(frontier@[idx as int].1 == p);
                } else {
                    assert(frontier@[j].1 == p);
                }
            }
        }
        if get(&visited, curr_pt, Ghost(view)) {
            proof {
                lemma_priced_stale(s, old_frontier, idx as int, g_costs_so_far@, view, from, to);
            }
        } else {
            let ghost before_visit = visited@;
            put(&mut visited, curr_pt, true, Ghost(view));
            proof {
                lemma_mark_grid(before_visit, visited@, curr_pt.1 as int, curr_pt.0 as int);
                let s0 = s;
                s = Search {
                    visited: s0.visited.insert(curr_pt),
                    rank: s0.rank.insert(curr_pt, s0.clock),
                    clock: s0.clock + 1,
                    ..s0
                };
                lemma_priced_close(s0, s, old_frontier, idx as int, g_costs_so_far@, view, from, to);
                assert(s.inv(from, view)) by {
                    assert forall|p: Point|
                        #[trigger] s.visited.contains(p) && p != from implies s.rank[s.parent[p]]
                        < s.rank[p] by {
                        if p == curr_pt {
                            assert(s0.found.contains(p));
                            assert(s0.visited.contains(s0.parent[p]));
                        } else {
                            assert(s0.visited.contains(p));
                            assert(s0.found.contains(p));
                            assert(s0.visited.contains(s0.parent[p]));
                        }
                    }
                }
            }
            proof {
                lemma_priced_facts(
                    s,
                    frontier@,
                    g_costs_so_far@,
                    view,
                    from,
                    to,
                    Some(curr_pt),
                    Seq::empty(),
                );
            }
            if curr_pt.0 == to.0 && curr_pt.1 == to.1 {
                let pts = walk_back(
                    from,
                    to,
                    &prev_loc,
                    Ghost(s),
                    Ghost(visited@),
                    Ghost(found@),
                    Ghost(view),
                );
                proof {
                    assert forall|other: Seq<Point>| #[trigger]
                        is_route(other, from, to, view) implies route_cost(pts@, view)
                        <= route_cost(other, view) || route_cost(other, view) >= u64::MAX by {
                        lemma_route_cost_positive(other, view);
                    }
                }
                return pts;
            }
            let grown = expand(
                curr_pt,
                from,
                to,
                scr,
                &visited,
                found,
                prev_loc,
                g_costs_so_far,
                frontier,
                Ghost(s),
            );
            found = grown.0;
            prev_loc = grown.1;
            g_costs_so_far = grown.2;
            frontier = grown.3;
            proof {
                s = grown.4@;
            }
        }
    }
    proof {
        // with nothing left to visit, every point of the grid was visited
        assert forall|p: Point| #[trigger] s.found.contains(p) implies s.visited.contains(p) by {
            if !s.visited.contains(p) {
                let i = choose|i: int| 0 <= i < frontier@.len() && (#[trigger] frontier@[i]).1 == p;
            }
        }
        assert forall|a: Point, b: Point|
            s.visited.contains(a) && on_screen(a, view) && on_screen(b, view) && #[trigger] adjacent(
                a,
                b,
            ) implies s.visited.contains(b) by {
            assert(s.found.contains(b));
        }
        lemma_grid_connected(s.visited, view, from, to);
    }
    Vec::new()
}

/// A visited point other than the start means that the start was
/// visited.
pub proof fn lemma_start_first(s: Search, from: Point, scr: ScreenView, p: Point)
    requires
        s.inv(from, scr),
        s.visited.contains(p),
    ensures
        s.visited.contains(from),
    decreases s.rank[p],
{
    if p != from {
        assert(s.found.contains(p));
        lemma_start_first(s, from, scr, s.parent[p]);
    }
}

} // verus!
