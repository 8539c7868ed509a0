use vstd::prelude::*;

verus! {

/// A discrete grid cell.
#[derive(Clone, Copy, Debug, PartialEq, Eq, Hash, Structural)]
pub struct Tile {
    pub x: i32,
    pub y: i32,
}

impl View for Tile {
    type V = (int, int);

    open spec fn view(&self) -> (int, int) {
        (self.x as int, self.y as int)
    }
}

pub open spec fn abs(v: int) -> nat {
    if v < 0 { (-v) as nat } else { v as nat }
}

/// Manhattan distance between two cells.
pub open spec fn manhattan(a: (int, int), b: (int, int)) -> nat {
    abs(b.0 - a.0) + abs(b.1 - a.1)
}

/// Two cells one orthogonal step apart.
pub open spec fn adjacent(a: (int, int), b: (int, int)) -> bool {
    manhattan(a, b) == 1
}

pub open spec fn signum(v: int) -> int {
    if v > 0 { 1 } else if v < 0 { -1 } else { 0 }
}

/// The cell one step from `c` towards `d`: along the axis with the larger
/// remaining delta, and along the vertical axis on a tie.
pub open spec fn step_toward(c: (int, int), d: (int, int)) -> (int, int) {
    let dx = d.0 - c.0;
    let dy = d.1 - c.1;
    if abs(dx) > abs(dy) {
        (c.0 + signum(dx), c.1)
    } else {
        (c.0, c.1 + signum(dy))
    }
}

/// The cells visited after `c` on the way to `d`, ending at `d`.
pub open spec fn steps(c: (int, int), d: (int, int)) -> Seq<(int, int)>
    decreases manhattan(c, d),
{
    if c == d {
        Seq::empty()
    } else {
        let n = step_toward(c, d);
        proof {
            lemma_step_closer(c, d);
        }
        seq![n] + steps(n, d)
    }
}

/// The route from `c` to `d`: `c` itself, then every cell visited on the way,
/// ending at `d`.
pub open spec fn route(c: (int, int), d: (int, int)) -> Seq<(int, int)> {
    seq![c] + steps(c, d)
}

pub open spec fn tiles_view(s: Seq<Tile>) -> Seq<(int, int)> {
    s.map_values(|t: Tile| t@)
}

/// A step towards a different cell lowers the distance by one.
pub proof fn lemma_step_closer(c: (int, int), d: (int, int))
    requires
        c != d,
    ensures
        manhattan(step_toward(c, d), d) + 1 == manhattan(c, d),
        adjacent(c, step_toward(c, d)),
{
}

/// Two cells span a box; a step towards the second stays inside it.
pub open spec fn between(v: int, a: int, b: int) -> bool {
    (a <= v <= b) || (b <= v <= a)
}

pub open spec fn in_box(t: (int, int), c: (int, int), d: (int, int)) -> bool {
    between(t.0, c.0, d.0) && between(t.1, c.1, d.1)
}

/// The cells after `c` of a walk of orthogonal steps from `c` to `d`.
pub open spec fn is_step_walk(s: Seq<(int, int)>, c: (int, int), d: (int, int)) -> bool {
    &&& s.len() == manhattan(c, d)
    &&& s.len() > 0 ==> adjacent(c, s[0]) && s.last() == d
    &&& forall|i: int| 0 <= i < s.len() - 1 ==> #[trigger] adjacent(s[i], s[i + 1])
    &&& forall|i: int| 0 <= i < s.len() ==> manhattan(#[trigger] s[i], d) + i + 1 == s.len()
    &&& forall|i: int| 0 <= i < s.len() ==> in_box(#[trigger] s[i], c, d)
}

proof fn lemma_steps_walk(c: (int, int), d: (int, int))
    ensures
        is_step_walk(steps(c, d), c, d),
    decreases manhattan(c, d),
{
    if c != d {
        let n = step_toward(c, d);
        lemma_step_closer(c, d);
        lemma_steps_walk(n, d);
        let r = steps(n, d);
        let s = steps(c, d);
        assert(s == seq![n] + r);
        assert forall|i: int| 0 <= i < s.len() - 1 implies #[trigger] adjacent(s[i], s[i + 1]) by {
            if i > 0 {
                assert(s[i] == r[i - 1]);
                assert(s[i + 1] == r[i]);
                assert(adjacent(r[i - 1], r[(i - 1) + 1]));
            } else {
                assert(s[1] == r[0]);
                assert(r.len() > 0);
            }
        }
        assert forall|i: int| 0 <= i < s.len() implies manhattan(#[trigger] s[i], d) + i + 1 == s.len() by {
            if i > 0 {
                assert(s[i] == r[i - 1]);
            }
        }
        assert forall|i: int| 0 <= i < s.len() implies in_box(#[trigger] s[i], c, d) by {
            if i > 0 {
                assert(s[i] == r[i - 1]);
                assert(in_box(r[i - 1], n, d));
            }
        }
        if r.len() > 0 {
            assert(s.last() == r.last());
        }
    }
}

/// A route is a walk of orthogonal steps: it starts at `c`, ends at `d`,
/// each cell is next to the one before, it takes as many steps as the
/// Manhattan distance, every cell is one step closer to `d` than the one
/// before, and all lie inside the box spanned by `c` and `d`.
pub open spec fn is_walk(s: Seq<(int, int)>, c: (int, int), d: (int, int)) -> bool {
    &&& s.len() == manhattan(c, d) + 1
    &&& s[0] == c
    &&& s.last() == d
    &&& forall|i: int| 0 <= i < s.len() - 1 ==> #[trigger] adjacent(s[i], s[i + 1])
    &&& forall|i: int| 0 <= i < s.len() ==> manhattan(#[trigger] s[i], d) + i == manhattan(c, d)
    &&& forall|i: int| 0 <= i < s.len() ==> in_box(#[trigger] s[i], c, d)
}

/// Every route is a walk of orthogonal steps from origin to destination whose
/// number of steps is the Manhattan distance between them.
pub proof fn lemma_route_is_walk(c: (int, int), d: (int, int))
    ensures
        is_walk(route(c, d), c, d),
{
    lemma_steps_walk(c, d);
    let t = steps(c, d);
    let s = route(c, d);
    assert(s[0] == c);
    assert forall|i: int| 0 <= i < s.len() - 1 implies #[trigger] adjacent(s[i], s[i + 1]) by {
        assert(s[i + 1] == t[i]);
        if i > 0 {
            assert(s[i] == t[i - 1]);
            assert(adjacent(t[i - 1], t[(i - 1) + 1]));
        }
    }
    assert forall|i: int| 0 <= i < s.len() implies manhattan(#[trigger] s[i], d) + i == manhattan(c, d) by {
        if i > 0 {
            assert(s[i] == t[i - 1]);
        }
    }
    assert forall|i: int| 0 <= i < s.len() implies in_box(#[trigger] s[i], c, d) by {
        if i > 0 {
            assert(s[i] == t[i - 1]);
        }
    }
    if t.len() > 0 {
        assert(s.last() == t.last());
    }
}

/// Routing is a function of its two end points alone: two routes computed
/// between the same cells are the same sequence.
pub proof fn lemma_route_deterministic(
    c: (int, int),
    d: (int, int),
    first: Seq<Tile>,
    second: Seq<Tile>,
)
    requires
        tiles_view(first) == route(c, d),
        tiles_view(second) == route(c, d),
    ensures
        first == second,
{
    assert(tiles_view(first).len() == first.len());
    assert(tiles_view(second).len() == second.len());
    assert forall|i: int| 0 <= i < first.len() implies first[i] == second[i] by {
        assert(tiles_view(first)[i] == tiles_view(second)[i]);
    }
    assert(first =~= second);
}

/// Computes the route from `origin` to `destination`: the origin, then one
/// orthogonal step at a time, ending at the destination.
pub fn route_between(origin: &Tile, destination: &Tile) -> (r: Vec<Tile>)
    ensures
        tiles_view(r@) == route(origin@, destination@),
        is_walk(tiles_view(r@), origin@, destination@),
{
    let mut out: Vec<Tile> = Vec::new();
    let mut cur = *origin;
    out.push(cur);
    proof {
        lemma_route_is_walk(origin@, destination@);
        assert(tiles_view(out@) =~= seq![origin@]);
    }
    while cur.x != destination.x || cur.y != destination.y
        invariant
            tiles_view(out@) + steps(cur@, destination@) == route(origin@, destination@),
            in_box(cur@, origin@, destination@),
        decreases manhattan(cur@, destination@),
    {
        let ghost before = cur@;
        let ghost old_out = out@;
        proof {
            lemma_step_closer(cur@, destination@);
        }
        let dx = destination.x as i64 - cur.x as i64;
        let dy = destination.y as i64 - cur.y as i64;
        let ax: i64 = if dx < 0 { -dx } else { dx };
        let ay: i64 = if dy < 0 { -dy } else { dy };
        if ax > ay {
            if dx > 0 {
                cur = Tile { x: cur.x + 1, y: cur.y };
            } else {
                cur = Tile { x: cur.x - 1, y: cur.y };
            }
        } else {
            if dy > 0 {
                cur = Tile { x: cur.x, y: cur.y + 1 };
            } else {
                cur = Tile { x: cur.x, y: cur.y - 1 };
            }
        }
        assert(cur@ == step_toward(before, destination@));
        out.push(cur);
        proof {
            assert(tiles_view(out@) == tiles_view(old_out) + seq![cur@]);
            assert(steps(before, destination@) == seq![cur@] + steps(cur@, destination@));
            assert(tiles_view(out@) + steps(cur@, destination@) =~= tiles_view(old_out) + steps(before, destination@));
        }
    }
    out
}

/// The bounded area of valid tiles: inclusive ranges along both axes.
#[derive(Clone, Copy, Debug, PartialEq, Eq, Structural)]
pub struct Grid {
    pub x_min: i32,
    pub x_max: i32,
    pub y_min: i32,
    pub y_max: i32,
}

/// Which border of the grid a spawn tile lies on.
#[derive(Clone, Copy, Debug, PartialEq, Eq, Structural)]
pub enum Edge {
    Top,
    Right,
    Bottom,
    Left,
}

impl Grid {
    pub open spec fn x_lo(&self) -> int {
        self.x_min as int
    }

    pub open spec fn x_hi(&self) -> int {
        self.x_max as int
    }

    pub open spec fn y_lo(&self) -> int {
        self.y_min as int
    }

    pub open spec fn y_hi(&self) -> int {
        self.y_max as int
    }

    /// Both ranges are non-empty.
    pub open spec fn wf(&self) -> bool {
        self.x_min <= self.x_max && self.y_min <= self.y_max
    }

    pub open spec fn holds(&self, t: (int, int)) -> bool {
        self.x_lo() <= t.0 <= self.x_hi() && self.y_lo() <= t.1 <= self.y_hi()
    }

    /// The cell lies on the given border of the grid.
    pub open spec fn on_edge(&self, t: (int, int), e: Edge) -> bool {
        &&& self.holds(t)
        &&& match e {
            Edge::Top => t.1 == self.y_hi(),
            Edge::Right => t.0 == self.x_hi(),
            Edge::Bottom => t.1 == self.y_lo(),
            Edge::Left => t.0 == self.x_lo(),
        }
    }

    /// The inclusive range along which a tile on edge `e` may lie.
    pub open spec fn edge_range(&self, e: Edge) -> (int, int) {
        match e {
            Edge::Top | Edge::Bottom => (self.x_lo(), self.x_hi()),
            Edge::Right | Edge::Left => (self.y_lo(), self.y_hi()),
        }
    }

    /// The tile at position `p` along edge `e`.
    pub open spec fn edge_tile(&self, e: Edge, p: int) -> (int, int) {
        match e {
            Edge::Top => (p, self.y_hi()),
            Edge::Right => (self.x_hi(), p),
            Edge::Bottom => (p, self.y_lo()),
            Edge::Left => (self.x_lo(), p),
        }
    }

    /// Builds a grid from inclusive ranges; `None` where a range is empty.
    pub fn new(x_min: i32, x_max: i32, y_min: i32, y_max: i32) -> (r: Option<Grid>)
        ensures
            r is Some <==> x_min <= x_max && y_min <= y_max,
            r matches Some(g) ==> g.wf() && g.x_lo() == x_min && g.x_hi() == x_max
                && g.y_lo() == y_min && g.y_hi() == y_max,
    {
        if x_min <= x_max && y_min <= y_max {
            Some(Grid { x_min, x_max, y_min, y_max })
        } else {
            None
        }
    }

    /// Whether the tile lies within the grid.
    pub fn contains(&self, t: &Tile) -> (r: bool)
        ensures
            r == self.holds(t@),
    {
        self.x_min <= t.x && t.x <= self.x_max && self.y_min <= t.y && t.y <= self.y_max
    }

    /// The inclusive range of positions along an edge.
    pub fn range_along(&self, e: Edge) -> (r: (i32, i32))
        ensures
            (r.0 as int, r.1 as int) == self.edge_range(e),
    {
        match e {
            Edge::Top | Edge::Bottom => (self.x_min, self.x_max),
            Edge::Right | Edge::Left => (self.y_min, self.y_max),
        }
    }

    /// The tile at position `p` along edge `e`.
    pub fn edge_tile_at(&self, e: Edge, p: i32) -> (r: Tile)
        requires
            self.wf(),
            self.edge_range(e).0 <= p <= self.edge_range(e).1,
        ensures
            r@ == self.edge_tile(e, p as int),
            self.on_edge(r@, e),
    {
        match e {
            Edge::Top => Tile { x: p, y: self.y_max },
            Edge::Right => Tile { x: self.x_max, y: p },
            Edge::Bottom => Tile { x: p, y: self.y_min },
            Edge::Left => Tile { x: self.x_min, y: p },
        }
    }
}

/// A route between two tiles of the grid stays within the grid.
pub proof fn lemma_route_within_grid(g: Grid, c: (int, int), d: (int, int))
    requires
        g.holds(c),
        g.holds(d),
    ensures
        forall|i: int| 0 <= i < route(c, d).len() ==> g.holds(#[trigger] route(c, d)[i]),
{
    lemma_route_is_walk(c, d);
    assert forall|i: int| 0 <= i < route(c, d).len() implies g.holds(#[trigger] route(c, d)[i]) by {
        assert(in_box(route(c, d)[i], c, d));
    }
}

/// Every tile at a position along an edge lies inside the grid on that edge,
/// and every tile on the grid's border lies on one of the four edges.
pub proof fn lemma_edges_cover_border(g: Grid, t: (int, int))
    requires
        g.wf(),
    ensures
        forall|e: Edge, p: int|
            g.edge_range(e).0 <= p <= g.edge_range(e).1 ==> #[trigger] g.on_edge(
                g.edge_tile(e, p),
                e,
            ),
        g.holds(t) && (t.0 == g.x_lo() || t.0 == g.x_hi() || t.1 == g.y_lo() || t.1 == g.y_hi())
            ==> exists|e: Edge| #[trigger] g.on_edge(t, e),
{
    if g.holds(t) {
        if t.1 == g.y_hi() {
            assert(g.on_edge(t, Edge::Top));
        } else if t.0 == g.x_hi() {
            assert(g.on_edge(t, Edge::Right));
        } else if t.1 == g.y_lo() {
            assert(g.on_edge(t, Edge::Bottom));
        } else if t.0 == g.x_lo() {
            assert(g.on_edge(t, Edge::Left));
        }
    }
}

} // verus!
