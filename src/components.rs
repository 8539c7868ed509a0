use vstd::prelude::*;

use crate::map::{tiles_view, Tile};

verus! {

/// Sub-tile units along one side of a tile: positions are measured in them.
pub const TILE_SIZE: i64 = 32;

/// Identifies an airplane for the lifetime of the process.
#[derive(Clone, Copy, Debug, PartialEq, Eq, Hash, Structural)]
pub struct AirplaneId(pub u64);

/// Issues airplane ids: each one greater than every id issued before by the
/// same generator. The counter is 64 bits wide; once `u64::MAX` has been
/// issued no further id is available.
#[derive(Debug)]
pub struct AirplaneIdGenerator {
    last: u64,
}

/// One call of `generate` turned `before` into `after` and issued `id`.
pub open spec fn generated(before: AirplaneIdGenerator, id: AirplaneId, after: AirplaneIdGenerator) -> bool {
    &&& before.last_issued() < u64::MAX
    &&& id.0 == before.last_issued() + 1
    &&& after.last_issued() == id.0
}

impl AirplaneIdGenerator {
    /// The greatest id issued so far, or 0 before the first.
    pub closed spec fn last_issued(&self) -> nat {
        self.last as nat
    }

    pub fn new() -> (r: AirplaneIdGenerator)
        ensures
            r.last_issued() == 0,
    {
        AirplaneIdGenerator { last: 0 }
    }

    /// Returns a fresh id, one greater than the last; `None`, with the
    /// generator unchanged, once the counter is exhausted.
    pub fn generate(&mut self) -> (r: Option<AirplaneId>)
        ensures
            r is Some <==> old(self).last_issued() < u64::MAX,
            r matches Some(id) ==> generated(*old(self), id, *final(self)),
            r is None ==> final(self).last_issued() == old(self).last_issued(),
    {
        if self.last < u64::MAX {
            self.last = self.last + 1;
            Some(AirplaneId(self.last))
        } else {
            None
        }
    }
}

/// Over any run of calls on one generator, the ids issued are strictly
/// increasing, so no id is issued twice.
pub proof fn lemma_ids_strictly_increase(gens: Seq<AirplaneIdGenerator>, ids: Seq<AirplaneId>)
    requires
        gens.len() == ids.len() + 1,
        forall|k: int| 0 <= k < ids.len() ==> generated(gens[k], #[trigger] ids[k], gens[k + 1]),
    ensures
        forall|i: int, j: int| 0 <= i < j < ids.len() ==> ids[i].0 < ids[j].0,
{
    assert forall|i: int, j: int| 0 <= i < j < ids.len() implies ids[i].0 < ids[j].0 by {
        lemma_counter_monotone(gens, ids, i + 1, j);
        assert(generated(gens[j], ids[j], gens[j + 1]));
        assert(generated(gens[i], ids[i], gens[i + 1]));
    }
}

proof fn lemma_counter_monotone(gens: Seq<AirplaneIdGenerator>, ids: Seq<AirplaneId>, i: int, j: int)
    requires
        gens.len() == ids.len() + 1,
        forall|k: int| 0 <= k < ids.len() ==> generated(gens[k], #[trigger] ids[k], gens[k + 1]),
        0 <= i <= j < gens.len(),
    ensures
        gens[i].last_issued() <= gens[j].last_issued(),
    decreases j - i,
{
    if i < j {
        lemma_counter_monotone(gens, ids, i, j - 1);
        assert(generated(gens[j - 1], ids[j - 1], gens[j]));
    }
}

/// A position in sub-tile units.
#[derive(Clone, Copy, Debug, PartialEq, Eq, Structural)]
pub struct Point {
    pub x: i64,
    pub y: i64,
}

impl View for Point {
    type V = (int, int);

    open spec fn view(&self) -> (int, int) {
        (self.x as int, self.y as int)
    }
}

/// The point at the corner of a tile that stands for it.
pub open spec fn tile_point(t: (int, int)) -> (int, int) {
    (t.0 * TILE_SIZE, t.1 * TILE_SIZE)
}

impl Tile {
    pub fn new(x: i32, y: i32) -> (r: Tile)
        ensures
            r@ == (x as int, y as int),
    {
        Tile { x, y }
    }

    /// The position of this tile in sub-tile units.
    pub fn as_point(&self) -> (r: Point)
        ensures
            r@ == tile_point(self@),
    {
        Point { x: self.x as i64 * TILE_SIZE, y: self.y as i64 * TILE_SIZE }
    }
}

/// A tile position as reported in events.
#[derive(Clone, Copy, Debug, PartialEq, Eq, Structural)]
pub struct Location {
    pub x: i32,
    pub y: i32,
}

impl From<Tile> for Location {
    fn from(t: Tile) -> (r: Location) {
        Location { x: t.x, y: t.y }
    }
}

impl vstd::std_specs::convert::FromSpecImpl<Tile> for Location {
    open spec fn obeys_from_spec() -> bool {
        true
    }

    open spec fn from_spec(t: Tile) -> Location {
        Location { x: t.x, y: t.y }
    }
}

/// Distance per second, in sub-tile units.
#[derive(Clone, Copy, Debug, PartialEq, Eq, Structural)]
pub struct Speed(pub u32);

/// The waypoints an airplane still has to pass, nearest first.
#[derive(Debug)]
pub struct FlightPlan(pub Vec<Tile>);

impl View for FlightPlan {
    type V = Seq<(int, int)>;

    open spec fn view(&self) -> Seq<(int, int)> {
        tiles_view(self.0@)
    }
}

impl FlightPlan {
    pub fn new(route: Vec<Tile>) -> (r: FlightPlan)
        ensures
            r@ == tiles_view(route@),
    {
        FlightPlan(route)
    }

    pub fn len(&self) -> (r: usize)
        ensures
            r == self@.len(),
    {
        self.0.len()
    }

    pub fn is_empty(&self) -> (r: bool)
        ensures
            r <==> self@.len() == 0,
    {
        self.0.len() == 0
    }

    /// The next waypoint, if any.
    pub fn next(&self) -> (r: Option<Tile>)
        ensures
            r is Some <==> self@.len() > 0,
            r matches Some(t) ==> t@ == self@[0],
    {
        if self.0.len() > 0 {
            Some(self.0[0])
        } else {
            None
        }
    }

    /// Drops the next waypoint, if any.
    pub fn pop_next(&mut self)
        ensures
            old(self)@.len() > 0 ==> final(self)@ == old(self)@.drop_first(),
            old(self)@.len() == 0 ==> final(self)@ == old(self)@,
    {
        if self.0.len() > 0 {
            let _ = self.0.remove(0);
            assert(tiles_view(self.0@) =~= old(self)@.drop_first());
        }
    }

    /// A copy holding the same waypoints.
    pub fn duplicate(&self) -> (r: FlightPlan)
        ensures
            r@ == self@,
    {
        let mut out: Vec<Tile> = Vec::new();
        let mut i: usize = 0;
        while i < self.0.len()
            invariant
                i <= self.0@.len(),
                out@ == self.0@.subrange(0, i as int),
            decreases self.0@.len() - i,
        {
            out.push(self.0[i]);
            i = i + 1;
            assert(out@ =~= self.0@.subrange(0, i as int));
        }
        assert(out@ =~= self.0@);
        FlightPlan(out)
    }
}

/// A simulated airplane: its id, position, remaining flight plan, speed,
/// and the thousandths of a sub-tile unit of distance carried between ticks.
#[derive(Debug)]
pub struct Airplane {
    pub id: AirplaneId,
    pub position: Point,
    pub flight_plan: FlightPlan,
    pub speed: Speed,
    pub carry: u64,
}

} // verus!
