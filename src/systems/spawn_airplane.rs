use rand::Rng;
use vstd::prelude::*;

use crate::components::{
    tile_point, Airplane, AirplaneId, AirplaneIdGenerator, FlightPlan, Location, Speed,
    generated,
};
use crate::event::{delivered, unchanged, Event, EventBus, EventView, SendError};
use crate::map::{route, route_between, tiles_view, Edge, Grid, Tile};

verus! {

/// Speed given to every new airplane: one tile per second.
pub const AIRPLANE_SPEED: u32 = 32;

/// The airport tile every airplane is routed to.
pub open spec fn airport() -> (int, int) {
    (0, 0)
}

/// A repeating countdown that fires once each time its period has elapsed.
#[derive(Debug)]
pub struct SpawnTimer {
    period: u64,
    elapsed: u64,
}

impl SpawnTimer {
    pub closed spec fn period_ms(&self) -> nat {
        self.period as nat
    }

    /// Time counted since the last firing.
    pub closed spec fn elapsed_ms(&self) -> nat {
        self.elapsed as nat
    }

    pub open spec fn wf(&self) -> bool {
        self.period_ms() > 0 && self.elapsed_ms() < self.period_ms()
    }

    /// A timer with the given period, in milliseconds, that has not run yet.
    pub fn new(period_ms: u64) -> (r: SpawnTimer)
        requires
            period_ms > 0,
        ensures
            r.wf(),
            r.period_ms() == period_ms,
            r.elapsed_ms() == 0,
    {
        SpawnTimer { period: period_ms, elapsed: 0 }
    }

    /// Advances the timer by `delta_ms`; returns whether it fired. On firing
    /// it starts over, keeping the time beyond the period.
    pub fn tick(&mut self, delta_ms: u64) -> (fired: bool)
        requires
            old(self).wf(),
        ensures
            final(self).wf(),
            final(self).period_ms() == old(self).period_ms(),
            fired <==> old(self).elapsed_ms() + delta_ms >= old(self).period_ms(),
            final(self).elapsed_ms() == (old(self).elapsed_ms() + delta_ms) % old(self).period_ms() as int,
    {
        let total: u128 = self.elapsed as u128 + delta_ms as u128;
        let fired = total >= self.period as u128;
        self.elapsed = (total % self.period as u128) as u64;
        fired
    }
}

/// The edge chosen by a draw from `0..4`.
pub open spec fn edge_of(choice: u32) -> Edge {
    if choice == 0 {
        Edge::Top
    } else if choice == 1 {
        Edge::Right
    } else if choice == 2 {
        Edge::Bottom
    } else {
        Edge::Left
    }
}

/// Maps a draw from `0..4` to one of the four edges.
pub fn pick_edge(choice: u32) -> (e: Edge)
    ensures
        e == edge_of(choice),
{
    match choice {
        0 => Edge::Top,
        1 => Edge::Right,
        2 => Edge::Bottom,
        _ => Edge::Left,
    }
}

/// Each edge is chosen by exactly one draw from `0..4`, and every draw
/// chooses an edge.
pub proof fn lemma_edge_choice_exhaustive(e: Edge)
    ensures
        exists|c: u32| c < 4 && #[trigger] edge_of(c) == e,
        forall|c: u32, d: u32| c < 4 && d < 4 && edge_of(c) == edge_of(d) ==> c == d,
{
    match e {
        Edge::Top => assert(edge_of(0) == e),
        Edge::Right => assert(edge_of(1) == e),
        Edge::Bottom => assert(edge_of(2) == e),
        Edge::Left => assert(edge_of(3) == e),
    }
}

/// Relies on rand::thread_rng and rand::Rng::gen_range: a value drawn from the
/// inclusive range `lo..=hi`, which gen_range requires to be non-empty.
#[verifier::external_body]
fn random_in(lo: i32, hi: i32) -> (r: i32)
    requires
        lo <= hi,
    ensures
        lo <= r <= hi,
{
    rand::thread_rng().gen_range(lo..=hi)
}

/// The spawn tile for edge draw `choice` and position `p` along that edge.
pub fn spawn_tile(grid: &Grid, choice: u32, p: i32) -> (r: Tile)
    requires
        grid.wf(),
        grid.edge_range(edge_of(choice)).0 <= p <= grid.edge_range(edge_of(choice)).1,
    ensures
        r@ == grid.edge_tile(edge_of(choice), p as int),
        grid.on_edge(r@, edge_of(choice)),
{
    let e = pick_edge(choice);
    grid.edge_tile_at(e, p)
}

/// A random tile on the border of the grid: first one of the four edges,
/// then a position along it.
pub fn random_spawn(grid: &Grid) -> (r: Tile)
    requires
        grid.wf(),
    ensures
        exists|e: Edge| #[trigger] grid.on_edge(r@, e),
{
    let choice = random_in(0, 3) as u32;
    let (lo, hi) = grid.range_along(pick_edge(choice));
    let p = random_in(lo, hi);
    spawn_tile(grid, choice, p)
}

/// `a` is a new airplane with id `id` standing on `spawn`, routed to the
/// airport.
pub open spec fn fresh_airplane(a: Airplane, id: AirplaneId, spawn: (int, int)) -> bool {
    &&& a.id == id
    &&& a.position@ == tile_point(spawn)
    &&& a.flight_plan@ == route(spawn, airport())
    &&& a.speed == Speed(AIRPLANE_SPEED)
    &&& a.carry == 0
}

/// The announcement that airplane `id` was detected on `spawn` with its
/// flight plan.
pub open spec fn detected(id: AirplaneId, spawn: (int, int)) -> EventView {
    EventView::AirplaneDetected(id, Location { x: spawn.0 as i32, y: spawn.1 as i32 }, route(spawn, airport()))
}

/// What spawning on `spawn` does. With the ids exhausted nothing changes and
/// the result is `Ok(None)`. Otherwise a new id is drawn, one airplane is
/// appended, and its detection is published: `Ok(Some(id))` when the bus
/// delivers, else the error holding the event, with the airplane kept.
pub open spec fn spawned(
    ids0: AirplaneIdGenerator,
    ids1: AirplaneIdGenerator,
    planes0: Seq<Airplane>,
    planes1: Seq<Airplane>,
    bus0: EventBus,
    bus1: EventBus,
    spawn: (int, int),
    r: Result<Option<AirplaneId>, SendError>,
) -> bool {
    &&& bus1.wf()
    &&& if ids0.last_issued() < u64::MAX {
        exists|id: AirplaneId|
            {
                &&& #[trigger] generated(ids0, id, ids1)
                &&& planes1.len() == planes0.len() + 1
                &&& planes1.subrange(0, planes0.len() as int) == planes0
                &&& fresh_airplane(planes1.last(), id, spawn)
                &&& if bus0.accepts() {
                    &&& r == Ok::<Option<AirplaneId>, SendError>(Some(id))
                    &&& delivered(bus0, bus1, detected(id, spawn))
                } else {
                    &&& r matches Err(err) && err.0@ == detected(id, spawn)
                    &&& unchanged(bus0, bus1)
                }
            }
    } else {
        &&& r == Ok::<Option<AirplaneId>, SendError>(None)
        &&& ids1.last_issued() == ids0.last_issued()
        &&& planes1 == planes0
        &&& unchanged(bus0, bus1)
    }
}

/// Creates an airplane on `spawn`, routed to the airport, and publishes its
/// detection.
pub fn spawn_at(
    spawn: Tile,
    ids: &mut AirplaneIdGenerator,
    airplanes: &mut Vec<Airplane>,
    bus: &mut EventBus,
) -> (r: Result<Option<AirplaneId>, SendError>)
    requires
        old(bus).wf(),
    ensures
        spawned(*old(ids), *final(ids), old(airplanes)@, final(airplanes)@, *old(bus), *final(bus), spawn@, r),
{
    let id = match ids.generate() {
        Some(id) => id,
        None => {
            return Ok(None);
        },
    };
    let airport = Tile::new(0, 0);
    let flight_plan = FlightPlan::new(route_between(&spawn, &airport));
    let announced = flight_plan.duplicate();
    airplanes.push(
        Airplane {
            id,
            position: spawn.as_point(),
            flight_plan,
            speed: Speed(AIRPLANE_SPEED),
            carry: 0,
        },
    );
    assert(airplanes@.subrange(0, old(airplanes)@.len() as int) =~= old(airplanes)@);
    let ev = Event::AirplaneDetected(id, Location::from(spawn), announced);
    let r = bus.send(ev);
    assert(generated(*old(ids), id, *ids));
    match r {
        Ok(()) => Ok(Some(id)),
        Err(e) => Err(e),
    }
}

/// One tick of the spawn scheduler lasting `delta_ms`: the timer advances;
/// when it fires, one airplane is spawned on some border tile of `grid`,
/// else nothing else changes and the result is `Ok(None)`.
pub open spec fn spawn_step(
    timer0: SpawnTimer,
    timer1: SpawnTimer,
    delta_ms: u64,
    grid: Grid,
    ids0: AirplaneIdGenerator,
    ids1: AirplaneIdGenerator,
    planes0: Seq<Airplane>,
    planes1: Seq<Airplane>,
    bus0: EventBus,
    bus1: EventBus,
    r: Result<Option<AirplaneId>, SendError>,
) -> bool {
    &&& timer1.wf()
    &&& timer1.period_ms() == timer0.period_ms()
    &&& timer1.elapsed_ms() == (timer0.elapsed_ms() + delta_ms) % timer0.period_ms() as int
    &&& timer0.elapsed_ms() + delta_ms >= timer0.period_ms() ==> exists|t: (int, int), e: Edge|
        #[trigger] grid.on_edge(t, e) && spawned(ids0, ids1, planes0, planes1, bus0, bus1, t, r)
    &&& timer0.elapsed_ms() + delta_ms < timer0.period_ms() ==> {
        &&& r == Ok::<Option<AirplaneId>, SendError>(None)
        &&& ids1.last_issued() == ids0.last_issued()
        &&& planes1 == planes0
        &&& bus1 == bus0
    }
}

/// Advances the spawn timer by `delta_ms`; when it fires, spawns one airplane
/// on a random border tile of `grid`. Returns `Ok(None)` when nothing was
/// spawned.
pub fn spawn_airplane(
    timer: &mut SpawnTimer,
    delta_ms: u64,
    grid: &Grid,
    ids: &mut AirplaneIdGenerator,
    airplanes: &mut Vec<Airplane>,
    bus: &mut EventBus,
) -> (r: Result<Option<AirplaneId>, SendError>)
    requires
        old(timer).wf(),
        grid.wf(),
        old(bus).wf(),
    ensures
        spawn_step(*old(timer), *final(timer), delta_ms, *grid, *old(ids), *final(ids), old(airplanes)@, final(airplanes)@, *old(bus), *final(bus), r),
{
    if timer.tick(delta_ms) {
        let spawn = random_spawn(grid);
        let ghost e = choose|e: Edge| grid.on_edge(spawn@, e);
        let r = spawn_at(spawn, ids, airplanes, bus);
        assert(grid.on_edge(spawn@, e));
        r
    } else {
        Ok(None)
    }
}

} // verus!
