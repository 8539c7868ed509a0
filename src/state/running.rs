use vstd::prelude::*;

use crate::components::{generated, Airplane, AirplaneId, AirplaneIdGenerator};
use crate::event::{delivered, unchanged, Event, EventBus, EventView, SendError};
use crate::map::{Edge, Grid};
use crate::systems::flight::{
    all_followed, despawn_airplane, flight_after, flight_of, follow_flight_plan, followed,
    has_arrived, id_of, in_flight, lemma_arrival, remaining, tick_flight, total_ms,
};
use crate::systems::spawn_airplane::{fresh_airplane, spawn_airplane, spawn_step, spawned, SpawnTimer};

verus! {

/// The ids along the arena strictly increase, so no two airplanes share one.
pub open spec fn ids_increasing(s: Seq<Airplane>) -> bool {
    forall|i: int, j: int| 0 <= i < j < s.len() ==> (#[trigger] s[i]).id.0 < (#[trigger] s[j]).id.0
}

/// No airplane holds an id above `last`.
pub open spec fn ids_at_most(s: Seq<Airplane>, last: nat) -> bool {
    forall|i: int| 0 <= i < s.len() ==> (#[trigger] s[i]).id.0 <= last
}

/// One tick of the running phase turned `s0` into `s1`: the spawn step
/// (result `spawned`) created the airplanes `born`; every airplane already in
/// the arena flew for `delta_ms`; those whose plan is then empty were
/// removed, their ids listed in `despawned` in arena order; and the airplanes
/// born in the tick join the arena after the rest, as they were spawned,
/// neither moved nor removed in that tick.
pub open spec fn tick_parts(
    grid: Grid,
    s0: Running,
    s1: Running,
    bus0: EventBus,
    bus1: EventBus,
    delta_ms: u64,
    spawned: Result<Option<AirplaneId>, SendError>,
    despawned: Seq<AirplaneId>,
    born: Seq<Airplane>,
    moved: Seq<Airplane>,
) -> bool {
    &&& spawn_step(s0.timer, s1.timer, delta_ms, grid, s0.ids, s1.ids, Seq::empty(), born, bus0, bus1, spawned)
    &&& all_followed(s0.airplanes@, moved, delta_ms)
    &&& s1.airplanes@ == moved.filter(|a: Airplane| in_flight(a)) + born
    &&& despawned == moved.filter(|a: Airplane| has_arrived(a)).map_values(|a: Airplane| id_of(a))
    &&& forall|j: int| 0 <= j < born.len() ==> !despawned.contains(#[trigger] born[j].id)
}

/// The id of an airplane spawned in the tick is the last issued, newer than
/// every id issued before; it stays in the arena and is not despawned.
pub open spec fn spawn_fresh(
    s0: Running,
    s1: Running,
    spawned: Result<Option<AirplaneId>, SendError>,
    despawned: Seq<AirplaneId>,
) -> bool {
    spawned matches Ok(Some(id)) ==> {
        &&& s0.ids.last_issued() < id.0
        &&& id.0 == s1.ids.last_issued()
        &&& !despawned.contains(id)
        &&& holds_id(s1.airplanes@, id)
    }
}

/// One tick of the running phase turned `s0` into `s1`, as `tick_parts`
/// describes, for some airplanes born and some arena after the move.
pub open spec fn phase_tick(
    grid: Grid,
    s0: Running,
    s1: Running,
    bus0: EventBus,
    bus1: EventBus,
    delta_ms: u64,
    spawned: Result<Option<AirplaneId>, SendError>,
    despawned: Seq<AirplaneId>,
) -> bool {
    &&& exists|born: Seq<Airplane>, moved: Seq<Airplane>|
        #[trigger] tick_parts(grid, s0, s1, bus0, bus1, delta_ms, spawned, despawned, born, moved)
    &&& spawn_fresh(s0, s1, spawned, despawned)
}

/// Some airplane of `s` holds id `a`.
pub open spec fn holds_id(s: Seq<Airplane>, a: AirplaneId) -> bool {
    exists|i: int| 0 <= i < s.len() && (#[trigger] s[i]).id == a
}

proof fn lemma_spawn_step_origin(
    timer0: SpawnTimer,
    timer1: SpawnTimer,
    delta_ms: u64,
    grid: Grid,
    ids0: AirplaneIdGenerator,
    ids1: AirplaneIdGenerator,
    planes0: Seq<Airplane>,
    planes1: Seq<Airplane>,
    bus0: EventBus,
    bus1: EventBus,
    r: Result<Option<AirplaneId>, SendError>,
)
    requires
        spawn_step(timer0, timer1, delta_ms, grid, ids0, ids1, planes0, planes1, bus0, bus1, r),
        ids_increasing(planes0),
        ids_at_most(planes0, ids0.last_issued()),
    ensures
        ids1.last_issued() >= ids0.last_issued(),
        ids_increasing(planes1),
        ids_at_most(planes1, ids1.last_issued()),
        forall|i: int| 0 <= i < planes1.len() ==> (i < planes0.len() && #[trigger] planes1[i] == planes0[i])
            || (planes1[i].id.0 > ids0.last_issued() && planes1[i].carry == 0),
{
    if timer0.elapsed_ms() + delta_ms >= timer0.period_ms() {
        let (t, e) = choose|t: (int, int), e: Edge| #[trigger] grid.on_edge(t, e) && spawned(ids0, ids1, planes0, planes1, bus0, bus1, t, r);
        lemma_spawn_keeps_ids(ids0, ids1, planes0, planes1, bus0, bus1, t, r);
        if ids0.last_issued() < u64::MAX {
            let id = choose|id: AirplaneId| #[trigger] generated(ids0, id, ids1) && planes1.len() == planes0.len() + 1
                && planes1.subrange(0, planes0.len() as int) == planes0 && fresh_airplane(planes1.last(), id, t);
            assert forall|i: int| 0 <= i < planes1.len() implies (i < planes0.len() && #[trigger] planes1[i] == planes0[i])
                || (planes1[i].id.0 > ids0.last_issued() && planes1[i].carry == 0) by {
                if i < planes0.len() {
                    assert(planes1.subrange(0, planes0.len() as int)[i] == planes1[i]);
                }
            }
        }
    }
}

/// What one tick keeps: the phase invariant holds after it, the id counter
/// never goes back, the airplanes born are newer than every id issued before,
/// every id removed was held before the tick and is held by no airplane
/// after it, and every airplane after the tick was there before or is newer.
proof fn lemma_tick_shape(
    grid: Grid,
    s0: Running,
    s1: Running,
    bus0: EventBus,
    bus1: EventBus,
    delta_ms: u64,
    spawned_r: Result<Option<AirplaneId>, SendError>,
    removed: Seq<AirplaneId>,
    born: Seq<Airplane>,
    moved: Seq<Airplane>,
)
    requires
        spawn_step(s0.timer, s1.timer, delta_ms, grid, s0.ids, s1.ids, Seq::empty(), born, bus0, bus1, spawned_r),
        all_followed(s0.airplanes@, moved, delta_ms),
        s1.airplanes@ == moved.filter(|a: Airplane| in_flight(a)) + born,
        removed == moved.filter(|a: Airplane| has_arrived(a)).map_values(|a: Airplane| id_of(a)),
        s0.wf(),
    ensures
        s1.wf(),
        s1.ids.last_issued() >= s0.ids.last_issued(),
        forall|j: int| 0 <= j < born.len() ==> (#[trigger] born[j]).id.0 > s0.ids.last_issued(),
        forall|a: AirplaneId| #[trigger] removed.contains(a) ==> holds_id(s0.airplanes@, a) && !holds_id(s1.airplanes@, a),
        forall|a: AirplaneId| #[trigger] holds_id(s1.airplanes@, a) ==> holds_id(s0.airplanes@, a) || a.0 > s0.ids.last_issued(),
{
    broadcast use vstd::seq_lib::group_filter_ensures;

    let before = s0.airplanes@;
    let last0 = s0.ids.last_issued();
    lemma_spawn_step_origin(s0.timer, s1.timer, delta_ms, grid, s0.ids, s1.ids, Seq::empty(), born, bus0, bus1, spawned_r);
    let keep = |x: Airplane| in_flight(x);
    let drop = |x: Airplane| has_arrived(x);
    let kept = moved.filter(keep);
    let arrived = moved.filter(drop);
    assert forall|i: int| 0 <= i < moved.len() implies (#[trigger] moved[i]).id == before[i].id && moved[i].carry < 1000 by {
        assert(followed(before[i], moved[i], delta_ms));
    }
    assert(ids_increasing(moved)) by {
        assert forall|i: int, j: int| 0 <= i < j < moved.len() implies (#[trigger] moved[i]).id.0 < (#[trigger] moved[j]).id.0 by {
            assert(moved[i].id == before[i].id && moved[j].id == before[j].id);
        }
    }
    assert(ids_at_most(moved, last0)) by {
        assert forall|i: int| 0 <= i < moved.len() implies (#[trigger] moved[i]).id.0 <= last0 by {
            assert(moved[i].id == before[i].id);
        }
    }
    lemma_filter_keeps_ids(moved, keep, last0);
    assert forall|j: int| 0 <= j < born.len() implies (#[trigger] born[j]).id.0 > last0 && born[j].carry == 0 by {}
    let s = s1.airplanes@;
    assert forall|i: int| 0 <= i < s.len() implies (i < kept.len() && #[trigger] s[i] == kept[i]) || (i >= kept.len() && s[i] == born[i - kept.len()]) by {}
    assert forall|i: int| 0 <= i < kept.len() implies exists|k: int| 0 <= k < moved.len() && moved[k] == #[trigger] kept[i] by {
        assert(kept.contains(kept[i]));
        moved.lemma_filter_contains_rev(keep, kept[i]);
    }
    // the invariant after the tick
    assert(ids_increasing(s)) by {
        assert forall|i: int, j: int| 0 <= i < j < s.len() implies (#[trigger] s[i]).id.0 < (#[trigger] s[j]).id.0 by {
            if j < kept.len() {
                assert(s[i] == kept[i] && s[j] == kept[j]);
            } else if i < kept.len() {
                assert(s[i] == kept[i] && s[j] == born[j - kept.len()]);
                assert(kept[i].id.0 <= last0);
            } else {
                assert(s[i] == born[i - kept.len()] && s[j] == born[j - kept.len()]);
            }
        }
    }
    assert(ids_at_most(s, s1.ids.last_issued())) by {
        assert forall|i: int| 0 <= i < s.len() implies (#[trigger] s[i]).id.0 <= s1.ids.last_issued() by {
            if i < kept.len() {
                assert(s[i] == kept[i]);
            } else {
                assert(s[i] == born[i - kept.len()]);
            }
        }
    }
    assert forall|i: int| 0 <= i < s.len() implies (#[trigger] s[i]).carry < 1000 by {
        if i < kept.len() {
            assert(s[i] == kept[i]);
            let k = choose|k: int| 0 <= k < moved.len() && moved[k] == kept[i];
        } else {
            assert(s[i] == born[i - kept.len()]);
        }
    }
    // where the ids after the tick come from
    assert forall|a: AirplaneId| #[trigger] holds_id(s, a) implies holds_id(before, a) || a.0 > last0 by {
        let i = choose|i: int| 0 <= i < s.len() && (#[trigger] s[i]).id == a;
        if i < kept.len() {
            assert(s[i] == kept[i]);
            let k = choose|k: int| 0 <= k < moved.len() && moved[k] == kept[i];
            assert(before[k].id == a);
        } else {
            assert(s[i] == born[i - kept.len()]);
        }
    }
    // the ids removed
    lemma_despawn_once(moved);
    assert forall|a: AirplaneId| #[trigger] removed.contains(a) implies holds_id(before, a) && !holds_id(s, a) by {
        let j = choose|j: int| 0 <= j < removed.len() && removed[j] == a;
        assert(removed[j] == arrived[j].id);
        assert(arrived.contains(arrived[j]));
        moved.lemma_filter_contains_rev(drop, arrived[j]);
        let k = choose|k: int| 0 <= k < moved.len() && moved[k] == arrived[j];
        assert(before[k].id == a);
        if holds_id(s, a) {
            let i = choose|i: int| 0 <= i < s.len() && (#[trigger] s[i]).id == a;
            if i < kept.len() {
                assert(s[i] == kept[i]);
                assert(kept[i].id != removed[j]);
            } else {
                assert(s[i] == born[i - kept.len()]);
                assert(moved[k].id.0 <= last0);
            }
        }
    }
}

/// One tick, as seen from the outside: see `lemma_tick_shape`.
proof fn lemma_tick_origin(
    grid: Grid,
    s0: Running,
    s1: Running,
    bus0: EventBus,
    bus1: EventBus,
    delta_ms: u64,
    spawned_r: Result<Option<AirplaneId>, SendError>,
    removed: Seq<AirplaneId>,
    a: AirplaneId,
)
    requires
        phase_tick(grid, s0, s1, bus0, bus1, delta_ms, spawned_r, removed),
        s0.wf(),
    ensures
        s1.ids.last_issued() >= s0.ids.last_issued(),
        holds_id(s1.airplanes@, a) || removed.contains(a) ==> holds_id(s0.airplanes@, a) || a.0 > s0.ids.last_issued(),
        removed.contains(a) ==> a.0 <= s1.ids.last_issued() && !holds_id(s1.airplanes@, a),
{
    let (born, moved) = choose|born: Seq<Airplane>, moved: Seq<Airplane>|
        #[trigger] tick_parts(grid, s0, s1, bus0, bus1, delta_ms, spawned_r, removed, born, moved);
    lemma_tick_shape(grid, s0, s1, bus0, bus1, delta_ms, spawned_r, removed, born, moved);
    if removed.contains(a) {
        assert(holds_id(s0.airplanes@, a));
        let i = choose|i: int| 0 <= i < s0.airplanes@.len() && (#[trigger] s0.airplanes@[i]).id == a;
        assert(s0.airplanes@[i].id.0 <= s0.ids.last_issued());
    }
}

/// Once the despawn pass removes an airplane it is gone for good: over any
/// run of ticks of the running phase, no later state holds an airplane with
/// its id, and no later tick removes that id again.
pub proof fn lemma_removed_once(
    grid: Grid,
    states: Seq<Running>,
    buses: Seq<EventBus>,
    deltas: Seq<u64>,
    spawns: Seq<Result<Option<AirplaneId>, SendError>>,
    removed: Seq<Seq<AirplaneId>>,
    t: int,
    a: AirplaneId,
)
    requires
        states.len() == deltas.len() + 1,
        buses.len() == states.len(),
        spawns.len() == deltas.len(),
        removed.len() == deltas.len(),
        forall|k: int| 0 <= k < states.len() ==> (#[trigger] states[k]).wf(),
        forall|k: int| 0 <= k < deltas.len() ==> #[trigger] phase_tick(grid, states[k], states[k + 1], buses[k], buses[k + 1], deltas[k], spawns[k], removed[k]),
        0 <= t < deltas.len(),
        removed[t].contains(a),
    ensures
        forall|k: int| t < k < states.len() ==> !holds_id(#[trigger] states[k].airplanes@, a),
        forall|k: int| t < k < deltas.len() ==> !(#[trigger] removed[k]).contains(a),
{
    assert forall|k: int| t < k < states.len() implies !holds_id(#[trigger] states[k].airplanes@, a) by {
        lemma_gone_after(grid, states, buses, deltas, spawns, removed, t, a, k);
    }
    assert forall|k: int| t < k < deltas.len() implies !(#[trigger] removed[k]).contains(a) by {
        lemma_gone_after(grid, states, buses, deltas, spawns, removed, t, a, k);
        assert(phase_tick(grid, states[k], states[k + 1], buses[k], buses[k + 1], deltas[k], spawns[k], removed[k]));
        lemma_tick_origin(grid, states[k], states[k + 1], buses[k], buses[k + 1], deltas[k], spawns[k], removed[k], a);
    }
}

proof fn lemma_counter_never_back(
    grid: Grid,
    states: Seq<Running>,
    buses: Seq<EventBus>,
    deltas: Seq<u64>,
    spawns: Seq<Result<Option<AirplaneId>, SendError>>,
    removed: Seq<Seq<AirplaneId>>,
    i: int,
    j: int,
)
    requires
        states.len() == deltas.len() + 1,
        buses.len() == states.len(),
        spawns.len() == deltas.len(),
        removed.len() == deltas.len(),
        forall|k: int| 0 <= k < states.len() ==> (#[trigger] states[k]).wf(),
        forall|k: int| 0 <= k < deltas.len() ==> #[trigger] phase_tick(grid, states[k], states[k + 1], buses[k], buses[k + 1], deltas[k], spawns[k], removed[k]),
        0 <= i <= j < states.len(),
    ensures
        states[i].ids.last_issued() <= states[j].ids.last_issued(),
    decreases j - i,
{
    if i < j {
        lemma_counter_never_back(grid, states, buses, deltas, spawns, removed, i, j - 1);
        let k = j - 1;
        assert(phase_tick(grid, states[k], states[k + 1], buses[k], buses[k + 1], deltas[k], spawns[k], removed[k]));
        lemma_tick_origin(grid, states[k], states[k + 1], buses[k], buses[k + 1], deltas[k], spawns[k], removed[k], AirplaneId(0));
    }
}

/// Over any run of ticks of the running phase, the airplanes spawned get
/// strictly increasing ids, and an id spawned in a tick is held by no
/// airplane of any earlier state: ids are never reused, even after removal.
pub proof fn lemma_spawned_ids_increase(
    grid: Grid,
    states: Seq<Running>,
    buses: Seq<EventBus>,
    deltas: Seq<u64>,
    spawns: Seq<Result<Option<AirplaneId>, SendError>>,
    removed: Seq<Seq<AirplaneId>>,
    i: int,
    j: int,
    a: AirplaneId,
    b: AirplaneId,
)
    requires
        states.len() == deltas.len() + 1,
        buses.len() == states.len(),
        spawns.len() == deltas.len(),
        removed.len() == deltas.len(),
        forall|k: int| 0 <= k < states.len() ==> (#[trigger] states[k]).wf(),
        forall|k: int| 0 <= k < deltas.len() ==> #[trigger] phase_tick(grid, states[k], states[k + 1], buses[k], buses[k + 1], deltas[k], spawns[k], removed[k]),
        0 <= i < j < deltas.len(),
        spawns[i] == Ok::<Option<AirplaneId>, SendError>(Some(a)),
        spawns[j] == Ok::<Option<AirplaneId>, SendError>(Some(b)),
    ensures
        a.0 < b.0,
        forall|k: int| 0 <= k <= j ==> !holds_id(#[trigger] states[k].airplanes@, b),
{
    assert(phase_tick(grid, states[i], states[i + 1], buses[i], buses[i + 1], deltas[i], spawns[i], removed[i]));
    assert(phase_tick(grid, states[j], states[j + 1], buses[j], buses[j + 1], deltas[j], spawns[j], removed[j]));
    lemma_counter_never_back(grid, states, buses, deltas, spawns, removed, i + 1, j);
    assert forall|k: int| 0 <= k <= j implies !holds_id(#[trigger] states[k].airplanes@, b) by {
        lemma_counter_never_back(grid, states, buses, deltas, spawns, removed, k, j);
        assert(states[k].wf());
        if holds_id(states[k].airplanes@, b) {
            let x = choose|x: int| 0 <= x < states[k].airplanes@.len() && (#[trigger] states[k].airplanes@[x]).id == b;
            assert(states[k].airplanes@[x].id.0 <= states[k].ids.last_issued());
        }
    }
}

proof fn lemma_removed_by(
    grid: Grid,
    states: Seq<Running>,
    buses: Seq<EventBus>,
    deltas: Seq<u64>,
    spawns: Seq<Result<Option<AirplaneId>, SendError>>,
    removed: Seq<Seq<AirplaneId>>,
    k: int,
    m: int,
    x: Airplane,
)
    requires
        states.len() == deltas.len() + 1,
        buses.len() == states.len(),
        spawns.len() == deltas.len(),
        removed.len() == deltas.len(),
        forall|j: int| 0 <= j < states.len() ==> (#[trigger] states[j]).wf(),
        forall|j: int| 0 <= j < deltas.len() ==> #[trigger] phase_tick(grid, states[j], states[j + 1], buses[j], buses[j + 1], deltas[j], spawns[j], removed[j]),
        0 <= k < m <= deltas.len(),
        states[k].airplanes@.contains(x),
        flight_after(flight_of(x), x.speed.0, deltas.subrange(k, m)).1.len() == 0,
    ensures
        exists|t: int| k <= t < m && #[trigger] removed[t].contains(x.id),
    decreases m - k,
{
    broadcast use vstd::seq_lib::group_filter_ensures;

    assert(phase_tick(grid, states[k], states[k + 1], buses[k], buses[k + 1], deltas[k], spawns[k], removed[k]));
    let s0 = states[k];
    let s1 = states[k + 1];
    let (born, moved) = choose|born: Seq<Airplane>, moved: Seq<Airplane>|
        #[trigger] tick_parts(grid, s0, s1, buses[k], buses[k + 1], deltas[k], spawns[k], removed[k], born, moved);
    let i = choose|i: int| 0 <= i < s0.airplanes@.len() && s0.airplanes@[i] == x;
    let y = moved[i];
    assert(followed(s0.airplanes@[i], moved[i], deltas[k]));
    let rest = deltas.subrange(k + 1, m);
    assert(deltas.subrange(k, m)[0] == deltas[k]);
    assert(deltas.subrange(k, m).drop_first() =~= rest);
    assert(flight_of(y) == tick_flight(flight_of(x), x.speed.0, deltas[k]));
    assert(y.id == x.id && y.speed == x.speed);
    assert(flight_after(flight_of(x), x.speed.0, deltas.subrange(k, m)) == flight_after(flight_of(y), x.speed.0, rest));
    if has_arrived(y) {
        let drop = |a: Airplane| has_arrived(a);
        let arrived = moved.filter(drop);
        moved.lemma_filter_contains(drop, i);
        let q = choose|q: int| 0 <= q < arrived.len() && arrived[q] == y;
        assert(removed[k][q] == y.id);
        assert(removed[k].contains(x.id));
        assert(k <= k < m && removed[k].contains(x.id));
    } else {
        let keep = |a: Airplane| in_flight(a);
        moved.lemma_filter_contains(keep, i);
        let kept = moved.filter(keep);
        let q = choose|q: int| 0 <= q < kept.len() && kept[q] == y;
        assert(s1.airplanes@[q] == y);
        assert(s1.airplanes@.contains(y));
        if k + 1 == m {
            assert(rest.len() == 0);
            assert(flight_after(flight_of(y), x.speed.0, rest) == flight_of(y));
            assert(false);
        } else {
            lemma_removed_by(grid, states, buses, deltas, spawns, removed, k + 1, m, y);
            let t = choose|t: int| k + 1 <= t < m && #[trigger] removed[t].contains(y.id);
        }
    }
}

/// An airplane in the arena arrives and leaves: when the ticks from `k` to
/// `m` give it, at its speed and with its carry, at least the distance it
/// has left to fly, the despawn pass of one of those ticks removes it, and
/// after them no airplane holds its id. (`lemma_removed_once` shows it is
/// never removed again.)
pub proof fn lemma_arrives_and_leaves(
    grid: Grid,
    states: Seq<Running>,
    buses: Seq<EventBus>,
    deltas: Seq<u64>,
    spawns: Seq<Result<Option<AirplaneId>, SendError>>,
    removed: Seq<Seq<AirplaneId>>,
    k: int,
    m: int,
    x: Airplane,
)
    requires
        states.len() == deltas.len() + 1,
        buses.len() == states.len(),
        spawns.len() == deltas.len(),
        removed.len() == deltas.len(),
        forall|j: int| 0 <= j < states.len() ==> (#[trigger] states[j]).wf(),
        forall|j: int| 0 <= j < deltas.len() ==> #[trigger] phase_tick(grid, states[j], states[j + 1], buses[j], buses[j + 1], deltas[j], spawns[j], removed[j]),
        0 <= k < m <= deltas.len(),
        states[k].airplanes@.contains(x),
        (x.speed.0 as nat * total_ms(deltas.subrange(k, m)) + x.carry as nat) / 1000 >= remaining(x.position@, x.flight_plan@),
    ensures
        exists|t: int| k <= t < m && #[trigger] removed[t].contains(x.id),
        !holds_id(states[m].airplanes@, x.id),
{
    assert(states[k].wf());
    let i = choose|i: int| 0 <= i < states[k].airplanes@.len() && states[k].airplanes@[i] == x;
    assert(states[k].airplanes@[i].carry < 1000);
    lemma_arrival(flight_of(x), x.speed.0, deltas.subrange(k, m));
    lemma_removed_by(grid, states, buses, deltas, spawns, removed, k, m, x);
    let t = choose|t: int| k <= t < m && #[trigger] removed[t].contains(x.id);
    lemma_gone_after(grid, states, buses, deltas, spawns, removed, t, x.id, m);
}

proof fn lemma_gone_after(
    grid: Grid,
    states: Seq<Running>,
    buses: Seq<EventBus>,
    deltas: Seq<u64>,
    spawns: Seq<Result<Option<AirplaneId>, SendError>>,
    removed: Seq<Seq<AirplaneId>>,
    t: int,
    a: AirplaneId,
    k: int,
)
    requires
        states.len() == deltas.len() + 1,
        buses.len() == states.len(),
        spawns.len() == deltas.len(),
        removed.len() == deltas.len(),
        forall|j: int| 0 <= j < states.len() ==> (#[trigger] states[j]).wf(),
        forall|j: int| 0 <= j < deltas.len() ==> #[trigger] phase_tick(grid, states[j], states[j + 1], buses[j], buses[j + 1], deltas[j], spawns[j], removed[j]),
        0 <= t < deltas.len(),
        removed[t].contains(a),
        t < k < states.len(),
    ensures
        !holds_id(states[k].airplanes@, a),
        a.0 <= states[k].ids.last_issued(),
    decreases k - t,
{
    let j = k - 1;
    assert(phase_tick(grid, states[j], states[j + 1], buses[j], buses[j + 1], deltas[j], spawns[j], removed[j]));
    assert(states[j].wf());
    lemma_tick_origin(grid, states[j], states[j + 1], buses[j], buses[j + 1], deltas[j], spawns[j], removed[j], a);
    if j > t {
        lemma_gone_after(grid, states, buses, deltas, spawns, removed, t, a, j);
    }
}

/// The spawn period of the running phase: one airplane per second.
pub const SPAWN_PERIOD_MS: u64 = 1000;

/// Configuration of the running phase: the grid airplanes spawn on and the
/// spawn period in milliseconds.
#[derive(Clone, Copy, Debug)]
pub struct GameStateRunningPlugin {
    pub grid: Grid,
    pub spawn_period_ms: u64,
}

/// The state that exists while the running phase is active.
#[derive(Debug)]
pub struct Running {
    pub timer: SpawnTimer,
    pub ids: AirplaneIdGenerator,
    pub airplanes: Vec<Airplane>,
}

impl Running {
    pub open spec fn wf(&self) -> bool {
        &&& self.timer.wf()
        &&& ids_increasing(self.airplanes@)
        &&& ids_at_most(self.airplanes@, self.ids.last_issued())
        &&& forall|i: int| 0 <= i < self.airplanes@.len() ==> (#[trigger] self.airplanes@[i]).carry < 1000
    }
}

/// What one tick of the running phase did: the result of the spawn step and
/// the ids of the airplanes removed on arrival, in arena order.
#[derive(Debug)]
pub struct TickOutcome {
    pub spawned: Result<Option<AirplaneId>, SendError>,
    pub despawned: Vec<AirplaneId>,
}

/// Announces the start of the running phase.
pub fn send_event(bus: &mut EventBus) -> (r: Result<(), SendError>)
    requires
        old(bus).wf(),
    ensures
        final(bus).wf(),
        r is Ok <==> old(bus).accepts(),
        r is Ok ==> delivered(*old(bus), *final(bus), EventView::GameStarted),
        r is Err ==> unchanged(*old(bus), *final(bus)),
{
    bus.send(Event::GameStarted)
}

proof fn lemma_spawn_keeps_ids(
    ids0: AirplaneIdGenerator,
    ids1: AirplaneIdGenerator,
    planes0: Seq<Airplane>,
    planes1: Seq<Airplane>,
    bus0: EventBus,
    bus1: EventBus,
    t: (int, int),
    r: Result<Option<AirplaneId>, SendError>,
)
    requires
        spawned(ids0, ids1, planes0, planes1, bus0, bus1, t, r),
        ids_increasing(planes0),
        ids_at_most(planes0, ids0.last_issued()),
    ensures
        ids_increasing(planes1),
        ids_at_most(planes1, ids1.last_issued()),
{
    if ids0.last_issued() < u64::MAX {
        assert forall|i: int| 0 <= i < planes0.len() implies #[trigger] planes1[i] == planes0[i] by {
            assert(planes1.subrange(0, planes0.len() as int)[i] == planes1[i]);
        }
        assert forall|i: int, j: int| 0 <= i < j < planes1.len() implies (#[trigger] planes1[i]).id.0 < (#[trigger] planes1[j]).id.0 by {
            if j < planes0.len() {
                assert(planes1[i] == planes0[i] && planes1[j] == planes0[j]);
            } else {
                assert(planes1[i] == planes0[i]);
                assert(planes0[i].id.0 <= ids0.last_issued());
            }
        }
        assert forall|i: int| 0 <= i < planes1.len() implies (#[trigger] planes1[i]).id.0 <= ids1.last_issued() by {
            if i < planes0.len() {
                assert(planes1[i] == planes0[i]);
            }
        }
    }
}

proof fn lemma_filter_keeps_ids(s: Seq<Airplane>, pred: spec_fn(Airplane) -> bool, last: nat)
    requires
        ids_increasing(s),
        ids_at_most(s, last),
    ensures
        ids_increasing(s.filter(pred)),
        ids_at_most(s.filter(pred), last),
    decreases s.len(),
{
    reveal(Seq::filter);
    broadcast use vstd::seq_lib::group_filter_ensures;

    if s.len() > 0 {
        let init = s.drop_last();
        assert forall|i: int, j: int| 0 <= i < j < init.len() implies (#[trigger] init[i]).id.0 < (#[trigger] init[j]).id.0 by {
            assert(init[i] == s[i] && init[j] == s[j]);
        }
        assert forall|i: int| 0 <= i < init.len() implies (#[trigger] init[i]).id.0 <= last by {
            assert(init[i] == s[i]);
        }
        lemma_filter_keeps_ids(init, pred, last);
        let f = init.filter(pred);
        if pred(s.last()) {
            let g = f.push(s.last());
            assert forall|i: int, j: int| 0 <= i < j < g.len() implies (#[trigger] g[i]).id.0 < (#[trigger] g[j]).id.0 by {
                if j == f.len() {
                    assert(f.contains(f[i]));
                    init.lemma_filter_contains_rev(pred, f[i]);
                    let k = choose|k: int| 0 <= k < init.len() && init[k] == f[i];
                    assert(s[k] == init[k]);
                    assert(s[k].id.0 < s[s.len() - 1].id.0);
                } else {
                    assert(g[i] == f[i] && g[j] == f[j]);
                }
            }
            assert forall|i: int| 0 <= i < g.len() implies (#[trigger] g[i]).id.0 <= last by {
                if i < f.len() {
                    assert(g[i] == f[i]);
                }
            }
        }
    }
}

/// In an arena whose ids strictly increase, despawning removes each arrived
/// airplane exactly once: the ids removed are distinct, none of them is held
/// by an airplane that stays, and every airplane either stays or is removed.
pub proof fn lemma_despawn_once(s: Seq<Airplane>)
    requires
        ids_increasing(s),
    ensures
        ({
            let kept = s.filter(|a: Airplane| in_flight(a));
            let gone = s.filter(|a: Airplane| has_arrived(a)).map_values(|a: Airplane| id_of(a));
            &&& forall|i: int, j: int| 0 <= i < j < gone.len() ==> (#[trigger] gone[i]).0 < (#[trigger] gone[j]).0
            &&& forall|k: int, g: int| 0 <= k < kept.len() && 0 <= g < gone.len() ==> (#[trigger] kept[k]).id != #[trigger] gone[g]
            &&& kept.len() + gone.len() == s.len()
        }),
{
    broadcast use vstd::seq_lib::group_filter_ensures;

    let keep = |a: Airplane| in_flight(a);
    let drop = |a: Airplane| has_arrived(a);
    let kept = s.filter(keep);
    let arrived = s.filter(drop);
    let gone = arrived.map_values(|a: Airplane| id_of(a));
    assert(ids_at_most(s, u64::MAX as nat));
    lemma_filter_keeps_ids(s, drop, u64::MAX as nat);
    assert forall|i: int, j: int| 0 <= i < j < gone.len() implies (#[trigger] gone[i]).0 < (#[trigger] gone[j]).0 by {
        assert(gone[i] == arrived[i].id && gone[j] == arrived[j].id);
    }
    assert forall|k: int, g: int| 0 <= k < kept.len() && 0 <= g < gone.len() implies (#[trigger] kept[k]).id != #[trigger] gone[g] by {
        assert(kept.contains(kept[k]));
        s.lemma_filter_contains_rev(keep, kept[k]);
        assert(arrived.contains(arrived[g]));
        s.lemma_filter_contains_rev(drop, arrived[g]);
        let a = choose|a: int| 0 <= a < s.len() && s[a] == kept[k];
        let b = choose|b: int| 0 <= b < s.len() && s[b] == arrived[g];
        assert(in_flight(s[a]) && has_arrived(s[b]));
        assert(a != b);
        if a < b {
            assert(s[a].id.0 < s[b].id.0);
        } else {
            assert(s[b].id.0 < s[a].id.0);
        }
    }
    lemma_filter_partition(s);
}

proof fn lemma_filter_partition(s: Seq<Airplane>)
    ensures
        s.filter(|a: Airplane| in_flight(a)).len() + s.filter(|a: Airplane| has_arrived(a)).len() == s.len(),
    decreases s.len(),
{
    reveal(Seq::filter);
    if s.len() > 0 {
        lemma_filter_partition(s.drop_last());
    }
}

impl GameStateRunningPlugin {
    pub open spec fn wf(&self) -> bool {
        self.grid.wf() && self.spawn_period_ms > 0
    }

    pub fn new(grid: Grid, spawn_period_ms: u64) -> (r: GameStateRunningPlugin)
        ensures
            r.grid == grid,
            r.spawn_period_ms == spawn_period_ms,
    {
        GameStateRunningPlugin { grid, spawn_period_ms }
    }

    /// The running phase on `grid`, spawning every `SPAWN_PERIOD_MS`.
    pub fn for_grid(grid: Grid) -> (r: GameStateRunningPlugin)
        ensures
            r.grid == grid,
            r.spawn_period_ms == SPAWN_PERIOD_MS,
    {
        GameStateRunningPlugin { grid, spawn_period_ms: SPAWN_PERIOD_MS }
    }

    /// Enters the phase: announces its start and creates its state, with a
    /// fresh spawn timer, id generator and an empty arena.
    pub fn on_enter(&self, bus: &mut EventBus) -> (r: (Running, Result<(), SendError>))
        requires
            self.wf(),
            old(bus).wf(),
        ensures
            final(bus).wf(),
            r.0.wf(),
            r.0.timer.period_ms() == self.spawn_period_ms,
            r.0.timer.elapsed_ms() == 0,
            r.0.ids.last_issued() == 0,
            r.0.airplanes@.len() == 0,
            r.1 is Ok <==> old(bus).accepts(),
            r.1 is Ok ==> delivered(*old(bus), *final(bus), EventView::GameStarted),
            r.1 is Err ==> unchanged(*old(bus), *final(bus)),
    {
        let sent = send_event(bus);
        let state = Running {
            timer: SpawnTimer::new(self.spawn_period_ms),
            ids: AirplaneIdGenerator::new(),
            airplanes: Vec::new(),
        };
        (state, sent)
    }

    /// One tick of `delta_ms` milliseconds: the spawn step, then every
    /// airplane already in the arena flies along its plan, dropping the
    /// waypoints it reaches, then airplanes with an empty flight plan are
    /// removed. An airplane spawned in this tick joins the arena at its end
    /// once the other passes are done, so it is neither moved nor removed in
    /// the tick that created it.
    pub fn on_update(&self, state: &mut Running, delta_ms: u64, bus: &mut EventBus) -> (r: TickOutcome)
        requires
            self.wf(),
            old(state).wf(),
            old(bus).wf(),
        ensures
            final(state).wf(),
            final(bus).wf(),
            phase_tick(self.grid, *old(state), *final(state), *old(bus), *final(bus), delta_ms, r.spawned, r.despawned@),
    {
        let mut born: Vec<Airplane> = Vec::new();
        let spawn_result = spawn_airplane(&mut state.timer, delta_ms, &self.grid, &mut state.ids, &mut born, bus);
        let ghost born_planes = born@;
        follow_flight_plan(&mut state.airplanes, delta_ms);
        let ghost moved = state.airplanes@;
        let despawned = despawn_airplane(&mut state.airplanes);
        state.airplanes.append(&mut born);
        let r = TickOutcome { spawned: spawn_result, despawned };
        proof {
            assert(born_planes =~= Seq::<Airplane>::empty() + born_planes);
            lemma_tick_shape(self.grid, *old(state), *state, *old(bus), *bus, delta_ms, r.spawned, r.despawned@, born_planes, moved);
            assert forall|j: int| 0 <= j < born_planes.len() implies !r.despawned@.contains(#[trigger] born_planes[j].id) by {
                if r.despawned@.contains(born_planes[j].id) {
                    let a = born_planes[j].id;
                    assert(holds_id(old(state).airplanes@, a));
                    let i = choose|i: int| 0 <= i < old(state).airplanes@.len() && (#[trigger] old(state).airplanes@[i]).id == a;
                    assert(old(state).airplanes@[i].id.0 <= old(state).ids.last_issued());
                }
            }
            assert(tick_parts(self.grid, *old(state), *state, *old(bus), *bus, delta_ms, r.spawned, r.despawned@, born_planes, moved));
            match r.spawned {
                Ok(Some(id)) => {
                    let (t, e) = choose|t: (int, int), e: Edge| #[trigger] self.grid.on_edge(t, e) && spawned(old(state).ids, state.ids, Seq::empty(), born_planes, *old(bus), *bus, t, r.spawned);
                    let gid = choose|gid: AirplaneId| #[trigger] generated(old(state).ids, gid, state.ids) && born_planes.len() == 0 + 1
                        && born_planes.subrange(0, 0) == Seq::<Airplane>::empty() && fresh_airplane(born_planes.last(), gid, t);
                    assert(gid == id);
                    let s1 = state.airplanes@;
                    let k = s1.len() - 1;
                    assert(s1[k] == born_planes[0]);
                    assert(holds_id(s1, id));
                    assert(!r.despawned@.contains(born_planes[0].id));
                },
                _ => {},
            }
        }
        r
    }

    /// Leaves the phase: the spawn timer and id generator are released, and
    /// the airplanes still in flight are handed back for teardown.
    pub fn on_exit(&self, state: Running) -> (r: Vec<Airplane>)
        ensures
            r@ == state.airplanes@,
    {
        state.airplanes
    }
}

} // verus!
