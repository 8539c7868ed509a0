use vstd::prelude::*;

use crate::components::{tile_point, Airplane, AirplaneId, Point};
use crate::map::{abs, manhattan};

verus! {

/// Sub-tile units covered at `speed` in `delta_ms` milliseconds, on top of
/// the `carry` thousandths of a unit left from earlier ticks, rounded down.
pub open spec fn reach(speed: u32, delta_ms: u64, carry: nat) -> nat {
    ((speed as nat * delta_ms as nat + carry) / 1000) as nat
}

/// The thousandths of a unit left over after `reach`.
pub open spec fn carry_after(speed: u32, delta_ms: u64, carry: nat) -> nat {
    ((speed as nat * delta_ms as nat + carry) % 1000) as nat
}

/// `v` moved towards `t` by at most `b`, stopping on `t`.
pub open spec fn approach(v: int, t: int, b: nat) -> int {
    if t >= v {
        if t - v <= b { t } else { v + b }
    } else {
        if v - t <= b { t } else { v - b }
    }
}

/// `p` moved towards `t` by at most `b` units of Manhattan distance, first
/// horizontally, then vertically with what is left.
pub open spec fn move_toward(p: (int, int), t: (int, int), b: nat) -> (int, int) {
    let nx = approach(p.0, t.0, b);
    (nx, approach(p.1, t.1, (b - abs(nx - p.0)) as nat))
}

/// Position and remaining plan after travelling `b` units from `p` along
/// `plan`: every waypoint reached or passed is dropped, nearest first.
pub open spec fn travel(p: (int, int), plan: Seq<(int, int)>, b: nat) -> ((int, int), Seq<(int, int)>)
    decreases plan.len(),
{
    if plan.len() == 0 {
        (p, plan)
    } else {
        let t = tile_point(plan[0]);
        let d = manhattan(p, t);
        if d <= b {
            travel(t, plan.drop_first(), (b - d) as nat)
        } else {
            (move_toward(p, t, b), plan)
        }
    }
}

/// Length of the path through the waypoints of `plan`, in sub-tile units.
pub open spec fn path_len(plan: Seq<(int, int)>) -> nat
    decreases plan.len(),
{
    if plan.len() <= 1 {
        0
    } else {
        manhattan(tile_point(plan[0]), tile_point(plan[1])) + path_len(plan.drop_first())
    }
}

/// Distance still to fly from `p` through every waypoint of `plan`.
pub open spec fn remaining(p: (int, int), plan: Seq<(int, int)>) -> nat {
    if plan.len() == 0 {
        0
    } else {
        manhattan(p, tile_point(plan[0])) + path_len(plan)
    }
}

/// Position, remaining plan and carried thousandths of a unit of an airplane.
pub open spec fn flight_of(a: Airplane) -> ((int, int), Seq<(int, int)>, nat) {
    (a.position@, a.flight_plan@, a.carry as nat)
}

/// One tick of `delta_ms` of a flight at `speed`.
pub open spec fn tick_flight(s: ((int, int), Seq<(int, int)>, nat), speed: u32, delta_ms: u64) -> ((int, int), Seq<(int, int)>, nat) {
    let moved = travel(s.0, s.1, reach(speed, delta_ms, s.2));
    (moved.0, moved.1, carry_after(speed, delta_ms, s.2))
}

/// The flight after one tick for each of `deltas`, in order.
pub open spec fn flight_after(s: ((int, int), Seq<(int, int)>, nat), speed: u32, deltas: Seq<u64>) -> ((int, int), Seq<(int, int)>, nat)
    decreases deltas.len(),
{
    if deltas.len() == 0 {
        s
    } else {
        flight_after(tick_flight(s, speed, deltas[0]), speed, deltas.drop_first())
    }
}

/// Total time of a run of ticks.
pub open spec fn total_ms(deltas: Seq<u64>) -> nat
    decreases deltas.len(),
{
    if deltas.len() == 0 {
        0
    } else {
        deltas[0] as nat + total_ms(deltas.drop_first())
    }
}

proof fn lemma_move_closer(p: (int, int), t: (int, int), b: nat)
    ensures
        manhattan(move_toward(p, t, b), t) + (if b < manhattan(p, t) { b } else { manhattan(p, t) })
            == manhattan(p, t),
{
}

/// Travelling `b` units shortens the distance still to fly by `b`, and the
/// plan is empty exactly when `b` covers all of it.
pub proof fn lemma_travel(p: (int, int), plan: Seq<(int, int)>, b: nat)
    ensures
        b >= remaining(p, plan) ==> travel(p, plan, b).1.len() == 0,
        b < remaining(p, plan) ==> travel(p, plan, b).1.len() > 0
            && remaining(travel(p, plan, b).0, travel(p, plan, b).1) + b == remaining(p, plan),
    decreases plan.len(),
{
    if plan.len() > 0 {
        let t = tile_point(plan[0]);
        let d = manhattan(p, t);
        let rest = plan.drop_first();
        if d <= b {
            lemma_travel(t, rest, (b - d) as nat);
            if rest.len() > 0 {
                assert(rest[0] == plan[1]);
            }
        } else {
            lemma_move_closer(p, t, b);
        }
    }
}

/// Over any non-empty run of ticks, a flight covers exactly the distance its speed
/// gives in the total time, counting the thousandths carried in: it has
/// arrived, its plan empty, once that distance reaches what it had left to
/// fly, and otherwise has exactly that much less to fly. The carry is below
/// a whole unit, as every tick leaves it.
pub proof fn lemma_arrival(s: ((int, int), Seq<(int, int)>, nat), speed: u32, deltas: Seq<u64>)
    requires
        s.2 < 1000,
    ensures
        ({
            let covered = (speed as nat * total_ms(deltas) + s.2) / 1000;
            let f = flight_after(s, speed, deltas);
            &&& deltas.len() > 0 && covered >= remaining(s.0, s.1) ==> f.1.len() == 0
            &&& covered < remaining(s.0, s.1) ==> f.1.len() > 0 && remaining(f.0, f.1) + covered == remaining(s.0, s.1)
            &&& f.2 == (speed as nat * total_ms(deltas) + s.2) % 1000
        }),
    decreases deltas.len(),
{
    if deltas.len() == 0 {
        assert(total_ms(deltas) == 0);
        assert(speed as nat * 0 == 0);
    } else {
        let d0 = deltas[0];
        let rest = deltas.drop_first();
        let b = reach(speed, d0, s.2);
        let c = carry_after(speed, d0, s.2);
        let next = tick_flight(s, speed, d0);
        lemma_travel(s.0, s.1, b);
        lemma_arrival(next, speed, rest);
        let sp = speed as nat;
        let x = sp * d0 as nat + s.2;
        let y = sp * total_ms(rest) + c;
        assert(x == 1000 * b + c) by (nonlinear_arith)
            requires b == x / 1000, c == x % 1000;
        assert(sp * total_ms(deltas) + s.2 == 1000 * b + y) by (nonlinear_arith)
            requires total_ms(deltas) == d0 as nat + total_ms(rest), x == sp * d0 as nat + s.2,
                x == 1000 * b + c, y == sp * total_ms(rest) + c;
        assert((1000 * b + y) / 1000 == b + y / 1000) by (nonlinear_arith)
            requires y >= 0, b >= 0;
        assert((1000 * b + y) % 1000 == y % 1000) by (nonlinear_arith)
            requires y >= 0, b >= 0;
        let covered = (sp * total_ms(deltas) + s.2) / 1000;
        assert(covered == b + y / 1000);
        if b >= remaining(s.0, s.1) {
            lemma_arrival_stays(next, speed, rest);
        } else {
            assert(remaining(next.0, next.1) + b == remaining(s.0, s.1));
        }
    }
}

proof fn lemma_arrival_stays(s: ((int, int), Seq<(int, int)>, nat), speed: u32, deltas: Seq<u64>)
    requires
        s.1.len() == 0,
    ensures
        flight_after(s, speed, deltas).1.len() == 0,
    decreases deltas.len(),
{
    if deltas.len() > 0 {
        lemma_arrival_stays(tick_flight(s, speed, deltas[0]), speed, deltas.drop_first());
    }
}

fn approach_exec(v: i64, t: i64, b: u128) -> (r: i64)
    ensures
        r == approach(v as int, t as int, b as nat),
{
    if t >= v {
        if ((t as i128 - v as i128) as u128) <= b { t } else { (v as i128 + b as i128) as i64 }
    } else {
        if ((v as i128 - t as i128) as u128) <= b { t } else { (v as i128 - b as i128) as i64 }
    }
}

fn distance_exec(p: Point, t: Point) -> (r: u128)
    ensures
        r == manhattan(p@, t@),
{
    let dx: u128 = if t.x >= p.x { (t.x as i128 - p.x as i128) as u128 } else { (p.x as i128 - t.x as i128) as u128 };
    let dy: u128 = if t.y >= p.y { (t.y as i128 - p.y as i128) as u128 } else { (p.y as i128 - t.y as i128) as u128 };
    dx + dy
}

/// One airplane flies along its plan for one tick of `delta_ms`: it covers
/// the distance its speed gives, with the thousandths carried from earlier
/// ticks, dropping every waypoint it reaches or passes, and carries the new
/// remainder.
pub fn follow_waypoint(a: &mut Airplane, delta_ms: u64)
    ensures
        flight_of(*final(a)) == tick_flight(flight_of(*old(a)), old(a).speed.0, delta_ms),
        final(a).id == old(a).id,
        final(a).speed == old(a).speed,
{
    assert(a.speed.0 as nat * delta_ms as nat <= u32::MAX as nat * u64::MAX as nat) by (nonlinear_arith);
    let total: u128 = a.speed.0 as u128 * delta_ms as u128 + a.carry as u128;
    let mut b: u128 = total / 1000;
    a.carry = (total % 1000) as u64;
    let ghost target = travel(a.position@, a.flight_plan@, b as nat);
    let mut done = false;
    while !done && a.flight_plan.len() > 0
        invariant
            !done ==> travel(a.position@, a.flight_plan@, b as nat) == target,
            done ==> (a.position@, a.flight_plan@) == target,
            a.id == old(a).id,
            a.speed == old(a).speed,
            a.carry as nat == carry_after(old(a).speed.0, delta_ms, old(a).carry as nat),
        decreases a.flight_plan@.len() + if done { 0int } else { 1int },
    {
        let wp = a.flight_plan.0[0];
        let t = wp.as_point();
        let d = distance_exec(a.position, t);
        if d <= b {
            a.position = t;
            b = b - d;
            a.flight_plan.pop_next();
        } else {
            let nx = approach_exec(a.position.x, t.x, b);
            let used: u128 = if nx >= a.position.x {
                (nx as i128 - a.position.x as i128) as u128
            } else {
                (a.position.x as i128 - nx as i128) as u128
            };
            let ny = approach_exec(a.position.y, t.y, b - used);
            a.position = Point { x: nx, y: ny };
            done = true;
        }
    }
}

/// `a1` is `a0` after flying for one tick of `delta_ms`.
pub open spec fn followed(a0: Airplane, a1: Airplane, delta_ms: u64) -> bool {
    &&& flight_of(a1) == tick_flight(flight_of(a0), a0.speed.0, delta_ms)
    &&& a1.id == a0.id
    &&& a1.speed == a0.speed
}

/// `to` is the arena `from` after every airplane flew for `delta_ms`.
pub open spec fn all_followed(from: Seq<Airplane>, to: Seq<Airplane>, delta_ms: u64) -> bool {
    &&& to.len() == from.len()
    &&& forall|i: int| 0 <= i < from.len() ==> followed(from[i], #[trigger] to[i], delta_ms)
}

/// Every airplane flies along its plan for one tick.
pub fn follow_flight_plan(airplanes: &mut Vec<Airplane>, delta_ms: u64)
    ensures
        all_followed(old(airplanes)@, final(airplanes)@, delta_ms),
{
    let mut i: usize = 0;
    while i < airplanes.len()
        invariant
            i <= airplanes@.len(),
            airplanes@.len() == old(airplanes)@.len(),
            forall|k: int| 0 <= k < i ==> followed(old(airplanes)@[k], #[trigger] airplanes@[k], delta_ms),
            forall|k: int| i <= k < airplanes@.len() ==> #[trigger] airplanes@[k] == old(airplanes)@[k],
        decreases airplanes@.len() - i,
    {
        follow_waypoint(&mut airplanes[i], delta_ms);
        i = i + 1;
    }
}

pub open spec fn in_flight(a: Airplane) -> bool {
    a.flight_plan@.len() > 0
}

pub open spec fn has_arrived(a: Airplane) -> bool {
    a.flight_plan@.len() == 0
}

pub open spec fn id_of(a: Airplane) -> AirplaneId {
    a.id
}

/// Removes every airplane whose flight plan is empty, keeping the order of
/// the rest, and returns the ids removed, in order.
pub fn despawn_airplane(airplanes: &mut Vec<Airplane>) -> (removed: Vec<AirplaneId>)
    ensures
        final(airplanes)@ == old(airplanes)@.filter(|a: Airplane| in_flight(a)),
        removed@ == old(airplanes)@.filter(|a: Airplane| has_arrived(a)).map_values(|a: Airplane| id_of(a)),
{
    let ghost orig = airplanes@;
    let mut removed: Vec<AirplaneId> = Vec::new();
    let mut i: usize = 0;
    let ghost mut j: int = 0;
    assert(orig.subrange(0, 0) =~= Seq::<Airplane>::empty());
    assert(orig.subrange(0, 0).filter(|a: Airplane| in_flight(a)) =~= Seq::<Airplane>::empty()) by {
        reveal(Seq::filter);
    }
    assert(orig.subrange(0, 0).filter(|a: Airplane| has_arrived(a)) =~= Seq::<Airplane>::empty()) by {
        reveal(Seq::filter);
    }
    while i < airplanes.len()
        invariant
            0 <= i <= airplanes@.len(),
            0 <= j <= orig.len(),
            airplanes@.subrange(0, i as int) == orig.subrange(0, j).filter(|a: Airplane| in_flight(a)),
            airplanes@.subrange(i as int, airplanes@.len() as int) == orig.subrange(j, orig.len() as int),
            removed@ == orig.subrange(0, j).filter(|a: Airplane| has_arrived(a)).map_values(|a: Airplane| id_of(a)),
        decreases airplanes@.len() - i,
    {
        let ghost before = airplanes@;
        assert(before.subrange(i as int, before.len() as int).len() == before.len() - i);
        assert(j < orig.len());
        assert(before[i as int] == orig[j]) by {
            assert(orig.subrange(j, orig.len() as int).len() == before.len() - i);
            assert(before.subrange(i as int, before.len() as int)[0] == orig.subrange(j, orig.len() as int)[0]);
        }
        assert(orig.subrange(0, j + 1) =~= orig.subrange(0, j).push(orig[j]));
        proof {
            orig.subrange(0, j).lemma_filter_push(orig[j], |a: Airplane| in_flight(a));
            orig.subrange(0, j).lemma_filter_push(orig[j], |a: Airplane| has_arrived(a));
        }
        let arrived = airplanes[i].flight_plan.is_empty();
        assert(arrived == has_arrived(orig[j]));
        if arrived {
            let a = airplanes.remove(i);
            let ghost prev = removed@;
            removed.push(a.id);
            assert(has_arrived(orig[j]));
            assert(removed@ =~= orig.subrange(0, j + 1).filter(|a: Airplane| has_arrived(a)).map_values(|a: Airplane| id_of(a))) by {
                assert(orig.subrange(0, j + 1).filter(|a: Airplane| has_arrived(a)) == orig.subrange(0, j).filter(|a: Airplane| has_arrived(a)).push(orig[j]));
            }
            assert(airplanes@.subrange(0, i as int) =~= before.subrange(0, i as int));
            assert(airplanes@.subrange(i as int, airplanes@.len() as int) =~= before.subrange(i + 1, before.len() as int));
            assert(orig.subrange(j + 1, orig.len() as int) =~= orig.subrange(j, orig.len() as int).subrange(1, orig.len() - j));
            assert(before.subrange(i + 1, before.len() as int) =~= before.subrange(i as int, before.len() as int).subrange(1, before.len() - i));
            proof { j = j + 1; }
        } else {
            assert(in_flight(orig[j]));
            assert(airplanes@.subrange(0, i + 1) =~= before.subrange(0, i as int).push(before[i as int]));
            assert(orig.subrange(j + 1, orig.len() as int) =~= orig.subrange(j, orig.len() as int).subrange(1, orig.len() - j));
            assert(before.subrange(i + 1, before.len() as int) =~= before.subrange(i as int, before.len() as int).subrange(1, before.len() - i));
            i = i + 1;
            proof { j = j + 1; }
        }
    }
    assert(airplanes@ =~= airplanes@.subrange(0, i as int));
    assert(orig.subrange(j, orig.len() as int).len() == 0);
    assert(orig.subrange(0, j) =~= orig);
    removed
}

} // verus!
