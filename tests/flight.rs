use atc_game::components::{Airplane, AirplaneId, FlightPlan, Point, Speed};
use atc_game::map::Tile;
use atc_game::systems::flight::{despawn_airplane, follow_flight_plan, follow_waypoint};

fn airplane(id: u64, at: Point, plan: Vec<Tile>) -> Airplane {
    Airplane { id: AirplaneId(id), position: at, flight_plan: FlightPlan::new(plan), speed: Speed(32), carry: 0 }
}

#[test]
fn follow_moves_by_speed_times_time() {
    let mut a = airplane(1, Point { x: 0, y: 32 }, vec![Tile::new(0, 1), Tile::new(0, 0)]);
    follow_waypoint(&mut a, 500);
    assert_eq!(a.position, Point { x: 0, y: 16 });
    assert_eq!(a.flight_plan.len(), 1);
    follow_waypoint(&mut a, 2000);
    assert_eq!(a.position, Point { x: 0, y: 0 });
    assert!(a.flight_plan.is_empty());
}

#[test]
fn follow_carries_the_remainder() {
    let mut a = airplane(1, Point { x: 32, y: 0 }, vec![Tile::new(1, 0), Tile::new(0, 0)]);
    follow_waypoint(&mut a, 31);
    assert_eq!(a.position, Point { x: 32, y: 0 });
    assert_eq!(a.carry, 992);
    follow_waypoint(&mut a, 969);
    assert_eq!(a.position, Point { x: 0, y: 0 });
    assert_eq!(a.carry, 0);
    assert!(a.flight_plan.is_empty());
}

#[test]
fn short_ticks_still_move() {
    let mut a = airplane(1, Point { x: 32, y: 0 }, vec![Tile::new(0, 0)]);
    for _ in 0..62 {
        follow_waypoint(&mut a, 16);
    }
    assert_eq!(a.position, Point { x: 32 - 31, y: 0 });
    follow_waypoint(&mut a, 16);
    follow_waypoint(&mut a, 16);
    assert_eq!(a.position, Point { x: 0, y: 0 });
    assert!(a.flight_plan.is_empty());
}

#[test]
fn follow_passes_several_waypoints_in_one_tick() {
    let mut a = airplane(1, Point { x: 96, y: 0 }, vec![Tile::new(3, 0), Tile::new(2, 0), Tile::new(1, 0), Tile::new(0, 0)]);
    follow_waypoint(&mut a, 2500);
    assert_eq!(a.position, Point { x: 16, y: 0 });
    assert_eq!(a.flight_plan.0, vec![Tile::new(0, 0)]);
}

#[test]
fn follow_without_plan_stays() {
    let mut a = airplane(1, Point { x: 5, y: 7 }, vec![]);
    follow_waypoint(&mut a, 1000);
    assert_eq!(a.position, Point { x: 5, y: 7 });
}

#[test]
fn airplane_arrives_and_is_removed_once() {
    let mut planes = vec![
        airplane(1, Point { x: 64, y: 0 }, vec![Tile::new(2, 0), Tile::new(1, 0), Tile::new(0, 0)]),
        airplane(2, Point { x: 0, y: 96 }, vec![Tile::new(0, 3), Tile::new(0, 2), Tile::new(0, 1), Tile::new(0, 0)]),
    ];
    let mut removed = Vec::new();
    for _ in 0..5 {
        follow_flight_plan(&mut planes, 1000);
        removed.extend(despawn_airplane(&mut planes));
    }
    assert_eq!(removed, vec![AirplaneId(1), AirplaneId(2)]);
    assert!(planes.is_empty());
}

#[test]
fn despawn_keeps_order_of_the_rest() {
    let mut planes = vec![
        airplane(1, Point { x: 0, y: 0 }, vec![]),
        airplane(2, Point { x: 0, y: 0 }, vec![Tile::new(0, 0)]),
        airplane(3, Point { x: 0, y: 0 }, vec![]),
        airplane(4, Point { x: 0, y: 0 }, vec![Tile::new(1, 0)]),
    ];
    let removed = despawn_airplane(&mut planes);
    assert_eq!(removed, vec![AirplaneId(1), AirplaneId(3)]);
    let left: Vec<AirplaneId> = planes.iter().map(|a| a.id).collect();
    assert_eq!(left, vec![AirplaneId(2), AirplaneId(4)]);
}
