use atc_game::components::{AirplaneId, AirplaneIdGenerator, FlightPlan, Location, Point};
use atc_game::map::Tile;

#[test]
fn ids_strictly_increase() {
    let mut g = AirplaneIdGenerator::new();
    let a = g.generate().unwrap();
    let b = g.generate().unwrap();
    let c = g.generate().unwrap();
    assert_eq!(a, AirplaneId(1));
    assert_eq!(b, AirplaneId(2));
    assert_eq!(c, AirplaneId(3));
    assert!(a.0 < b.0 && b.0 < c.0);
}

#[test]
fn location_from_tile() {
    assert_eq!(Location::from(Tile::new(5, 10)), Location { x: 5, y: 10 });
}

#[test]
fn tile_as_point() {
    assert_eq!(Tile::new(-2, 3).as_point(), Point { x: -64, y: 96 });
}

#[test]
fn flight_plan_pops_front_to_back() {
    let mut plan = FlightPlan::new(vec![Tile::new(1, 0), Tile::new(0, 0)]);
    assert_eq!(plan.len(), 2);
    assert_eq!(plan.next(), Some(Tile::new(1, 0)));
    plan.pop_next();
    assert_eq!(plan.next(), Some(Tile::new(0, 0)));
    let copy = plan.duplicate();
    assert_eq!(copy.0, vec![Tile::new(0, 0)]);
    plan.pop_next();
    assert!(plan.is_empty());
    assert_eq!(plan.next(), None);
    plan.pop_next();
    assert!(plan.is_empty());
}
