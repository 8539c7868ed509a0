use atc_game::components::{AirplaneId, AirplaneIdGenerator, Point, Speed};
use atc_game::event::{Event, EventBus};
use atc_game::map::{Edge, Grid, Tile};
use atc_game::systems::spawn_airplane::{
    pick_edge, random_spawn, spawn_airplane, spawn_at, spawn_tile, SpawnTimer, AIRPLANE_SPEED,
};

fn grid() -> Grid {
    Grid::new(-10, 10, -10, 10).unwrap()
}

#[test]
fn timer_fires_once_over_three_short_ticks() {
    let mut timer = SpawnTimer::new(1000);
    let fired: Vec<bool> = [400u64, 400, 400].iter().map(|d| timer.tick(*d)).collect();
    assert_eq!(fired, vec![false, false, true]);
    assert!(!timer.tick(400));
    assert!(timer.tick(400));
}

#[test]
fn timer_fires_on_the_exact_period() {
    let mut timer = SpawnTimer::new(1000);
    assert!(timer.tick(1000));
    assert!(!timer.tick(999));
    assert!(timer.tick(1));
}

#[test]
fn edge_choices_cover_all_four_edges() {
    assert_eq!(pick_edge(0), Edge::Top);
    assert_eq!(pick_edge(1), Edge::Right);
    assert_eq!(pick_edge(2), Edge::Bottom);
    assert_eq!(pick_edge(3), Edge::Left);
    let g = grid();
    assert_eq!(spawn_tile(&g, 0, 5), Tile::new(5, 10));
    assert_eq!(spawn_tile(&g, 1, 5), Tile::new(10, 5));
    assert_eq!(spawn_tile(&g, 2, 5), Tile::new(5, -10));
    assert_eq!(spawn_tile(&g, 3, 5), Tile::new(-10, 5));
}

#[test]
fn random_spawns_stay_on_the_border() {
    let g = grid();
    let mut seen = [false; 4];
    for _ in 0..400 {
        let t = random_spawn(&g);
        assert!(g.contains(&t));
        let on_top = t.y == 10;
        let on_right = t.x == 10;
        let on_bottom = t.y == -10;
        let on_left = t.x == -10;
        assert!(on_top || on_right || on_bottom || on_left);
        if on_top { seen[0] = true; }
        if on_right { seen[1] = true; }
        if on_bottom { seen[2] = true; }
        if on_left { seen[3] = true; }
    }
    assert_eq!(seen, [true; 4]);
}

#[test]
fn spawn_on_top_edge_publishes_detection() {
    let mut ids = AirplaneIdGenerator::new();
    let mut planes = Vec::new();
    let mut bus = EventBus::new();
    let rx = bus.subscribe();
    let r = spawn_at(Tile::new(5, 10), &mut ids, &mut planes, &mut bus);
    assert_eq!(r.unwrap(), Some(AirplaneId(1)));
    assert_eq!(planes.len(), 1);
    let a = &planes[0];
    assert_eq!(a.id, AirplaneId(1));
    assert_eq!(a.position, Point { x: 160, y: 320 });
    assert_eq!(a.speed, Speed(AIRPLANE_SPEED));
    assert_eq!(a.carry, 0);
    assert_eq!(a.flight_plan.len(), 16);
    assert_eq!(a.flight_plan.0[0], Tile::new(5, 10));
    assert_eq!(*a.flight_plan.0.last().unwrap(), Tile::new(0, 0));
    match bus.recv(&rx) {
        Some(Event::AirplaneDetected(id, loc, plan)) => {
            assert_eq!(id, AirplaneId(1));
            assert_eq!((loc.x, loc.y), (5, 10));
            assert_eq!(plan.0, a.flight_plan.0);
        }
        other => panic!("unexpected event {:?}", other),
    }
    assert!(bus.recv(&rx).is_none());
}

#[test]
fn spawn_without_receiver_keeps_airplane_and_returns_event() {
    let mut ids = AirplaneIdGenerator::new();
    let mut planes = Vec::new();
    let mut bus = EventBus::new();
    let err = spawn_at(Tile::new(-10, 0), &mut ids, &mut planes, &mut bus).unwrap_err();
    assert_eq!(planes.len(), 1);
    match err.0 {
        Event::AirplaneDetected(id, loc, plan) => {
            assert_eq!(id, AirplaneId(1));
            assert_eq!((loc.x, loc.y), (-10, 0));
            assert_eq!(plan.len(), 11);
        }
        other => panic!("unexpected event {:?}", other),
    }
}

#[test]
fn spawn_scheduler_spawns_once_per_firing() {
    let g = grid();
    let mut timer = SpawnTimer::new(1000);
    let mut ids = AirplaneIdGenerator::new();
    let mut planes = Vec::new();
    let mut bus = EventBus::new();
    let _rx = bus.subscribe();
    let mut spawned = Vec::new();
    for _ in 0..3 {
        let r = spawn_airplane(&mut timer, 400, &g, &mut ids, &mut planes, &mut bus).unwrap();
        spawned.push(r);
    }
    assert_eq!(spawned, vec![None, None, Some(AirplaneId(1))]);
    assert_eq!(planes.len(), 1);
    let t = Tile::new((planes[0].position.x / 32) as i32, (planes[0].position.y / 32) as i32);
    assert!(g.contains(&t));
    assert!(t.x.abs() == 10 || t.y.abs() == 10);
}
