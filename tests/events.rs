use atc_game::components::{AirplaneId, FlightPlan, Location};
use atc_game::event::{Event, EventBus};
use atc_game::map::Tile;

#[test]
fn send_without_receiver_fails() {
    let mut bus = EventBus::new();
    assert!(!bus.is_open());
    let err = bus.send(Event::GameStarted).unwrap_err();
    assert!(matches!(err.0, Event::GameStarted));
}

#[test]
fn receivers_read_in_order_from_subscription() {
    let mut bus = EventBus::new();
    let early = bus.subscribe();
    assert!(bus.send(Event::GameStarted).is_ok());
    let late = bus.subscribe();
    let plan = FlightPlan::new(vec![Tile::new(1, 0), Tile::new(0, 0)]);
    assert!(bus.send(Event::AirplaneDetected(AirplaneId(7), Location { x: 1, y: 0 }, plan)).is_ok());
    assert!(matches!(bus.recv(&early), Some(Event::GameStarted)));
    match bus.recv(&early) {
        Some(Event::AirplaneDetected(id, loc, plan)) => {
            assert_eq!(id, AirplaneId(7));
            assert_eq!(loc, Location { x: 1, y: 0 });
            assert_eq!(plan.0, vec![Tile::new(1, 0), Tile::new(0, 0)]);
        }
        other => panic!("unexpected event {:?}", other),
    }
    assert!(bus.recv(&early).is_none());
    assert!(matches!(bus.recv(&late), Some(Event::AirplaneDetected(..))));
    assert!(bus.recv(&late).is_none());
}

#[test]
fn unsubscribing_the_last_receiver_closes_delivery() {
    let mut bus = EventBus::new();
    let a = bus.subscribe();
    let b = bus.subscribe();
    assert!(bus.send(Event::GameStarted).is_ok());
    bus.unsubscribe(a);
    assert!(bus.is_open());
    assert!(bus.send(Event::GameStarted).is_ok());
    assert!(bus.recv(&b).is_some());
    assert!(bus.recv(&b).is_some());
    assert!(bus.recv(&b).is_none());
    bus.unsubscribe(b);
    assert!(!bus.is_open());
    assert!(bus.send(Event::GameStarted).is_err());
}

#[test]
fn send_after_shut_down_fails() {
    let mut bus = EventBus::new();
    let rx = bus.subscribe();
    bus.shut_down();
    assert!(!bus.is_open());
    assert!(bus.send(Event::GameStarted).is_err());
    assert!(bus.recv(&rx).is_none());
}
