use atc_game::event::{Event, EventBus};
use atc_game::map::Grid;
use atc_game::state::running::{GameStateRunningPlugin, SPAWN_PERIOD_MS};

#[test]
fn running_phase_spawns_moves_and_despawns() {
    let plugin = GameStateRunningPlugin::new(Grid::new(-2, 2, -2, 2).unwrap(), 1000);
    let mut bus = EventBus::new();
    let rx = bus.subscribe();
    let (mut state, sent) = plugin.on_enter(&mut bus);
    assert!(sent.is_ok());
    assert!(matches!(bus.recv(&rx), Some(Event::GameStarted)));
    let mut spawned = Vec::new();
    let mut despawned = Vec::new();
    for _ in 0..12 {
        let out = plugin.on_update(&mut state, 1000, &mut bus);
        if let Some(id) = out.spawned.unwrap() {
            spawned.push(id);
        }
        despawned.extend(out.despawned);
    }
    assert_eq!(spawned.len(), 12);
    for w in spawned.windows(2) {
        assert!(w[0].0 < w[1].0);
    }
    assert!(!despawned.is_empty());
    for (i, a) in despawned.iter().enumerate() {
        assert!(!despawned[i + 1..].contains(a));
    }
    for a in &state.airplanes {
        assert!(!despawned.contains(&a.id));
    }
    let mut detected = 0;
    while let Some(ev) = bus.recv(&rx) {
        assert!(matches!(ev, Event::AirplaneDetected(..)));
        detected += 1;
    }
    assert_eq!(detected, 12);
    let left = plugin.on_exit(state);
    assert_eq!(left.len() + despawned.len(), 12);
}

#[test]
fn default_spawn_period_is_one_second() {
    let plugin = GameStateRunningPlugin::for_grid(Grid::new(-10, 10, -10, 10).unwrap());
    assert_eq!(SPAWN_PERIOD_MS, 1000);
    assert_eq!(plugin.spawn_period_ms, 1000);
}

#[test]
fn running_phase_start_without_receiver_reports_error() {
    let plugin = GameStateRunningPlugin::new(Grid::new(-2, 2, -2, 2).unwrap(), 500);
    let mut bus = EventBus::new();
    let (state, sent) = plugin.on_enter(&mut bus);
    assert!(sent.is_err());
    assert!(state.airplanes.is_empty());
}

#[test]
fn airplane_is_not_despawned_in_its_spawn_tick() {
    let plugin = GameStateRunningPlugin::new(Grid::new(0, 0, 0, 0).unwrap(), 1000);
    let mut bus = EventBus::new();
    let _rx = bus.subscribe();
    let (mut state, _) = plugin.on_enter(&mut bus);
    let first = plugin.on_update(&mut state, 1000, &mut bus);
    let id = first.spawned.unwrap().unwrap();
    assert!(first.despawned.is_empty());
    assert_eq!(state.airplanes.len(), 1);
    assert_eq!(state.airplanes[0].id, id);
    assert_eq!(state.airplanes[0].flight_plan.len(), 1);
    let second = plugin.on_update(&mut state, 1000, &mut bus);
    assert_eq!(second.despawned, vec![id]);
    let new_id = second.spawned.unwrap().unwrap();
    assert!(new_id.0 > id.0);
    assert_eq!(state.airplanes.len(), 1);
    assert_eq!(state.airplanes[0].id, new_id);
}
