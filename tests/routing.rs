use atc_game::map::{route_between, Edge, Grid, Tile};

fn manhattan(a: &Tile, b: &Tile) -> i64 {
    (a.x as i64 - b.x as i64).abs() + (a.y as i64 - b.y as i64).abs()
}

#[test]
fn route_from_top_edge_to_airport() {
    let spawn = Tile::new(5, 10);
    let airport = Tile::new(0, 0);
    let route = route_between(&spawn, &airport);
    assert_eq!(route.len() - 1, 15);
    assert_eq!(route[0], spawn);
    assert_eq!(*route.last().unwrap(), airport);
    assert_eq!(route[1], Tile::new(5, 9));
    for w in route.windows(2) {
        assert_eq!(manhattan(&w[0], &w[1]), 1);
    }
    for (i, t) in route.iter().enumerate() {
        assert_eq!(manhattan(t, &airport), 15 - i as i64);
    }
}

#[test]
fn route_between_equal_tiles_is_the_tile() {
    let t = Tile::new(3, -4);
    assert_eq!(route_between(&t, &t), vec![t]);
}

#[test]
fn route_along_one_axis() {
    let route = route_between(&Tile::new(3, 0), &Tile::new(0, 0));
    assert_eq!(route, vec![Tile::new(3, 0), Tile::new(2, 0), Tile::new(1, 0), Tile::new(0, 0)]);
}

#[test]
fn route_breaks_ties_vertically() {
    let route = route_between(&Tile::new(1, 1), &Tile::new(0, 0));
    assert_eq!(route, vec![Tile::new(1, 1), Tile::new(1, 0), Tile::new(0, 0)]);
}

#[test]
fn route_prefers_the_larger_delta() {
    let route = route_between(&Tile::new(-3, 1), &Tile::new(0, 0));
    assert_eq!(route, vec![Tile::new(-3, 1), Tile::new(-2, 1), Tile::new(-1, 1), Tile::new(-1, 0), Tile::new(0, 0)]);
}

#[test]
fn route_is_deterministic() {
    for (a, b) in [((7, -2), (0, 0)), ((-10, 10), (3, 3)), ((0, 0), (-4, 9))] {
        let o = Tile::new(a.0, a.1);
        let d = Tile::new(b.0, b.1);
        let first = route_between(&o, &d);
        let second = route_between(&o, &d);
        assert_eq!(first, second);
        assert_eq!(first.len() as i64 - 1, manhattan(&o, &d));
        assert_eq!(first[0], o);
    }
}

#[test]
fn route_at_the_coordinate_limits() {
    let o = Tile::new(i32::MAX, i32::MIN);
    let d = Tile::new(i32::MAX - 2, i32::MIN + 1);
    let route = route_between(&o, &d);
    assert_eq!(route.len(), 4);
    assert_eq!(route[0], o);
    assert_eq!(*route.last().unwrap(), d);
}

#[test]
fn grid_rejects_empty_ranges() {
    assert!(Grid::new(1, 0, -5, 5).is_none());
    assert!(Grid::new(-5, 5, 3, 2).is_none());
    assert!(Grid::new(0, 0, 0, 0).is_some());
}

#[test]
fn grid_membership_and_edges() {
    let g = Grid::new(-10, 10, -10, 10).unwrap();
    assert!(g.contains(&Tile::new(10, -10)));
    assert!(!g.contains(&Tile::new(11, 0)));
    assert!(!g.contains(&Tile::new(0, -11)));
    assert_eq!(g.range_along(Edge::Top), (-10, 10));
    assert_eq!(g.edge_tile_at(Edge::Top, 5), Tile::new(5, 10));
    assert_eq!(g.edge_tile_at(Edge::Right, -3), Tile::new(10, -3));
    assert_eq!(g.edge_tile_at(Edge::Bottom, 2), Tile::new(2, -10));
    assert_eq!(g.edge_tile_at(Edge::Left, 7), Tile::new(-10, 7));
}
