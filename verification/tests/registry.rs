use birdflop_tunnel::registry::Registry;

fn route(hostname: &str, port: u16) -> (String, u16) {
    (hostname.to_string(), port)
}

#[test]
fn routes_are_claimed_together() {
    let mut registry = Registry::new();
    assert!(!registry.is_open(25565));
    registry.open(25565);
    registry.open(25566);
    assert!(registry.is_open(25565));
    assert_eq!(registry.open_ports(), 2);

    let first = vec![route("a.t", 25565), route("a.t", 25566)];
    let session = registry.claim("a".to_string(), &first).unwrap();
    assert_eq!(registry.active_tunnels(), 2);
    assert_eq!(registry.owner(&route("a.t", 25565)), Some(session));
    assert_eq!(registry.owner(&route("a.t", 25566)), Some(session));
    assert_eq!(registry.owner(&route("b.t", 25565)), None);

    // One taken route, or one asked for twice, refuses all of them.
    let taken = vec![route("b.t", 25565), route("a.t", 25566)];
    assert_eq!(registry.claim("b".to_string(), &taken), None);
    let twice = vec![route("b.t", 25565), route("b.t", 25565)];
    assert_eq!(registry.claim("b".to_string(), &twice), None);
    assert_eq!(registry.owner(&route("b.t", 25565)), None);

    let other = registry.claim("b".to_string(), &vec![route("b.t", 25565)]).unwrap();
    assert_ne!(other, session);
    assert_eq!(registry.active_tunnels(), 3);

    // Ending one session takes no route from another, and frees its own.
    registry.release(session);
    assert_eq!(registry.owner(&route("a.t", 25565)), None);
    assert_eq!(registry.owner(&route("b.t", 25565)), Some(other));
    assert_eq!(registry.active_tunnels(), 1);
    registry.release(session);
    assert_eq!(registry.active_tunnels(), 1);
    assert!(registry.claim("c".to_string(), &first).is_some());
    assert!(!registry.is_full());
}

#[test]
fn identities_hold_routes() {
    let mut registry = Registry::new();
    registry.open(2000);
    let a = "a".to_string();
    assert!(!registry.over_limit(&a, 3, 3));
    assert!(registry.over_limit(&a, 4, 3));
    let routes = vec![route("x.a.t", 2000), route("y.a.t", 2000)];
    let session = registry.claim(a.clone(), &routes).unwrap();
    assert!(!registry.over_limit(&a, 1, 3));
    assert!(registry.over_limit(&a, 2, 3));
    assert!(!registry.over_limit(&"b".to_string(), 3, 3));
    registry.release(session);
    assert!(!registry.over_limit(&a, 3, 3));
}
