use birdflop_tunnel::client::Route;
use birdflop_tunnel::config::{
    load_routes, pair_identity, port_range, startup_lines, tunnels_or, ConfigError, RouteConfig,
};
use birdflop_tunnel::limits::IpAddr;

fn parts(route: &Route) -> (Option<&str>, u16, &str, u16) {
    (route.label.as_deref(), route.public_port, &route.local_host, route.local_port)
}

#[test]
fn routes_of_a_file() {
    let entries = vec![
        RouteConfig { label: None, local_host: None, local_port: 25565, public_port: None },
        RouteConfig {
            label: Some("creative".to_string()),
            local_host: Some("10.0.0.2".to_string()),
            local_port: 1,
            public_port: Some(25566),
        },
    ];
    let routes = load_routes(Some(entries), Some(9), "ignored".to_string(), 2, None).unwrap();
    assert_eq!(routes.len(), 2);
    assert_eq!(parts(&routes[0]), (None, 25565, "localhost", 25565));
    assert_eq!(parts(&routes[1]), (Some("creative"), 25566, "10.0.0.2", 1));
}

#[test]
fn route_of_the_command_line() {
    let label = Some("lobby".to_string());
    let routes = load_routes(None, Some(9), "host".to_string(), 25570, label).unwrap();
    assert_eq!(routes.len(), 1);
    assert_eq!(parts(&routes[0]), (Some("lobby"), 25570, "host", 9));
}

#[test]
fn command_lines_that_cannot_be_followed() {
    let error = load_routes(Some(Vec::new()), Some(9), String::new(), 2, None).unwrap_err();
    assert_eq!(error, ConfigError::NoRoutes);
    assert_eq!(error.message(), "config has no routes");
    let error = load_routes(None, None, String::new(), 2, None).unwrap_err();
    assert_eq!(error, ConfigError::NoLocalPort);
    assert_eq!(error.message(), "a local_port is required unless --config is given");
    let error = pair_identity(Some("a".to_string()), None).unwrap_err();
    assert_eq!(error, ConfigError::HalfIdentity);
    assert_eq!(error.message(), "--subdomain and --token must be provided together");
    assert!(pair_identity(None, Some("b".to_string())).is_err());
    assert_eq!(pair_identity(None, None).unwrap(), None);
    assert_eq!(
        pair_identity(Some("a".to_string()), Some("b".to_string())).unwrap(),
        Some(("a".to_string(), "b".to_string()))
    );
    let error = port_range(5000, 3000).unwrap_err();
    assert_eq!(error, ConfigError::EmptyRange);
    assert_eq!(error.message(), "port range is empty");
    assert_eq!(port_range(1024, 65535).unwrap(), 1024..=65535);
    assert_eq!(port_range(7, 7).unwrap(), 7..=7);
}

#[test]
fn listeners_bind_where_told() {
    assert_eq!(tunnels_or(None, IpAddr::V4(1)), IpAddr::V4(1));
    assert_eq!(tunnels_or(Some(IpAddr::V6(2)), IpAddr::V4(1)), IpAddr::V6(2));
}

#[test]
fn lines_printed_at_startup() {
    let identity = ("a3k9zq".to_string(), "secret".to_string());
    let addresses = vec![
        "a3k9zq.tunnel.birdflop.com".to_string(),
        "a3k9zq.tunnel.birdflop.com:25566".to_string(),
    ];
    assert_eq!(
        startup_lines(Some(&identity), &addresses),
        vec![
            "BFTUNNEL_IDENTITY subdomain=a3k9zq token=secret",
            "BFTUNNEL_ADDRESS a3k9zq.tunnel.birdflop.com",
            "BFTUNNEL_ADDRESS a3k9zq.tunnel.birdflop.com:25566",
        ]
    );
    assert_eq!(
        startup_lines(None, &addresses[..1]),
        vec!["BFTUNNEL_ADDRESS a3k9zq.tunnel.birdflop.com"]
    );
}
