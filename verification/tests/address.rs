use birdflop_tunnel::address::{address_host, public_address, route_hostname};

#[test]
fn hostnames_and_addresses() {
    let base = "tunnel.birdflop.com";
    let plain = route_hostname(&None, "a3k9zq", base);
    assert_eq!(plain, "a3k9zq.tunnel.birdflop.com");
    let labelled = route_hostname(&Some("survival".to_string()), "a3k9zq", base);
    assert_eq!(labelled, "survival.a3k9zq.tunnel.birdflop.com");
    assert_eq!(public_address(&plain, 25565), "a3k9zq.tunnel.birdflop.com");
    assert_eq!(public_address(&plain, 25566), "a3k9zq.tunnel.birdflop.com:25566");
    assert_eq!(
        public_address(&labelled, 25566),
        "survival.a3k9zq.tunnel.birdflop.com:25566"
    );
}

#[test]
fn addresses_name_their_host() {
    assert_eq!(address_host("a.b:25566"), "a.b");
    assert_eq!(address_host("a.b"), "a.b");
    assert_eq!(address_host(":1"), "");
    assert_eq!(address_host("a:b:c"), "a");
    assert_eq!(address_host(&public_address("x.y", 9)), "x.y");
}

#[test]
fn users_have_their_own_hostnames() {
    let base = "tunnel.test";
    let label = Some("aaaaaa".to_string());
    assert_ne!(route_hostname(&label, "bbbbbb", base), route_hostname(&None, "aaaaaa", base));
    assert_ne!(route_hostname(&label, "bbbbbb", base), route_hostname(&None, "bbbbbb", base));
}
