use birdflop_tunnel::metrics::{answer_scrape, Metrics};

#[test]
fn renders_every_metric() {
    let mut m = Metrics::default();
    m.registration_issued();
    m.registration_issued();
    m.registration_rate_limited();
    m.registration_at_capacity();
    m.auth_failed();
    m.player_connected();
    m.handshake_failed();
    m.unknown_host();
    m.pending_full();
    m.stale_connection();
    m.add_bytes(1234567890);
    let guard = m.connection_guard();
    let text = m.render(3, 4, 5, 6);
    assert!(text.starts_with(
        "# HELP bftunnel_registrations_total Identities successfully issued.\n\
         # TYPE bftunnel_registrations_total counter\n\
         bftunnel_registrations_total 2\n\
         # HELP bftunnel_registrations_rate_limited_total Registrations refused by the per-IP rate limiter.\n"
    ));
    for line in [
        "bftunnel_registrations_rate_limited_total 1",
        "bftunnel_registrations_capacity_total 1",
        "bftunnel_auth_failures_total 1",
        "bftunnel_player_connections_total 1",
        "bftunnel_handshake_failures_total 1",
        "bftunnel_unknown_host_total 1",
        "bftunnel_pending_full_total 1",
        "bftunnel_stale_connections_total 1",
        "bftunnel_bytes_proxied_total 1234567890",
        "bftunnel_active_connections 1",
        "bftunnel_active_identities 3",
        "bftunnel_pending_connections 4",
        "bftunnel_open_ports 5",
    ] {
        assert!(text.contains(&format!("\n{line}\n")), "missing {line}");
    }
    assert!(text.ends_with(
        "# HELP bftunnel_active_tunnels Routes currently registered across all ports.\n\
         # TYPE bftunnel_active_tunnels gauge\n\
         bftunnel_active_tunnels 6\n"
    ));
    guard.drop(&mut m);
    assert!(m.render(0, 0, 0, 0).contains("\nbftunnel_active_connections 0\n"));
}

#[test]
fn counters_wrap_around() {
    let mut m = Metrics::default();
    m.add_bytes(u64::MAX);
    m.add_bytes(2);
    assert!(m.render(0, 0, 0, 0).contains("\nbftunnel_bytes_proxied_total 1\n"));
}

#[test]
fn scrapes_get_a_response() {
    let request = b"GET /metrics HTTP/1.1\r\nHost: localhost\r\nConnection: close\r\n\r\n";
    assert_eq!(
        answer_scrape(request, "up 1\n"),
        "HTTP/1.1 200 OK\r\nContent-Type: text/plain; version=0.0.4\r\n\
         Connection: close\r\nContent-Length: 5\r\n\r\nup 1\n"
    );
    assert!(answer_scrape(b"GET / HTTP/1.1\r\n\r\n", "up 1\n").starts_with("HTTP/1.1 404 "));
    assert!(answer_scrape(b"GET", "up 1\n").starts_with("HTTP/1.1 404 "));
    assert!(answer_scrape(b"GET /metrics2 HTTP/1.1\r\n\r\n", "").starts_with("HTTP/1.1 404 "));
}

#[test]
fn counters_count_their_own_calls() {
    let mut m = Metrics::default();
    let first = m.connection_guard();
    for n in 0..7 {
        m.unknown_host();
        if n % 2 == 0 {
            m.pending_full();
        }
        m.add_bytes(n);
        let _ = m.render(0, 0, 0, 0);
    }
    let second = m.connection_guard();
    first.drop(&mut m);
    m.auth_failed();
    let text = m.render(0, 0, 0, 0);
    for line in [
        "bftunnel_unknown_host_total 7",
        "bftunnel_pending_full_total 4",
        "bftunnel_auth_failures_total 1",
        "bftunnel_bytes_proxied_total 21",
        "bftunnel_active_connections 1",
        "bftunnel_stale_connections_total 0",
    ] {
        assert!(text.contains(&format!("\n{line}\n")), "missing {line}");
    }
    second.drop(&mut m);
    assert!(m.render(0, 0, 0, 0).contains("\nbftunnel_active_connections 0\n"));
}
