use birdflop_tunnel::auth::Authenticator;
use birdflop_tunnel::identity::IdentityStore;
use birdflop_tunnel::limits::{IpAddr, SocketAddr};
use birdflop_tunnel::listen::{bind_error, ListenError};
use birdflop_tunnel::server::{
    read_handshake, session_step, BindStep, ControlStep, HandshakeError, HandshakeStep,
    PlayerStep, Server, SessionEvent,
};
use birdflop_tunnel::shared::{ClientMessage, RouteSpec, ServerMessage};

const BASE: &str = "tunnel.test";
const SOURCE: IpAddr = IpAddr::V4(0x7f00_0001);

fn server() -> Server {
    Server::new(1024..=65535, BASE.to_string(), IdentityStore::load(None))
}

/// A server that knows the identity `a3k9zq` with the token `secret`.
fn server_with_identity() -> Server {
    let mut store = IdentityStore::load(None);
    assert!(store.enroll(&"a3k9zq".to_string(), &"secret".to_string(), 0));
    Server::new(1024..=65535, BASE.to_string(), store)
}

fn error_of(step: ControlStep) -> String {
    match step {
        ControlStep::Refuse { reply: ServerMessage::Error(text) } => text,
        _ => panic!("not refused"),
    }
}

fn listen(routes: &[(u16, Option<&str>)]) -> Option<ClientMessage> {
    Some(ClientMessage::Listen {
        routes: routes
            .iter()
            .map(|(port, label)| RouteSpec { port: *port, label: label.map(str::to_string) })
            .collect(),
    })
}

/// Binds routes, opening ports as asked.
fn bind(
    server: &mut Server,
    subdomain: &str,
    routes: &[(u16, Option<&str>)],
) -> Result<(u64, Vec<String>), ListenError> {
    let subdomain = subdomain.to_string();
    let plan = server.serve_registered(&subdomain, &listen(routes))?;
    loop {
        match server.bind_routes(&subdomain, &plan) {
            BindStep::Open(port) => server.open_port(port),
            BindStep::Bound { session, reply: ServerMessage::Bound { addresses } } => {
                return Ok((session, addresses));
            }
            BindStep::Bound { .. } => panic!("wrong reply"),
            BindStep::Refuse(error) => return Err(error),
        }
    }
}

#[test]
fn registering_issues_an_identity() {
    let mut server = server();
    let (subdomain, token) = match server.handle_control(Some(ClientMessage::Register), SOURCE, 0) {
        ControlStep::Persist { subdomain, token } => (subdomain, token),
        _ => panic!("not issued"),
    };
    assert_eq!(server.identities().len(), 1);
    assert_eq!(server.identities()[0].0, subdomain);
    match server.finish_register(true, subdomain.clone(), token.clone()) {
        ControlStep::Serve {
            reply: ServerMessage::Issued { subdomain: s, token: t },
            subdomain: served,
        } => assert_eq!((s, t, served), (subdomain.clone(), token.clone(), subdomain.clone())),
        _ => panic!("not served"),
    }
    assert!(server.render_metrics().contains("\nbftunnel_registrations_total 1\n"));
    assert!(server.render_metrics().contains("\nbftunnel_active_identities 1\n"));
    assert_eq!(
        error_of(server.finish_register(false, subdomain, token)),
        "could not issue identity"
    );
    assert!(server.render_metrics().contains("\nbftunnel_registrations_total 1\n"));
}

#[test]
fn registrations_are_limited() {
    let mut relay = server();
    for _ in 0..5 {
        assert!(matches!(relay.register(SOURCE, 0), ControlStep::Persist { .. }));
    }
    assert_eq!(
        error_of(relay.register(SOURCE, 59_999)),
        "too many registrations, try again later"
    );
    assert!(matches!(relay.register(IpAddr::V4(9), 59_999), ControlStep::Persist { .. }));
    assert!(matches!(relay.register(SOURCE, 60_000), ControlStep::Persist { .. }));
    assert!(relay
        .render_metrics()
        .contains("\nbftunnel_registrations_rate_limited_total 1\n"));

    let mut relay = server();
    relay.set_register_rate(1, 10);
    relay.set_max_identities(2);
    assert!(matches!(relay.register(SOURCE, 0), ControlStep::Persist { .. }));
    assert!(matches!(relay.register(SOURCE, 10), ControlStep::Persist { .. }));
    assert_eq!(error_of(relay.register(SOURCE, 20)), "could not issue identity");
    assert!(relay
        .render_metrics()
        .contains("\nbftunnel_registrations_capacity_total 1\n"));
    assert_eq!(relay.identities().len(), 2);
}

#[test]
fn authentication_by_challenge() {
    let mut server = server_with_identity();
    let message = Some(ClientMessage::Authenticate("a3k9zq".to_string()));
    let (challenge, pending) = match server.handle_control(message, SOURCE, 0) {
        ControlStep::Challenge { reply: ServerMessage::Challenge(challenge), pending } => {
            (challenge, pending)
        }
        _ => panic!("not challenged"),
    };
    let answer = Authenticator::new("secret").answer(&challenge);
    match server.handle_answer(pending, Some(ClientMessage::Answer(answer))) {
        ControlStep::Serve { reply: ServerMessage::Authenticated, subdomain } => {
            assert_eq!(subdomain, "a3k9zq");
        }
        _ => panic!("not served"),
    }
    assert!(server.render_metrics().contains("\nbftunnel_auth_failures_total 0\n"));
}

#[test]
fn failed_authentications_are_refused() {
    let mut server = server_with_identity();
    let unknown = Some(ClientMessage::Authenticate("nobody".to_string()));
    assert_eq!(error_of(server.handle_control(unknown, SOURCE, 0)), "unknown subdomain");
    let challenge = [7; 16];
    let other = Authenticator::new("other").answer(&challenge);
    let wrong_challenge = Authenticator::new("secret").answer(&[8; 16]);
    for message in [
        Some(ClientMessage::Answer(other)),
        Some(ClientMessage::Answer(wrong_challenge)),
        Some(ClientMessage::Answer("no tag".to_string())),
        Some(ClientMessage::Register),
        None,
    ] {
        let pending = match server.begin_auth("a3k9zq".to_string(), challenge) {
            ControlStep::Challenge { pending, .. } => pending,
            _ => panic!("not challenged"),
        };
        assert_eq!(error_of(server.handle_answer(pending, message)), "invalid token");
    }
    assert!(server.render_metrics().contains("\nbftunnel_auth_failures_total 6\n"));
}

#[test]
fn other_first_messages_close() {
    let mut server = server();
    for message in [None, listen(&[(2000, None)]), Some(ClientMessage::Answer(String::new()))] {
        assert!(matches!(server.handle_control(message, SOURCE, 0), ControlStep::Close));
    }
    let accept = Some(ClientMessage::Accept([1; 16]));
    assert!(matches!(server.handle_control(accept, SOURCE, 0), ControlStep::Close));
}

#[test]
fn requests_for_routes_are_checked() {
    let mut server = Server::new(1024..=30000, BASE.to_string(), IdentityStore::load(None));
    let name = "a3k9zq".to_string();
    let refused = |server: &Server, message: Option<ClientMessage>| {
        server.serve_registered(&name, &message).unwrap_err()
    };
    let eleven: Vec<(u16, Option<&str>)> = (2000..2011).map(|port| (port, None)).collect();
    let expected = [
        (None, ListenError::NotListen, "expected a listen request"),
        (Some(ClientMessage::Register), ListenError::NotListen, "expected a listen request"),
        (listen(&[]), ListenError::NoRoutes, "at least one route is required"),
        (listen(&[(1000, None)]), ListenError::PortTooLow, "port must be above 1000"),
        (listen(&[(1023, None)]), ListenError::PortOutOfRange, "port not in allowed range"),
        (listen(&[(30001, None)]), ListenError::PortOutOfRange, "port not in allowed range"),
        (listen(&[(2000, Some("-bad"))]), ListenError::BadLabel, "invalid label"),
        (
            listen(&[(2000, None), (2001, Some("A")), (1, None)]),
            ListenError::BadLabel,
            "invalid label",
        ),
        (
            listen(&eleven),
            ListenError::TooManyRoutes,
            "too many tunnels for this identity",
        ),
        (listen(&[(2000, None); 11]), ListenError::InUse, "address already in use"),
    ];
    for (message, error, text) in expected {
        let got = refused(&server, message);
        assert_eq!(got, error);
        assert_eq!(got.message(), text);
    }
    let plan = server
        .serve_registered(&name, &listen(&[(1024, None), (30000, Some("x"))]))
        .unwrap();
    assert_eq!(
        plan,
        vec![
            ("a3k9zq.tunnel.test".to_string(), 1024),
            ("x.a3k9zq.tunnel.test".to_string(), 30000),
        ]
    );
    server.set_max_per_identity(1);
    let message = listen(&[(1024, None), (30000, Some("x"))]);
    assert_eq!(refused(&server, message), ListenError::TooManyRoutes);
    assert_eq!(ListenError::OutOfSessions.message(), "too many sessions");
    assert_eq!(bind_error(2000, "denied"), "failed to bind port 2000: denied");
}

#[test]
fn routes_are_bound_and_freed() {
    let mut server = server();
    let name = "a3k9zq".to_string();
    let plan = server.serve_registered(&name, &listen(&[(25565, None), (2000, None)])).unwrap();
    assert!(matches!(server.bind_routes(&name, &plan), BindStep::Open(25565)));
    assert!(!server.port_is_open(25565));
    server.open_port(25565);
    assert!(server.port_is_open(25565));
    assert!(matches!(server.bind_routes(&name, &plan), BindStep::Open(2000)));
    server.open_port(2000);
    let (session, addresses) = bind(&mut server, "a3k9zq", &[(25565, None), (2000, None)]).unwrap();
    assert_eq!(addresses, vec!["a3k9zq.tunnel.test", "a3k9zq.tunnel.test:2000"]);

    // Taken by the same identity, free for another on the same port.
    let error = bind(&mut server, "a3k9zq", &[(2000, None)]).unwrap_err();
    assert_eq!(error, ListenError::InUse);
    assert_eq!(error.message(), "address already in use");
    let (other, addresses) = bind(&mut server, "bbbbbb", &[(2000, None)]).unwrap();
    assert_eq!(addresses, vec!["bbbbbb.tunnel.test:2000"]);
    assert!(server.render_metrics().contains("\nbftunnel_active_tunnels 3\n"));
    assert!(server.render_metrics().contains("\nbftunnel_open_ports 2\n"));

    server.end_session(session);
    assert!(server.render_metrics().contains("\nbftunnel_active_tunnels 1\n"));
    assert_ne!(bind(&mut server, "a3k9zq", &[(2000, None)]).unwrap().0, session);
    server.end_session(other);
    assert!(server.render_metrics().contains("\nbftunnel_active_tunnels 1\n"));
}

#[test]
fn an_identity_keeps_to_its_share() {
    let mut server = server();
    server.set_max_per_identity(2);
    let (session, _) = bind(&mut server, "a3k9zq", &[(2000, None), (2001, None)]).unwrap();
    assert_eq!(bind(&mut server, "a3k9zq", &[(2002, None)]), Err(ListenError::TooManyRoutes));
    assert!(bind(&mut server, "bbbbbb", &[(2002, None)]).is_ok());
    server.end_session(session);
    assert!(bind(&mut server, "a3k9zq", &[(2002, None)]).is_ok());
}

#[test]
fn a_taken_address_stays_with_its_owner() {
    let mut server = server();
    server.set_max_per_identity(1);
    let (session, _) = bind(&mut server, "a3k9zq", &[(2000, None)]).unwrap();
    // Refused as taken, also among routes over the share and on ports not yet open.
    for routes in [&[(2000, None)][..], &[(2001, None), (2000, None)][..]] {
        assert_eq!(bind(&mut server, "a3k9zq", routes), Err(ListenError::InUse));
    }
    assert!(!server.port_is_open(2001));
    match server.handle_player("a3k9zq.tunnel.test".to_string(), 2000, Vec::new()) {
        PlayerStep::Notify { session: owner, .. } => assert_eq!(owner, session),
        PlayerStep::Drop => panic!("dropped"),
    }
    // Free again once its session has ended.
    server.end_session(session);
    assert!(bind(&mut server, "a3k9zq", &[(2000, None)]).is_ok());
}

#[test]
fn a_pending_player_is_accepted_once() {
    let mut server = server();
    let (session, _) = bind(&mut server, "a3k9zq", &[(2000, None)]).unwrap();
    let host = "a3k9zq.tunnel.test".to_string();
    let id = match server.handle_player(host.clone(), 2000, b"prefix".to_vec()) {
        PlayerStep::Notify {
            session: owner,
            id,
            notice: ServerMessage::Connection { id: named, hostname, port },
        } => {
            assert_eq!((owner, named, hostname, port), (session, id, host.clone(), 2000));
            id
        }
        _ => panic!("not notified"),
    };
    server.player_notified(&id, true);
    let accept = || Some(ClientMessage::Accept(id));
    match server.handle_control(accept(), SOURCE, 0) {
        ControlStep::Splice { prefix } => assert_eq!(prefix, b"prefix"),
        _ => panic!("not spliced"),
    }
    assert!(matches!(server.handle_control(accept(), SOURCE, 0), ControlStep::Close));
    assert!(!server.expire_pending(&id));
    let text = server.render_metrics();
    assert!(text.contains("\nbftunnel_player_connections_total 1\n"));
    assert!(text.contains("\nbftunnel_stale_connections_total 0\n"));
}

#[test]
fn players_that_cannot_be_served() {
    let mut server = server();
    server.set_max_pending(2);
    let (session, _) = bind(&mut server, "a3k9zq", &[(2000, None)]).unwrap();
    let host = || "a3k9zq.tunnel.test".to_string();
    // The hostname is registered on another port only.
    assert!(matches!(server.handle_player(host(), 2001, Vec::new()), PlayerStep::Drop));
    assert!(matches!(
        server.admit_player([1; 16], host(), 2000, Vec::new()),
        PlayerStep::Notify { .. }
    ));
    assert!(matches!(
        server.admit_player([2; 16], host(), 2000, Vec::new()),
        PlayerStep::Notify { .. }
    ));
    assert!(matches!(
        server.admit_player([3; 16], host(), 2000, Vec::new()),
        PlayerStep::Drop
    ));
    assert!(server.render_metrics().contains("\nbftunnel_pending_connections 2\n"));
    // One client is gone, the other is too slow.
    server.player_notified(&[1; 16], false);
    assert!(server.expire_pending(&[2; 16]));
    assert!(!server.expire_pending(&[2; 16]));
    assert!(matches!(server.handle_accept(&[1; 16]), ControlStep::Close));
    assert!(matches!(server.handle_accept(&[2; 16]), ControlStep::Close));
    server.end_session(session);
    assert!(matches!(
        server.admit_player([4; 16], host(), 2000, Vec::new()),
        PlayerStep::Drop
    ));
    server.handshake_failed();
    let text = server.render_metrics();
    for line in [
        "bftunnel_unknown_host_total 2",
        "bftunnel_pending_full_total 1",
        "bftunnel_stale_connections_total 1",
        "bftunnel_pending_connections 0",
        "bftunnel_player_connections_total 0",
        "bftunnel_handshake_failures_total 1",
    ] {
        assert!(text.contains(&format!("\n{line}\n")), "missing {line}");
    }
}

#[test]
fn spliced_connections_are_counted() {
    let mut server = server();
    let first = server.begin_splice();
    let second = server.begin_splice();
    assert!(server.render_metrics().contains("\nbftunnel_active_connections 2\n"));
    server.end_splice(first, Some((10, 32)));
    server.end_splice(second, None);
    let text = server.render_metrics();
    assert!(text.contains("\nbftunnel_active_connections 0\n"));
    assert!(text.contains("\nbftunnel_bytes_proxied_total 42\n"));
}

#[test]
fn handshakes_are_read_step_by_step() {
    let packet = [&[8u8, 0, 1, 2][..], b"Hi", &[0x63, 0xdd, 2]].concat();
    let mut buf = Vec::new();
    assert!(matches!(read_handshake(&mut buf, &packet[..4]), HandshakeStep::ReadMore));
    match read_handshake(&mut buf, &packet[4..]) {
        HandshakeStep::Route(hostname) => assert_eq!(hostname, "hi"),
        _ => panic!("no route"),
    }
    assert_eq!(buf, packet);

    let fails = |step: HandshakeStep| match step {
        HandshakeStep::Fail(error) => error,
        _ => panic!("did not fail"),
    };
    let error = fails(read_handshake(&mut Vec::new(), &[]));
    assert_eq!(error, HandshakeError::Closed);
    assert_eq!(error.message(), "connection closed before handshake");
    let error = fails(read_handshake(&mut Vec::new(), &[0xFE]));
    assert_eq!(error, HandshakeError::NotHandshake);
    assert_eq!(error.message(), "not a valid Minecraft handshake");
    let mut endless = vec![0xFF; 3];
    assert!(matches!(read_handshake(&mut endless, &[0xFF]), HandshakeStep::ReadMore));
    let error = fails(read_handshake(&mut endless, &[0xFF]));
    assert_eq!(error, HandshakeError::NotHandshake);
    let mut endless = vec![0xFF; 2048];
    let error = fails(read_handshake(&mut endless, &[0xFF]));
    assert_eq!(error, HandshakeError::NotHandshake);
    assert_eq!(HandshakeError::TooLarge.message(), "handshake too large");
}

#[test]
fn sessions_are_told_of_players_and_kept_alive() {
    let notice = ServerMessage::Connection { id: [5; 16], hostname: "h".to_string(), port: 3 };
    assert!(matches!(
        session_step(SessionEvent::Notice(notice)),
        Some(ServerMessage::Connection { id: [5, ..], port: 3, .. })
    ));
    assert!(matches!(session_step(SessionEvent::Tick), Some(ServerMessage::Heartbeat)));
    assert!(session_step(SessionEvent::Ended).is_none());
    assert!(session_step(SessionEvent::SendFailed).is_none());
}

#[test]
fn settings_are_kept() {
    let mut relay = server();
    assert_eq!(relay.control_addr(), (IpAddr::V4(0), 7835));
    assert_eq!(relay.tunnel_addr(), IpAddr::V4(0));
    assert_eq!(relay.metrics_addr(), None);
    assert!(relay.opens_default_port());
    relay.set_bind_addr(IpAddr::V4(1));
    relay.set_bind_tunnels(IpAddr::V6(2));
    relay.set_control_port(17801);
    let metrics = SocketAddr::V6 { ip: 3, port: 19090, flowinfo: 0, scope_id: 7 };
    relay.set_metrics_addr(metrics);
    assert_eq!(relay.control_addr(), (IpAddr::V4(1), 17801));
    assert_eq!(relay.tunnel_addr(), IpAddr::V6(2));
    assert_eq!(relay.metrics_addr(), Some(metrics));
    let narrow = Server::new(25566..=65535, BASE.to_string(), IdentityStore::load(None));
    assert!(!narrow.opens_default_port());
    let edge = Server::new(1024..=25565, BASE.to_string(), IdentityStore::load(None));
    assert!(edge.opens_default_port());
}
