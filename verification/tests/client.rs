use birdflop_tunnel::auth::Authenticator;
use birdflop_tunnel::client::{
    Client, ClientError, ClientStep, EnrollStep, Enrollment, Identity, Route,
};
use birdflop_tunnel::shared::{ClientMessage, ServerMessage};

fn route(local_port: u16, public_port: u16, label: Option<&str>) -> Route {
    Route {
        label: label.map(str::to_string),
        public_port,
        local_host: "localhost".to_string(),
        local_port,
    }
}

fn sent(step: EnrollStep) -> (ClientMessage, Enrollment) {
    match step {
        EnrollStep::Send { message, next } => (message, next),
        EnrollStep::Done(_) => panic!("done"),
        EnrollStep::Fail(error) => panic!("failed: {}", error.message()),
    }
}

fn failed(step: EnrollStep) -> String {
    match step {
        EnrollStep::Fail(error) => error.message(),
        _ => panic!("did not fail"),
    }
}

fn done(step: EnrollStep) -> Client {
    match step {
        EnrollStep::Done(client) => client,
        _ => panic!("not done"),
    }
}

fn begin(identity: Option<Identity>) -> (ClientMessage, Enrollment) {
    sent(Client::new("relay".to_string(), 7835, vec![route(1, 25565, None)], identity))
}

fn two_routes(identity: Option<Identity>) -> Enrollment {
    let routes = vec![route(1, 25565, None), route(2, 25566, Some("x"))];
    sent(Client::new("relay".to_string(), 7835, routes, identity)).1
}

/// A client that waits for a challenge.
fn at_challenge() -> Enrollment {
    two_routes(Some(("a3k9zq".to_string(), "t".to_string())))
}

/// A client that waits for the outcome of its authentication.
fn at_result() -> Enrollment {
    sent(at_challenge().receive(Some(ServerMessage::Challenge([9; 16])))).1
}

/// A client that waits for a new identity.
fn at_issue() -> Enrollment {
    two_routes(None)
}

/// A client that waits for the addresses of its routes.
fn at_bound() -> Enrollment {
    sent(at_result().receive(Some(ServerMessage::Authenticated))).1
}

#[test]
fn a_client_needs_a_route() {
    let step = Client::new("relay".to_string(), 7835, Vec::new(), None);
    assert_eq!(failed(step), "at least one route is required");
}

#[test]
fn a_new_client_is_issued_an_identity() {
    let (message, enrollment) = begin(None);
    assert!(matches!(message, ClientMessage::Register));
    let issued = ServerMessage::Issued {
        subdomain: "a3k9zq".to_string(),
        token: "secret".to_string(),
    };
    let (message, enrollment) = sent(enrollment.receive(Some(issued)));
    match message {
        ClientMessage::Listen { routes } => {
            assert_eq!(routes.len(), 1);
            assert_eq!(routes[0].port, 25565);
            assert_eq!(routes[0].label, None);
        }
        _ => panic!("not listening"),
    }
    let bound = ServerMessage::Bound { addresses: vec!["a3k9zq.tunnel.test".to_string()] };
    let client = done(enrollment.receive(Some(bound)));
    assert_eq!(client.addresses(), ["a3k9zq.tunnel.test".to_string()]);
    assert_eq!(client.issued(), Some(&("a3k9zq".to_string(), "secret".to_string())));
    assert_eq!(client.relay(), ("relay", 7835));
}

#[test]
fn a_known_client_answers_the_challenge() {
    let (message, enrollment) = begin(Some(("a3k9zq".to_string(), "secret".to_string())));
    match message {
        ClientMessage::Authenticate(subdomain) => assert_eq!(subdomain, "a3k9zq"),
        _ => panic!("not authenticating"),
    }
    let (message, enrollment) = sent(enrollment.receive(Some(ServerMessage::Challenge([9; 16]))));
    match message {
        ClientMessage::Answer(tag) => {
            assert_eq!(tag, Authenticator::new("secret").answer(&[9; 16]));
        }
        _ => panic!("no answer"),
    }
    let (message, enrollment) = sent(enrollment.receive(Some(ServerMessage::Authenticated)));
    assert!(matches!(message, ClientMessage::Listen { .. }));
    let bound = ServerMessage::Bound { addresses: vec!["a3k9zq.tunnel.test".to_string()] };
    assert_eq!(done(enrollment.receive(Some(bound))).issued(), None);
}

#[test]
fn replies_that_end_the_setup() {
    let error = || Some(ServerMessage::Error("oops".to_string()));
    let other = || Some(ServerMessage::Heartbeat);
    assert_eq!(failed(at_challenge().receive(error())), "server error: oops");
    assert_eq!(failed(at_challenge().receive(other())), "unexpected response to authenticate");
    assert_eq!(failed(at_challenge().receive(None)), "unexpected EOF during authentication");
    assert_eq!(failed(at_result().receive(error())), "authentication failed: oops");
    assert_eq!(failed(at_result().receive(other())), "unexpected authentication result");
    assert_eq!(failed(at_result().receive(None)), "unexpected EOF during authentication");
    assert_eq!(failed(at_issue().receive(error())), "server error: oops");
    assert_eq!(failed(at_issue().receive(other())), "unexpected response to register");
    assert_eq!(failed(at_issue().receive(None)), "unexpected EOF during registration");
    assert_eq!(failed(at_bound().receive(error())), "server error: oops");
    assert_eq!(failed(at_bound().receive(other())), "unexpected response to listen");
    assert_eq!(failed(at_bound().receive(None)), "unexpected EOF after listen");
    let bound = ServerMessage::Bound { addresses: vec![String::new()] };
    assert_eq!(
        failed(at_bound().receive(Some(bound))),
        "relay returned 1 addresses for 2 routes"
    );
    assert_eq!(
        ClientError::AddressCount { addresses: 0, routes: 10 }.message(),
        "relay returned 0 addresses for 10 routes"
    );
}

#[test]
fn connections_find_their_backend() {
    let routes = vec![
        route(1, 25565, None),
        route(2, 25566, None),
        route(3, 25566, Some("x")),
        route(4, 25566, Some("x")),
    ];
    let enrollment = sent(Client::new("relay".to_string(), 7835, routes, None)).1;
    let issued = ServerMessage::Issued { subdomain: "a".to_string(), token: "t".to_string() };
    let enrollment = sent(enrollment.receive(Some(issued))).1;
    let bound = ServerMessage::Bound {
        addresses: vec![
            "a.t".to_string(),
            "a.t:25566".to_string(),
            "x.a.t:25566".to_string(),
            "x.a.t:25566".to_string(),
        ],
    };
    let client = done(enrollment.receive(Some(bound)));
    let dialled = |hostname: &str, port: u16| {
        let message =
            ServerMessage::Connection { id: [6; 16], hostname: hostname.to_string(), port };
        match client.listen(Some(message)) {
            ClientStep::Proxy { accept: ClientMessage::Accept(id), host, port } => {
                assert_eq!(id, [6; 16]);
                assert_eq!(host, "localhost");
                Some(port)
            }
            ClientStep::NoBackend => None,
            _ => panic!("not handled"),
        }
    };
    assert_eq!(dialled("a.t", 25565), Some(1));
    assert_eq!(dialled("a.t", 25566), Some(2));
    assert_eq!(dialled("x.a.t", 25566), Some(4));
    assert_eq!(dialled("x.a.t", 25565), None);
    assert_eq!(dialled("b.t", 25565), None);
}

#[test]
fn other_messages_while_listening() {
    let bound = ServerMessage::Bound { addresses: vec![String::new(), String::new()] };
    let client = done(at_bound().receive(Some(bound)));
    assert!(matches!(client.listen(Some(ServerMessage::Heartbeat)), ClientStep::Wait));
    assert!(matches!(
        client.listen(Some(ServerMessage::Authenticated)),
        ClientStep::Unexpected
    ));
    assert!(matches!(client.listen(None), ClientStep::Stop));
    match client.listen(Some(ServerMessage::Error("oops".to_string()))) {
        ClientStep::Report(text) => assert_eq!(text, "oops"),
        _ => panic!("not reported"),
    }
}
