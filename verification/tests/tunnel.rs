//! A relay and its clients, joined without a network in between.

use birdflop_tunnel::client::{Client, ClientStep, EnrollStep, Identity, Route};
use birdflop_tunnel::identity::IdentityStore;
use birdflop_tunnel::limits::IpAddr;
use birdflop_tunnel::metrics::answer_scrape;
use birdflop_tunnel::server::{
    read_handshake, BindStep, ControlStep, HandshakeStep, PendingAuth, PlayerStep, Server,
};
use birdflop_tunnel::shared::{ClientMessage, ServerMessage};

const BASE: &str = "tunnel.test";
const SOURCE: IpAddr = IpAddr::V4(0x7f00_0001);

fn route(local_port: u16, public_port: u16, label: Option<&str>) -> Route {
    Route {
        label: label.map(str::to_string),
        public_port,
        local_host: "localhost".to_string(),
        local_port,
    }
}

fn write_varint(buf: &mut Vec<u8>, mut value: u32) {
    loop {
        let mut byte = (value & 0x7f) as u8;
        value >>= 7;
        if value != 0 {
            byte |= 0x80;
        }
        buf.push(byte);
        if value == 0 {
            break;
        }
    }
}

/// Build a Minecraft C→S handshake packet for the given address/port.
fn handshake(address: &str, port: u16) -> Vec<u8> {
    let mut body = Vec::new();
    write_varint(&mut body, 0);
    write_varint(&mut body, 765);
    write_varint(&mut body, address.len() as u32);
    body.extend_from_slice(address.as_bytes());
    body.extend_from_slice(&port.to_be_bytes());
    write_varint(&mut body, 2);

    let mut packet = Vec::new();
    write_varint(&mut packet, body.len() as u32);
    packet.extend_from_slice(&body);
    packet
}

fn relay() -> Server {
    Server::new(1024..=65535, BASE.to_string(), IdentityStore::load(None))
}

/// Where the relay stands on one control connection.
enum Link {
    New,
    Challenged(PendingAuth),
    Served(String),
}

/// Hands a message of a client to the relay. Returns its reply and how it goes on.
fn deliver(
    server: &mut Server,
    link: Link,
    message: ClientMessage,
) -> (ServerMessage, Option<Link>) {
    let step = match link {
        Link::New => server.handle_control(Some(message), SOURCE, 0),
        Link::Challenged(pending) => server.handle_answer(pending, Some(message)),
        Link::Served(subdomain) => {
            let plan = match server.serve_registered(&subdomain, &Some(message)) {
                Ok(plan) => plan,
                Err(error) => return (ServerMessage::Error(error.message()), None),
            };
            loop {
                match server.bind_routes(&subdomain, &plan) {
                    BindStep::Open(port) => server.open_port(port),
                    BindStep::Bound { reply, .. } => return (reply, None),
                    BindStep::Refuse(error) => {
                        return (ServerMessage::Error(error.message()), None);
                    }
                }
            }
        }
    };
    let step = match step {
        ControlStep::Persist { subdomain, token } => server.finish_register(true, subdomain, token),
        step => step,
    };
    match step {
        ControlStep::Challenge { reply, pending } => (reply, Some(Link::Challenged(pending))),
        ControlStep::Serve { reply, subdomain } => (reply, Some(Link::Served(subdomain))),
        ControlStep::Refuse { reply } => (reply, None),
        _ => panic!("no reply"),
    }
}

/// Sets a client up with the relay.
fn connect(
    server: &mut Server,
    routes: Vec<Route>,
    identity: Option<Identity>,
) -> Result<Client, String> {
    let mut step = Client::new("localhost".to_string(), 7835, routes, identity);
    let mut link = Some(Link::New);
    loop {
        match step {
            EnrollStep::Send { message, next } => {
                let (reply, goes_on) = deliver(server, link.take().unwrap(), message);
                link = goes_on;
                step = next.receive(Some(reply));
            }
            EnrollStep::Done(client) => return Ok(client),
            EnrollStep::Fail(error) => return Err(error.message()),
        }
    }
}

/// Sends bytes of a player to a public port. Returns the local port that the client
/// dials and what the backend reads first, or `None` where the player is dropped.
fn play(
    server: &mut Server,
    client: &Client,
    port: u16,
    bytes: &[u8],
) -> Option<(u16, Vec<u8>)> {
    let mut buf = Vec::new();
    let hostname = match read_handshake(&mut buf, bytes) {
        HandshakeStep::Route(hostname) => hostname,
        _ => return None,
    };
    let notice = match server.handle_player(hostname, port, buf) {
        PlayerStep::Notify { notice, .. } => notice,
        PlayerStep::Drop => return None,
    };
    match client.listen(Some(notice)) {
        ClientStep::Proxy { accept, port, .. } => {
            match server.handle_control(Some(accept), SOURCE, 0) {
                ControlStep::Splice { prefix } => Some((port, prefix)),
                _ => None,
            }
        }
        _ => None,
    }
}

#[test]
fn proxies_by_handshake_hostname() {
    let public_port = 30001;
    let mut server = relay();
    let client = connect(&mut server, vec![route(4444, public_port, None)], None).unwrap();
    let (subdomain, _token) = client.issued().cloned().expect("issued an identity");
    let hostname = format!("{subdomain}.{BASE}");
    assert_eq!(client.addresses(), &[format!("{hostname}:{public_port}")]);

    let mut sent = handshake(&hostname, public_port);
    sent.extend_from_slice(b"hello world");
    let (local_port, replayed) = play(&mut server, &client, public_port, &sent).unwrap();
    assert_eq!(local_port, 4444);
    assert_eq!(replayed, sent);
}

#[test]
fn unknown_hostname_is_dropped() {
    let public_port = 30003;
    let mut server = relay();
    let client = connect(&mut server, vec![route(4444, public_port, None)], None).unwrap();
    let sent = handshake("does-not-exist.tunnel.test", public_port);
    assert_eq!(play(&mut server, &client, public_port, &sent), None);
}

#[test]
fn wrong_token_is_rejected() {
    let mut server = relay();
    let client = connect(&mut server, vec![route(4444, 30002, None)], None).unwrap();
    let (subdomain, token) = client.issued().cloned().expect("issued an identity");

    // Re-authenticate with the right subdomain but the wrong token.
    let result = connect(
        &mut server,
        vec![route(4444, 30002, None)],
        Some((subdomain.clone(), "totally-wrong-token".to_string())),
    );
    assert!(result.is_err(), "expected auth failure with wrong token");
    assert_eq!(result.err().unwrap(), "authentication failed: invalid token");

    // The right token passes, here for another port.
    let again = connect(&mut server, vec![route(4444, 30012, None)], Some((subdomain, token)));
    assert!(again.is_ok());
}

#[test]
fn multi_route_routes_by_label() {
    let survival_port = 30004;
    let creative_port = 30005;
    let mut server = relay();
    let client = connect(
        &mut server,
        vec![
            route(1111, survival_port, Some("survival")),
            route(2222, creative_port, Some("creative")),
        ],
        None,
    )
    .unwrap();
    let (subdomain, _token) = client.issued().cloned().expect("issued an identity");

    let survival = handshake(&format!("survival.{subdomain}.{BASE}"), survival_port);
    assert_eq!(play(&mut server, &client, survival_port, &survival).unwrap().0, 1111);
    let creative = handshake(&format!("creative.{subdomain}.{BASE}"), creative_port);
    assert_eq!(play(&mut server, &client, creative_port, &creative).unwrap().0, 2222);
    // Neither name is served on the other's port.
    assert_eq!(play(&mut server, &client, creative_port, &survival), None);
}

#[test]
fn multi_route_by_port_no_label() {
    let port_a = 30006;
    let port_b = 30007;
    let mut server = relay();
    let client = connect(
        &mut server,
        vec![route(1111, port_a, None), route(2222, port_b, None)],
        None,
    )
    .unwrap();
    let (subdomain, _token) = client.issued().cloned().expect("issued an identity");

    // Same hostname on both ports must reach distinct backends.
    let host = format!("{subdomain}.{BASE}");
    let a = handshake(&host, port_a);
    assert_eq!(play(&mut server, &client, port_a, &a).unwrap(), (1111, a));
    let b = handshake(&host, port_b);
    assert_eq!(play(&mut server, &client, port_b, &b).unwrap(), (2222, b));
}

#[test]
fn metrics_endpoint_reports() {
    let public_port = 30009;
    let mut server = relay();
    connect(&mut server, vec![route(4444, public_port, None)], None).unwrap();

    let request = b"GET /metrics HTTP/1.1\r\nHost: localhost\r\nConnection: close\r\n\r\n";
    let text = answer_scrape(request, &server.render_metrics());
    let body = text.split("\r\n\r\n").nth(1).unwrap_or("").to_string();
    assert!(
        body.contains("bftunnel_registrations_total 1"),
        "missing registrations counter:\n{body}"
    );
    assert!(
        body.contains("bftunnel_active_tunnels 1"),
        "missing active tunnels gauge:\n{body}"
    );
}

#[test]
fn players_may_type_an_address_in_any_form() {
    let mut server = relay();
    let client = connect(&mut server, vec![route(4444, 25565, None)], None).unwrap();
    let address = client.addresses()[0].clone();
    for typed in [
        address.clone(),
        address.to_uppercase(),
        format!("{address}."),
        format!("{address}\0FML2\0"),
    ] {
        let sent = handshake(&typed, 25565);
        assert_eq!(play(&mut server, &client, 25565, &sent), Some((4444, sent)));
    }
}

#[test]
fn two_users_share_a_port() {
    let mut server = relay();
    let first = connect(&mut server, vec![route(1111, 25565, None)], None).unwrap();
    let second = connect(&mut server, vec![route(2222, 25565, None)], None).unwrap();
    let to_first = handshake(&first.addresses()[0], 25565);
    let to_second = handshake(&second.addresses()[0], 25565);
    assert_eq!(play(&mut server, &first, 25565, &to_first).unwrap().0, 1111);
    assert_eq!(play(&mut server, &second, 25565, &to_second).unwrap().0, 2222);
}
