//! The relay's state and its decisions.
//!
//! The relay accepts control connections from clients, each running next to a Minecraft
//! server, and opens public listeners that every user shares. When a player connects to
//! a public port, the relay reads the Minecraft handshake to learn which hostname they
//! typed, looks up the client that registered that hostname on that port, and proxies
//! the two together.
//!
//! A [`Server`] makes every decision and does no input or output: each method takes what
//! happened and says what to do next.

use std::ops::RangeInclusive;
use vstd::prelude::*;
use vstd::string::*;

use crate::auth::{accepts, Authenticator};
use crate::identity::{
    all_taken, entries_map, is_subdomain, is_token, issued_identity, key_in, keys_distinct,
    token_taken, tokens_exhausted, Identities, Identity, IdentityStore,
};
use crate::limits::{
    asked, at_capacity, is_at_capacity, may_register, IpAddr, RateLimiter, RateView, SocketAddr,
};
use crate::listen::{
    addresses_of, in_range, plan_routes, requested, route_addresses, ListenError, PortRange,
};
use crate::maps::{
    count_pending, insert_pending, new_pending, pending_in, remove_pending, PendingConnections, PendingTable, Ports,
};
use crate::metrics::{
    counters_text, gauges_text, plus_one, with_connection, without_connection, wrapped_sum,
    zero_metrics, ConnectionGuard, Metrics, MetricsView,
};
use crate::random::{is_v4, number_in, numbered_uuid, other_uuid, random_uuid};
use crate::registry::{
    all_free, all_open, claimed, held, keys_of, registry_ok, released, Registry, RegistryView,
    RouteKey,
};
use crate::shared::{
    client_said, handshake, parse_handshake_hostname, server_said, ClientMessage, ClientMessageView,
    HandshakeParse, HandshakeView, ServerMessage, ServerMessageView, Uuid,
    CONTROL_PORT, DEFAULT_MC_PORT,
};

verus! {

/// Most pending player connections, unless set otherwise.
pub const DEFAULT_MAX_PENDING: usize = 1024;

/// Most routes one identity may hold at once, unless set otherwise.
pub const DEFAULT_MAX_PER_IDENTITY: usize = 10;

/// Most registrations of one source within the window, unless set otherwise.
pub const DEFAULT_REGISTER_RATE: u32 = 5;

/// The window for registrations in milliseconds, unless set otherwise.
pub const DEFAULT_REGISTER_WINDOW: u64 = 60_000;

/// How long, in seconds, a player connection may be pending.
pub const PENDING_TIMEOUT_SECS: u64 = 10;

/// Milliseconds between two heartbeats on a control connection.
pub const HEARTBEAT_MILLIS: u64 = 900;

/// Most bytes to read of a player before its handshake must have been decided on.
pub const MAX_HANDSHAKE_BUFFER: usize = 2048;

/// What a [`Server`] holds.
pub struct ServerView {
    /// Range of public ports clients may claim.
    pub ports: PortRange,
    /// Base domain that subdomains live under.
    pub base_domain: Seq<char>,
    /// Address the control server binds to.
    pub bind_addr: IpAddr,
    /// Address the public tunnel listeners bind to.
    pub bind_tunnels: IpAddr,
    /// Control port to listen on.
    pub control_port: u16,
    /// Where metrics are served, if anywhere.
    pub metrics_addr: Option<SocketAddr>,
    /// Most identities to issue; zero for no limit.
    pub max_identities: usize,
    /// Most player connections that may be pending.
    pub max_pending: usize,
    /// Most routes one identity may hold at once.
    pub max_per_identity: usize,
    /// The issued identities.
    pub identities: Identities,
    /// Open ports, live sessions and the routes they own.
    pub registry: RegistryView,
    /// Player connections awaiting an `Accept`, with the bytes already read from them.
    pub pending: PendingConnections,
    /// Recent registrations and their limit.
    pub rate: RateView,
    /// Counters and the gauge of live connections.
    pub metrics: MetricsView,
    /// The challenge that was sent last, if any was.
    pub last_challenge: Option<Seq<u8>>,
}

/// State structure for the relay.
pub struct Server {
    port_range: RangeInclusive<u16>,
    base_domain: String,
    bind_addr: IpAddr,
    bind_tunnels: IpAddr,
    control_port: u16,
    metrics_addr: Option<SocketAddr>,
    max_identities: usize,
    max_pending: usize,
    max_per_identity: usize,
    store: IdentityStore,
    registry: Registry,
    conns: PendingTable,
    limiter: RateLimiter,
    metrics: Metrics,
    last_challenge: Option<Uuid>,
}

impl View for Server {
    type V = ServerView;

    closed spec fn view(&self) -> ServerView {
        ServerView {
            ports: self.port_range@,
            base_domain: self.base_domain@,
            bind_addr: self.bind_addr,
            bind_tunnels: self.bind_tunnels,
            control_port: self.control_port,
            metrics_addr: self.metrics_addr,
            max_identities: self.max_identities,
            max_pending: self.max_pending,
            max_per_identity: self.max_per_identity,
            identities: self.store@,
            registry: self.registry@,
            pending: pending_in(self.conns),
            rate: self.limiter@,
            metrics: self.metrics@,
            last_challenge: match self.last_challenge {
                Some(challenge) => Some(challenge@),
                None => None,
            },
        }
    }
}

/// An authentication that waits for the answer to its challenge.
pub struct PendingAuth {
    subdomain: String,
    challenge: Uuid,
    /// Holds the key of the identity.
    auth: Authenticator,
}

/// What a [`PendingAuth`] holds.
pub struct PendingAuthView {
    /// The identity to authenticate as.
    pub subdomain: Seq<char>,
    /// What the client was asked to answer.
    pub challenge: Uuid,
    /// The key of the identity.
    pub key: Seq<u8>,
}

impl View for PendingAuth {
    type V = PendingAuthView;

    closed spec fn view(&self) -> PendingAuthView {
        PendingAuthView {
            subdomain: self.subdomain@,
            challenge: self.challenge,
            key: self.auth@,
        }
    }
}

/// What to do next on a control connection.
pub enum ControlStep {
    /// Save the identities, then go on with [`Server::finish_register`].
    Persist {
        /// The subdomain that was issued.
        subdomain: String,
        /// Its token.
        token: String,
    },
    /// Send the reply; the next message goes to [`Server::handle_answer`].
    Challenge {
        /// What to send.
        reply: ServerMessage,
        /// What to remember until the answer comes.
        pending: PendingAuth,
    },
    /// Send the reply; the next message is a request for routes of the identity.
    Serve {
        /// What to send.
        reply: ServerMessage,
        /// Who the client is.
        subdomain: String,
    },
    /// Send the reply and close the connection.
    Refuse {
        /// What to send.
        reply: ServerMessage,
    },
    /// Send the bytes to the client, then splice it onto the player's connection.
    Splice {
        /// The bytes already read from the player.
        prefix: Vec<u8>,
    },
    /// Close the connection.
    Close,
}

/// What a [`ControlStep`] says.
pub enum ControlView {
    /// Save the identities: subdomain and token.
    Persist(Seq<char>, Seq<char>),
    /// Send a challenge and remember it.
    Challenge(ServerMessageView, PendingAuthView),
    /// Send a reply and serve an identity.
    Serve(ServerMessageView, Seq<char>),
    /// Send a reply and close.
    Refuse(ServerMessageView),
    /// Replay bytes and splice.
    Splice(Seq<u8>),
    /// Close.
    Close,
}

impl View for ControlStep {
    type V = ControlView;

    open spec fn view(&self) -> ControlView {
        match self {
            ControlStep::Persist { subdomain, token } => ControlView::Persist(subdomain@, token@),
            ControlStep::Challenge { reply, pending } => ControlView::Challenge(reply@, pending@),
            ControlStep::Serve { reply, subdomain } => ControlView::Serve(reply@, subdomain@),
            ControlStep::Refuse { reply } => ControlView::Refuse(reply@),
            ControlStep::Splice { prefix } => ControlView::Splice(prefix@),
            ControlStep::Close => ControlView::Close,
        }
    }
}

/// Tell a client of an error and close.
pub open spec fn refusal(text: Seq<char>) -> ControlView {
    ControlView::Refuse(ServerMessageView::Error(text))
}

/// The relay once one more authentication has failed.
pub open spec fn auth_failure(v: ServerView) -> ServerView {
    ServerView {
        metrics: MetricsView { auth_failures: plus_one(v.metrics.auth_failures), ..v.metrics },
        ..v
    }
}

/// The relay and its reply once a client has named the identity to authenticate as.
pub open spec fn auth_begun(v: ServerView, subdomain: Seq<char>, challenge: Uuid) -> (
    ServerView,
    ControlView,
) {
    match key_in(v.identities, subdomain) {
        Some(key) => (
            v,
            ControlView::Challenge(
                ServerMessageView::Challenge(challenge),
                PendingAuthView { subdomain, challenge, key },
            ),
        ),
        None => (auth_failure(v), refusal("unknown subdomain"@)),
    }
}

/// What holds once a client has named the identity to authenticate as: it was given some
/// random challenge, other than the one before.
pub open spec fn authenticates(
    before: ServerView,
    after: ServerView,
    step: ControlView,
    subdomain: Seq<char>,
) -> bool {
    exists|challenge: Uuid|
        is_v4(challenge@) && before.last_challenge != Some(challenge@) && {
            let begun = #[trigger] auth_begun(before, subdomain, challenge);
            after == (ServerView { last_challenge: Some(challenge@), ..begun.0 }) && step
                == begun.1
        }
}

/// Whether a message answers a challenge.
pub open spec fn answers(pending: PendingAuthView, said: Option<ClientMessageView>) -> bool {
    said matches Some(ClientMessageView::Answer(tag)) && accepts(
        pending.key,
        pending.challenge@,
        tag,
    )
}

/// The relay and its reply once a challenged client has said something, or nothing.
pub open spec fn auth_answered(
    v: ServerView,
    pending: PendingAuthView,
    said: Option<ClientMessageView>,
) -> (ServerView, ControlView) {
    if answers(pending, said) {
        (v, ControlView::Serve(ServerMessageView::Authenticated, pending.subdomain))
    } else {
        (auth_failure(v), refusal("invalid token"@))
    }
}

/// The relay and what it does once a client has accepted a connection.
pub open spec fn accepted(v: ServerView, id: Uuid) -> (ServerView, ControlView) {
    match v.pending.get(id@) {
        Some(prefix) => (
            ServerView { pending: v.pending.remove(id@), ..v },
            ControlView::Splice(prefix),
        ),
        None => (v, ControlView::Close),
    }
}

/// The relay once a source has asked to register and an identity may be issued.
pub open spec fn register_asked(v: ServerView, source: IpAddr, now: u64) -> ServerView {
    ServerView { rate: asked(v.rate, source, now), ..v }
}

/// The relay and its reply where a source may not register: it has registered too often,
/// or there are as many identities as there may be.
pub open spec fn register_refused(v: ServerView, source: IpAddr, now: u64) -> Option<
    (ServerView, ControlView),
> {
    let after = register_asked(v, source, now);
    if !may_register(v.rate.grants, v.rate.max, v.rate.window, source, now) {
        Some(
            (
                ServerView {
                    metrics: MetricsView {
                        registrations_rate_limited: plus_one(v.metrics.registrations_rate_limited),
                        ..v.metrics
                    },
                    ..after
                },
                refusal("too many registrations, try again later"@),
            ),
        )
    } else if at_capacity(v.identities.len(), v.max_identities) {
        Some(
            (
                ServerView {
                    metrics: MetricsView {
                        registrations_capacity: plus_one(v.metrics.registrations_capacity),
                        ..v.metrics
                    },
                    ..after
                },
                refusal("could not issue identity"@),
            ),
        )
    } else {
        None
    }
}

/// What holds once a source has asked to register. Where it may, a new identity with a
/// free subdomain is there to be saved, unless every subdomain is taken; otherwise no
/// identity changes.
pub open spec fn registers(
    before: ServerView,
    after: ServerView,
    step: ControlView,
    source: IpAddr,
    now: u64,
) -> bool {
    match register_refused(before, source, now) {
        Some(refused) => after == refused.0 && step == refused.1,
        None => match step {
            ControlView::Persist(subdomain, token) => {
                &&& is_subdomain(subdomain)
                &&& is_token(token)
                &&& token_taken(before.identities, token) ==> tokens_exhausted(before.identities)
                &&& !before.identities.contains_key(subdomain)
                &&& after == (ServerView {
                    identities: before.identities.insert(
                        subdomain,
                        issued_identity(
                            subdomain,
                            token,
                            after.identities[subdomain].created_at,
                        ),
                    ),
                    ..register_asked(before, source, now)
                })
            },
            _ => {
                &&& all_taken(before.identities)
                &&& step == refusal("could not issue identity"@)
                &&& after == register_asked(before, source, now)
            },
        },
    }
}

/// The relay and its reply once the new identity was saved, or could not be.
pub open spec fn register_finished(
    v: ServerView,
    saved: bool,
    subdomain: Seq<char>,
    token: Seq<char>,
) -> (ServerView, ControlView) {
    if saved {
        (
            ServerView {
                metrics: MetricsView {
                    registrations: plus_one(v.metrics.registrations),
                    ..v.metrics
                },
                ..v
            },
            ControlView::Serve(ServerMessageView::Issued(subdomain, token), subdomain),
        )
    } else {
        (v, refusal("could not issue identity"@))
    }
}

/// What holds once the first message of a control connection was handled.
pub open spec fn controls(
    before: ServerView,
    after: ServerView,
    step: ControlView,
    said: Option<ClientMessageView>,
    source: IpAddr,
    now: u64,
) -> bool {
    match said {
        Some(ClientMessageView::Register) => registers(before, after, step, source, now),
        Some(ClientMessageView::Authenticate(subdomain)) => authenticates(
            before,
            after,
            step,
            subdomain,
        ),
        Some(ClientMessageView::Accept(id)) => {
            after == accepted(before, id).0 && step == accepted(before, id).1
        },
        _ => after == before && step == ControlView::Close,
    }
}

/// What to do next about routes that a client may have.
pub enum BindStep {
    /// Open a listener on the port, say so with [`Server::open_port`], and ask again.
    Open(u16),
    /// Send the reply and pass the session's players on.
    Bound {
        /// The new session.
        session: u64,
        /// What to send.
        reply: ServerMessage,
    },
    /// Send the reason and close the connection.
    Refuse(ListenError),
}

/// What a [`BindStep`] says.
pub enum BindView {
    /// Open a port.
    Open(u16),
    /// Serve a session, after a reply.
    Bound(u64, ServerMessageView),
    /// Refuse the routes.
    Refuse(ListenError),
}

impl View for BindStep {
    type V = BindView;

    open spec fn view(&self) -> BindView {
        match self {
            BindStep::Open(port) => BindView::Open(*port),
            BindStep::Bound { session, reply } => BindView::Bound(*session, reply@),
            BindStep::Refuse(error) => BindView::Refuse(*error),
        }
    }
}

/// The routes that an identity asks for, or why it may not have them.
pub open spec fn routes_asked(
    v: ServerView,
    subdomain: Seq<char>,
    said: Option<ClientMessageView>,
) -> Result<Seq<RouteKey>, ListenError> {
    match requested(said, subdomain, v.base_domain, v.ports) {
        Ok(keys) => match claim_error(v, subdomain, keys) {
            Some(error) => Err(error),
            None => Ok(keys),
        },
        Err(error) => Err(error),
    }
}

/// Why an identity may not have routes as things are: one of them is taken or was asked
/// for twice, or it would hold more than it may.
pub open spec fn claim_error(v: ServerView, subdomain: Seq<char>, keys: Seq<RouteKey>) -> Option<
    ListenError,
> {
    if !all_free(v.registry, keys) {
        Some(ListenError::InUse)
    } else if over_share(v, subdomain, keys) {
        Some(ListenError::TooManyRoutes)
    } else {
        None
    }
}

/// Whether an identity would hold more routes than it may.
pub open spec fn over_share(v: ServerView, subdomain: Seq<char>, keys: Seq<RouteKey>) -> bool {
    held(v.registry.sessions, subdomain) + keys.len() > v.max_per_identity
}

/// The port of the first route whose port has no open listener.
pub open spec fn first_closed(ports: Ports, keys: Seq<RouteKey>) -> Option<u16>
    decreases keys.len(),
{
    if keys.len() == 0 {
        None
    } else {
        match first_closed(ports, keys.drop_last()) {
            Some(port) => Some(port),
            None => if ports.contains(keys.last().1) {
                None
            } else {
                Some(keys.last().1)
            },
        }
    }
}

/// The relay and what it does about routes that an identity asked for.
pub open spec fn routes_bound(v: ServerView, subdomain: Seq<char>, keys: Seq<RouteKey>) -> (
    ServerView,
    BindView,
) {
    match claim_error(v, subdomain, keys) {
        Some(error) => (v, BindView::Refuse(error)),
        None => match first_closed(v.registry.ports, keys) {
            Some(port) => (v, BindView::Open(port)),
            None => if v.registry.next_session == u64::MAX {
                (v, BindView::Refuse(ListenError::OutOfSessions))
            } else {
                (
                    ServerView { registry: claimed(v.registry, subdomain, keys), ..v },
                    BindView::Bound(
                        v.registry.next_session,
                        ServerMessageView::Bound(addresses_of(keys)),
                    ),
                )
            },
        },
    }
}

/// The relay once a session has ended.
pub open spec fn session_ended(v: ServerView, session: u64) -> ServerView {
    ServerView { registry: released(v.registry, session), ..v }
}

/// What happened to the control connection of a session.
pub enum SessionEvent {
    /// There is something to tell the client.
    Notice(ServerMessage),
    /// It is time for a heartbeat.
    Tick,
    /// Nothing more will come.
    Ended,
    /// The last message could not be sent: the client is gone.
    SendFailed,
}

/// What a [`SessionEvent`] says.
pub enum SessionEventView {
    /// There is something to tell the client.
    Notice(ServerMessageView),
    /// It is time for a heartbeat.
    Tick,
    /// Nothing more will come.
    Ended,
    /// The last message could not be sent.
    SendFailed,
}

impl View for SessionEvent {
    type V = SessionEventView;

    open spec fn view(&self) -> SessionEventView {
        match self {
            SessionEvent::Notice(notice) => SessionEventView::Notice(notice@),
            SessionEvent::Tick => SessionEventView::Tick,
            SessionEvent::Ended => SessionEventView::Ended,
            SessionEvent::SendFailed => SessionEventView::SendFailed,
        }
    }
}

/// What to send to the client of a session; nothing where the session ends.
pub open spec fn session_reply(event: SessionEventView) -> Option<ServerMessageView> {
    match event {
        SessionEventView::Notice(notice) => Some(notice),
        SessionEventView::Tick => Some(ServerMessageView::Heartbeat),
        SessionEventView::Ended => None,
        SessionEventView::SendFailed => None,
    }
}

/// What to send to the client of a session. Where it is nothing, the session ends with
/// [`Server::end_session`].
pub fn session_step(event: SessionEvent) -> (res: Option<ServerMessage>)
    ensures
        server_said(res) == session_reply(event@),
{
    match event {
        SessionEvent::Notice(notice) => Some(notice),
        SessionEvent::Tick => Some(ServerMessage::Heartbeat),
        SessionEvent::Ended => None,
        SessionEvent::SendFailed => None,
    }
}

/// Why a player's handshake was not understood.
#[derive(Debug, Clone, Copy, PartialEq, Eq, Structural)]
pub enum HandshakeError {
    /// The player hung up.
    Closed,
    /// The player sent something else.
    NotHandshake,
    /// The player sent too much.
    TooLarge,
}

/// The text that says why a player's handshake was not understood.
pub open spec fn handshake_error_text(error: HandshakeError) -> Seq<char> {
    match error {
        HandshakeError::Closed => "connection closed before handshake"@,
        HandshakeError::NotHandshake => "not a valid Minecraft handshake"@,
        HandshakeError::TooLarge => "handshake too large"@,
    }
}

/// What to do next about a player whose handshake is being read.
pub enum HandshakeStep {
    /// The player asks for a hostname.
    Route(String),
    /// Read more.
    ReadMore,
    /// Drop the player.
    Fail(HandshakeError),
}

/// What a [`HandshakeStep`] says.
pub enum HandshakeStepView {
    /// The player asks for a hostname.
    Route(Seq<char>),
    /// Read more.
    ReadMore,
    /// Drop the player.
    Fail(HandshakeError),
}

impl View for HandshakeStep {
    type V = HandshakeStepView;

    open spec fn view(&self) -> HandshakeStepView {
        match self {
            HandshakeStep::Route(hostname) => HandshakeStepView::Route(hostname@),
            HandshakeStep::ReadMore => HandshakeStepView::ReadMore,
            HandshakeStep::Fail(error) => HandshakeStepView::Fail(*error),
        }
    }
}

/// What to do once more bytes of a player were read; none means that it hung up.
pub open spec fn handshake_read(buf: Seq<u8>, chunk: Seq<u8>) -> HandshakeStepView {
    if chunk.len() == 0 {
        HandshakeStepView::Fail(HandshakeError::Closed)
    } else {
        match handshake(buf + chunk) {
            HandshakeView::Hostname(hostname) => HandshakeStepView::Route(hostname),
            HandshakeView::Invalid => HandshakeStepView::Fail(HandshakeError::NotHandshake),
            HandshakeView::NeedMore => if (buf + chunk).len() > MAX_HANDSHAKE_BUFFER {
                HandshakeStepView::Fail(HandshakeError::TooLarge)
            } else {
                HandshakeStepView::ReadMore
            },
        }
    }
}

/// What to do next about a player who asked for a hostname.
pub enum PlayerStep {
    /// Tell the session's client; say with [`Server::player_notified`] whether that
    /// worked, and call [`Server::expire_pending`] when the time is over.
    Notify {
        /// Whose player it is.
        session: u64,
        /// The pending connection.
        id: Uuid,
        /// What to send.
        notice: ServerMessage,
    },
    /// Drop the player.
    Drop,
}

/// What a [`PlayerStep`] says.
pub enum PlayerView {
    /// Tell a session's client of a pending connection.
    Notify(u64, Uuid, ServerMessageView),
    /// Drop the player.
    Drop,
}

impl View for PlayerStep {
    type V = PlayerView;

    open spec fn view(&self) -> PlayerView {
        match self {
            PlayerStep::Notify { session, id, notice } => PlayerView::Notify(
                *session,
                *id,
                notice@,
            ),
            PlayerStep::Drop => PlayerView::Drop,
        }
    }
}

/// The relay and what it does once a player has asked for a hostname on a port.
pub open spec fn player_admitted(
    v: ServerView,
    id: Uuid,
    hostname: Seq<char>,
    port: u16,
    prefix: Seq<u8>,
) -> (ServerView, PlayerView) {
    match v.registry.routes.get((hostname, port)) {
        Some(session) => if v.pending.len() >= v.max_pending {
            (
                ServerView {
                    metrics: MetricsView {
                        pending_full: plus_one(v.metrics.pending_full),
                        ..v.metrics
                    },
                    ..v
                },
                PlayerView::Drop,
            )
        } else {
            (
                ServerView { pending: v.pending.insert(id@, prefix), ..v },
                PlayerView::Notify(
                    session,
                    id,
                    ServerMessageView::Connection(id, hostname, port),
                ),
            )
        },
        None => (
            ServerView {
                metrics: MetricsView {
                    unknown_host: plus_one(v.metrics.unknown_host),
                    ..v.metrics
                },
                ..v
            },
            PlayerView::Drop,
        ),
    }
}

/// What holds once a player has asked for a hostname: the connection was given some
/// random identifier, which is not that of another player who waits.
pub open spec fn admits(
    before: ServerView,
    after: ServerView,
    step: PlayerView,
    hostname: Seq<char>,
    port: u16,
    prefix: Seq<u8>,
) -> bool {
    exists|id: Uuid|
        is_v4(id@) && (step is Notify ==> !before.pending.contains_key(id@)) && {
            let admitted = #[trigger] player_admitted(before, id, hostname, port, prefix);
            after == admitted.0 && step == admitted.1
        }
}

/// The relay once the client of a pending connection was told of it, or could not be.
pub open spec fn client_notified(v: ServerView, id: Uuid, sent: bool) -> ServerView {
    if sent {
        ServerView {
            metrics: MetricsView {
                player_connections: plus_one(v.metrics.player_connections),
                ..v.metrics
            },
            ..v
        }
    } else {
        ServerView { pending: v.pending.remove(id@), ..v }
    }
}

/// The relay once the time of a pending connection is over.
pub open spec fn pending_expired(v: ServerView, id: Uuid) -> ServerView {
    if v.pending.contains_key(id@) {
        ServerView {
            pending: v.pending.remove(id@),
            metrics: MetricsView {
                stale_connections: plus_one(v.metrics.stale_connections),
                ..v.metrics
            },
            ..v
        }
    } else {
        v
    }
}

/// The metrics once a spliced connection has ended, with the bytes that went each way
/// where it was closed cleanly.
pub open spec fn splice_ended(m: MetricsView, bytes: Option<(u64, u64)>) -> MetricsView {
    let closed = without_connection(m);
    match bytes {
        Some((up, down)) => MetricsView {
            bytes_proxied: wrapped_sum(wrapped_sum(m.bytes_proxied, up), down),
            ..closed
        },
        None => closed,
    }
}

/// All metrics of a relay as Prometheus text.
pub open spec fn rendered(v: ServerView) -> Seq<char> {
    counters_text(v.metrics) + gauges_text(
        v.metrics.active_connections,
        v.identities.len() as u64,
        v.pending.len() as u64,
        v.registry.ports.len() as u64,
        v.registry.routes.len() as u64,
    )
}

/// Tells a client of an error and closes.
fn refuse(text: &str) -> (res: ControlStep)
    ensures
        res@ == refusal(text@),
{
    ControlStep::Refuse { reply: ServerMessage::Error(text.to_string()) }
}

impl HandshakeError {
    /// The text that says why a player's handshake was not understood.
    pub fn message(&self) -> (res: String)
        ensures
            res@ == handshake_error_text(*self),
    {
        match self {
            HandshakeError::Closed => "connection closed before handshake".to_string(),
            HandshakeError::NotHandshake => "not a valid Minecraft handshake".to_string(),
            HandshakeError::TooLarge => "handshake too large".to_string(),
        }
    }
}

/// Adds bytes that were read of a player to those read before, and says what to do next.
/// An empty chunk means that the player hung up.
pub fn read_handshake(buf: &mut Vec<u8>, chunk: &[u8]) -> (res: HandshakeStep)
    ensures
        final(buf)@ == old(buf)@ + chunk@,
        res@ == handshake_read(old(buf)@, chunk@),
{
    let ghost before = buf@;
    if chunk.len() == 0 {
        assert(buf@ =~= before + chunk@);
        return HandshakeStep::Fail(HandshakeError::Closed);
    }
    buf.extend_from_slice(chunk);
    assert(buf@ =~= before + chunk@);
    match parse_handshake_hostname(buf.as_slice()) {
        HandshakeParse::Hostname(hostname) => HandshakeStep::Route(hostname),
        HandshakeParse::Invalid => HandshakeStep::Fail(HandshakeError::NotHandshake),
        HandshakeParse::NeedMore => {
            if buf.len() > MAX_HANDSHAKE_BUFFER {
                HandshakeStep::Fail(HandshakeError::TooLarge)
            } else {
                HandshakeStep::ReadMore
            }
        },
    }
}

/// What holds of every relay.
pub open spec fn server_ok(v: ServerView) -> bool {
    registry_ok(v.registry) && v.pending.dom().finite() && v.identities.dom().finite()
}

impl Server {
    /// The identity store is consistent, and so is what the relay holds.
    pub closed spec fn wf(&self) -> bool {
        self.store.wf() && server_ok(self@)
    }

    /// What holds of every consistent relay.
    pub proof fn lemma_wf(&self)
        requires
            self.wf(),
        ensures
            server_ok(self@),
    {
    }

    /// Create a new relay. The port range must not be empty.
    pub fn new(port_range: RangeInclusive<u16>, base_domain: String, store: IdentityStore) -> (res:
        Server)
        requires
            port_range@.start <= port_range@.end,
            !port_range@.exhausted,
            store.wf(),
        ensures
            res.wf(),
            res@ == (ServerView {
                ports: port_range@,
                base_domain: base_domain@,
                bind_addr: IpAddr::V4(0),
                bind_tunnels: IpAddr::V4(0),
                control_port: 7835,
                metrics_addr: None,
                max_identities: 0,
                max_pending: 1024,
                max_per_identity: 10,
                identities: store@,
                registry: RegistryView {
                    routes: Map::empty(),
                    ports: Set::empty(),
                    sessions: Seq::empty(),
                    next_session: 0,
                },
                pending: Map::empty(),
                rate: RateView {
                    max: 5,
                    window: 60_000,
                    grants: Seq::empty(),
                },
                metrics: zero_metrics(),
                last_challenge: None,
            }),
    {
        proof {
            store.lemma_finite();
        }
        Server {
            port_range,
            base_domain,
            bind_addr: IpAddr::V4(0),
            bind_tunnels: IpAddr::V4(0),
            control_port: CONTROL_PORT,
            metrics_addr: None,
            max_identities: 0,
            max_pending: DEFAULT_MAX_PENDING,
            max_per_identity: DEFAULT_MAX_PER_IDENTITY,
            store,
            registry: Registry::new(),
            conns: new_pending(),
            limiter: RateLimiter::new(DEFAULT_REGISTER_RATE, DEFAULT_REGISTER_WINDOW),
            metrics: Metrics::default(),
            last_challenge: None,
        }
    }

    /// Set the address the control server binds to.
    pub fn set_bind_addr(&mut self, bind_addr: IpAddr)
        requires
            old(self).wf(),
        ensures
            final(self).wf(),
            final(self)@ == (ServerView { bind_addr, ..old(self)@ }),
    {
        self.bind_addr = bind_addr;
    }

    /// Set the address the public tunnel listeners bind to.
    pub fn set_bind_tunnels(&mut self, bind_tunnels: IpAddr)
        requires
            old(self).wf(),
        ensures
            final(self).wf(),
            final(self)@ == (ServerView { bind_tunnels, ..old(self)@ }),
    {
        self.bind_tunnels = bind_tunnels;
    }

    /// Set the control port.
    pub fn set_control_port(&mut self, port: u16)
        requires
            old(self).wf(),
        ensures
            final(self).wf(),
            final(self)@ == (ServerView { control_port: port, ..old(self)@ }),
    {
        self.control_port = port;
    }

    /// Set the address that metrics are served on.
    pub fn set_metrics_addr(&mut self, addr: SocketAddr)
        requires
            old(self).wf(),
        ensures
            final(self).wf(),
            final(self)@ == (ServerView { metrics_addr: Some(addr), ..old(self)@ }),
    {
        self.metrics_addr = Some(addr);
    }

    /// Set how many identities may be issued; zero for no limit.
    pub fn set_max_identities(&mut self, max_identities: usize)
        requires
            old(self).wf(),
        ensures
            final(self).wf(),
            final(self)@ == (ServerView { max_identities, ..old(self)@ }),
    {
        self.max_identities = max_identities;
    }

    /// Set how many player connections may be pending.
    pub fn set_max_pending(&mut self, max_pending: usize)
        requires
            old(self).wf(),
        ensures
            final(self).wf(),
            final(self)@ == (ServerView { max_pending, ..old(self)@ }),
    {
        self.max_pending = max_pending;
    }

    /// Set how many routes one identity may hold at once.
    pub fn set_max_per_identity(&mut self, max_per_identity: usize)
        requires
            old(self).wf(),
        ensures
            final(self).wf(),
            final(self)@ == (ServerView { max_per_identity, ..old(self)@ }),
    {
        self.max_per_identity = max_per_identity;
    }

    /// Set how many registrations a source may make within a window of milliseconds.
    pub fn set_register_rate(&mut self, max: u32, window: u64)
        requires
            old(self).wf(),
        ensures
            final(self).wf(),
            final(self)@ == (ServerView {
                rate: RateView { max, window, ..old(self)@.rate },
                ..old(self)@
            }),
    {
        self.limiter.set_rate(max, window);
    }

    /// The address and port to listen on for control connections.
    pub fn control_addr(&self) -> (res: (IpAddr, u16))
        ensures
            res == (self@.bind_addr, self@.control_port),
    {
        (self.bind_addr, self.control_port)
    }

    /// The address that public listeners bind to.
    pub fn tunnel_addr(&self) -> (res: IpAddr)
        ensures
            res == self@.bind_tunnels,
    {
        self.bind_tunnels
    }

    /// The address to serve metrics on, if any.
    pub fn metrics_addr(&self) -> (res: Option<SocketAddr>)
        ensures
            res == self@.metrics_addr,
    {
        self.metrics_addr
    }

    /// The keyed identities to save.
    pub fn identities(&self) -> (res: &Vec<(String, Identity)>)
        requires
            self.wf(),
        ensures
            entries_map(res@) == self@.identities,
            keys_distinct(res@),
    {
        self.store.entries()
    }

    /// Handles the first message of a control connection.
    pub fn handle_control(&mut self, message: Option<ClientMessage>, source: IpAddr, now: u64) -> (
    res: ControlStep)
        requires
            old(self).wf(),
        ensures
            final(self).wf(),
            controls(old(self)@, final(self)@, res@, client_said(message), source, now),
    {
        let ghost before = self@;
        match message {
            Some(ClientMessage::Register) => self.register(source, now),
            Some(ClientMessage::Authenticate(subdomain)) => {
                let challenge: Uuid = match &self.last_challenge {
                    Some(last) => other_uuid(last),
                    None => random_uuid(),
                };
                let ghost name = subdomain@;
                let step: ControlStep = self.begin_auth(subdomain, challenge);
                assert(auth_begun(before, name, challenge).0 == self@);
                self.last_challenge = Some(challenge);
                assert(authenticates(before, self@, step@, name));
                step
            },
            Some(ClientMessage::Accept(id)) => self.handle_accept(&id),
            _ => ControlStep::Close,
        }
    }

    /// Issues a new identity to a source, unless a limit stands against it.
    pub fn register(&mut self, source: IpAddr, now: u64) -> (res: ControlStep)
        requires
            old(self).wf(),
        ensures
            final(self).wf(),
            registers(old(self)@, final(self)@, res@, source, now),
    {
        if !self.limiter.allow(source, now) {
            self.metrics.registration_rate_limited();
            return refuse("too many registrations, try again later");
        }
        if is_at_capacity(self.store.len(), self.max_identities) {
            self.metrics.registration_at_capacity();
            return refuse("could not issue identity");
        }
        match self.store.issue() {
            Some((subdomain, token)) => ControlStep::Persist { subdomain, token },
            None => refuse("could not issue identity"),
        }
    }

    /// Goes on with a registration once the identities were saved, or could not be.
    pub fn finish_register(&mut self, saved: bool, subdomain: String, token: String) -> (res:
        ControlStep)
        requires
            old(self).wf(),
        ensures
            final(self).wf(),
            final(self)@ == register_finished(old(self)@, saved, subdomain@, token@).0,
            res@ == register_finished(old(self)@, saved, subdomain@, token@).1,
    {
        if !saved {
            return refuse("could not issue identity");
        }
        self.metrics.registration_issued();
        ControlStep::Serve {
            reply: ServerMessage::Issued { subdomain: subdomain.clone(), token },
            subdomain,
        }
    }

    /// Challenges a client that wants to authenticate as an identity.
    pub fn begin_auth(&mut self, subdomain: String, challenge: Uuid) -> (res: ControlStep)
        requires
            old(self).wf(),
        ensures
            final(self).wf(),
            final(self)@ == auth_begun(old(self)@, subdomain@, challenge).0,
            res@ == auth_begun(old(self)@, subdomain@, challenge).1,
    {
        match self.store.token_key(subdomain.as_str()) {
            Some(key) => ControlStep::Challenge {
                reply: ServerMessage::Challenge(challenge),
                pending: PendingAuth {
                    subdomain,
                    challenge,
                    auth: Authenticator::from_key(key.as_slice()),
                },
            },
            None => {
                self.metrics.auth_failed();
                refuse("unknown subdomain")
            },
        }
    }

    /// Handles what a challenged client said.
    pub fn handle_answer(&mut self, pending: PendingAuth, message: Option<ClientMessage>) -> (res:
        ControlStep)
        requires
            old(self).wf(),
        ensures
            final(self).wf(),
            final(self)@ == auth_answered(old(self)@, pending@, client_said(message)).0,
            res@ == auth_answered(old(self)@, pending@, client_said(message)).1,
    {
        if let Some(ClientMessage::Answer(tag)) = &message {
            if pending.auth.validate(&pending.challenge, tag.as_str()) {
                return ControlStep::Serve {
                    reply: ServerMessage::Authenticated,
                    subdomain: pending.subdomain,
                };
            }
        }
        self.metrics.auth_failed();
        refuse("invalid token")
    }

    /// Hands a pending player connection to the client that accepts it.
    pub fn handle_accept(&mut self, id: &Uuid) -> (res: ControlStep)
        requires
            old(self).wf(),
        ensures
            final(self).wf(),
            final(self)@ == accepted(old(self)@, *id).0,
            res@ == accepted(old(self)@, *id).1,
    {
        let ghost before = self@;
        match remove_pending(&mut self.conns, id) {
            Some(prefix) => ControlStep::Splice { prefix },
            None => {
                assert(self@.pending =~= before.pending);
                ControlStep::Close
            },
        }
    }

    /// Whether to open the default Minecraft port from the start, so that addresses
    /// without a port work.
    pub fn opens_default_port(&self) -> (res: bool)
        ensures
            res == in_range(self@.ports, DEFAULT_MC_PORT),
    {
        self.port_range.contains(&DEFAULT_MC_PORT)
    }

    /// Whether a public port has an open listener.
    pub fn port_is_open(&self, port: u16) -> (res: bool)
        ensures
            res == self@.registry.ports.contains(port),
    {
        self.registry.is_open(port)
    }

    /// Records that a public port has an open listener.
    pub fn open_port(&mut self, port: u16)
        requires
            old(self).wf(),
        ensures
            final(self).wf(),
            final(self)@ == (ServerView {
                registry: RegistryView {
                    ports: old(self)@.registry.ports.insert(port),
                    ..old(self)@.registry
                },
                ..old(self)@
            }),
    {
        self.registry.open(port);
    }

    /// The routes that an authenticated client asks for, or why it may not have them.
    pub fn serve_registered(&self, subdomain: &String, message: &Option<ClientMessage>) -> (res:
        Result<Vec<(String, u16)>, ListenError>)
        requires
            self.wf(),
        ensures
            match res {
                Ok(routes) => routes_asked(self@, subdomain@, client_said(*message)) == Ok::<
                    Seq<RouteKey>,
                    ListenError,
                >(keys_of(routes@)),
                Err(error) => routes_asked(self@, subdomain@, client_said(*message)) == Err::<
                    Seq<RouteKey>,
                    ListenError,
                >(error),
            },
    {
        match plan_routes(
            message,
            subdomain.as_str(),
            self.base_domain.as_str(),
            &self.port_range,
        ) {
            Ok(routes) => match self.check_claim(subdomain, &routes) {
                Some(error) => Err(error),
                None => Ok(routes),
            },
            Err(error) => Err(error),
        }
    }

    /// Why an identity may not have routes as things are.
    fn check_claim(&self, subdomain: &String, routes: &Vec<(String, u16)>) -> (res: Option<
        ListenError,
    >)
        ensures
            res == claim_error(self@, subdomain@, keys_of(routes@)),
    {
        if !self.registry.can_claim(routes) {
            Some(ListenError::InUse)
        } else if self.registry.over_limit(subdomain, routes.len(), self.max_per_identity) {
            Some(ListenError::TooManyRoutes)
        } else {
            None
        }
    }

    /// The port of the first route whose port has no open listener.
    fn closed_port(&self, routes: &Vec<(String, u16)>) -> (res: Option<u16>)
        ensures
            res == first_closed(self@.registry.ports, keys_of(routes@)),
    {
        let ghost keys = keys_of(routes@);
        let ghost ports = self@.registry.ports;
        let mut i: usize = 0;
        assert(keys.take(0) =~= Seq::empty());
        while i < routes.len()
            invariant
                keys == keys_of(routes@),
                ports == self@.registry.ports,
                i <= routes@.len(),
                first_closed(ports, keys.take(i as int)) is None,
            decreases routes@.len() - i,
        {
            assert(keys.take(i + 1).drop_last() =~= keys.take(i as int));
            let port: u16 = routes[i].1;
            if !self.registry.is_open(port) {
                proof {
                    lemma_first_closed_stays(ports, keys, i + 1);
                }
                return Some(port);
            }
            i = i + 1;
        }
        assert(keys.take(i as int) =~= keys);
        None
    }

    /// Claims routes for an identity in a new session, once their ports are open.
    pub fn bind_routes(&mut self, subdomain: &String, routes: &Vec<(String, u16)>) -> (res:
        BindStep)
        requires
            old(self).wf(),
        ensures
            final(self).wf(),
            final(self)@ == routes_bound(old(self)@, subdomain@, keys_of(routes@)).0,
            res@ == routes_bound(old(self)@, subdomain@, keys_of(routes@)).1,
    {
        if let Some(error) = self.check_claim(subdomain, routes) {
            return BindStep::Refuse(error);
        }
        if let Some(port) = self.closed_port(routes) {
            return BindStep::Open(port);
        }
        if self.registry.is_full() {
            return BindStep::Refuse(ListenError::OutOfSessions);
        }
        proof {
            lemma_all_open(self@.registry, keys_of(routes@));
        }
        let addresses: Vec<String> = route_addresses(routes);
        match self.registry.claim(subdomain.clone(), routes) {
            Some(session) => BindStep::Bound {
                session,
                reply: ServerMessage::Bound { addresses },
            },
            None => BindStep::Refuse(ListenError::InUse),
        }
    }

    /// Ends a session: all of its routes are free again.
    pub fn end_session(&mut self, session: u64)
        requires
            old(self).wf(),
        ensures
            final(self).wf(),
            final(self)@ == session_ended(old(self)@, session),
    {
        self.registry.release(session);
    }

    /// Handles a player who asked for a hostname on a port, after sending `prefix`.
    pub fn handle_player(&mut self, hostname: String, port: u16, prefix: Vec<u8>) -> (res:
        PlayerStep)
        requires
            old(self).wf(),
        ensures
            final(self).wf(),
            admits(old(self)@, final(self)@, res@, hostname@, port, prefix@),
    {
        let ghost before = self@;
        let id: Uuid = if count_pending(&self.conns) < self.max_pending {
            self.fresh_id()
        } else {
            random_uuid()
        };
        let ghost name = hostname@;
        let ghost bytes = prefix@;
        let step: PlayerStep = self.admit_player(id, hostname, port, prefix);
        assert(player_admitted(before, id, name, port, bytes).0 == self@);
        step
    }

    /// Whether a connection with an identifier is pending: it is taken out and put back.
    fn is_pending(&mut self, id: &Uuid) -> (res: bool)
        requires
            old(self).wf(),
        ensures
            final(self).wf(),
            final(self)@ == old(self)@,
            res == old(self)@.pending.contains_key(id@),
    {
        let ghost before = self@;
        match remove_pending(&mut self.conns, id) {
            Some(prefix) => {
                insert_pending(&mut self.conns, *id, prefix);
                assert(self@.pending =~= before.pending);
                true
            },
            None => {
                assert(self@.pending =~= before.pending);
                false
            },
        }
    }

    /// An identifier, drawn at random, under which no connection is pending.
    fn fresh_id(&mut self) -> (res: Uuid)
        requires
            old(self).wf(),
            old(self)@.pending.len() < usize::MAX,
        ensures
            final(self).wf(),
            final(self)@ == old(self)@,
            is_v4(res@),
            !old(self)@.pending.contains_key(res@),
    {
        let ghost before = self@;
        let mut left: u64 = u64::MAX;
        while left > 0
            invariant
                self.wf(),
                self@ == before,
                before == old(self)@,
            decreases left,
        {
            let id: Uuid = random_uuid();
            if !self.is_pending(&id) {
                return id;
            }
            left = left - 1;
        }
        let mut n: u64 = 0;
        let ghost mut tried: Set<Seq<u8>> = Set::empty();
        while n < u64::MAX
            invariant
                self.wf(),
                self@ == before,
                before == old(self)@,
                tried.finite(),
                tried.len() == n,
                tried.subset_of(before.pending.dom()),
                forall|id: Seq<u8>| #[trigger] tried.contains(id) ==> number_in(id) < n,
            decreases u64::MAX - n,
        {
            let id: Uuid = numbered_uuid(n);
            if !self.is_pending(&id) {
                return id;
            }
            proof {
                assert(!tried.contains(id@));
                tried = tried.insert(id@);
            }
            n = n + 1;
        }
        proof {
            self.lemma_wf();
            vstd::set_lib::lemma_len_subset(tried, before.pending.dom());
        }
        numbered_uuid(n)
    }

    /// Holds a player's connection under an identifier for the client that registered
    /// the hostname on the port, or drops it where there is none or too many wait.
    pub fn admit_player(&mut self, id: Uuid, hostname: String, port: u16, prefix: Vec<u8>) -> (res:
        PlayerStep)
        requires
            old(self).wf(),
        ensures
            final(self).wf(),
            final(self)@ == player_admitted(old(self)@, id, hostname@, port, prefix@).0,
            res@ == player_admitted(old(self)@, id, hostname@, port, prefix@).1,
    {
        let route: (String, u16) = (hostname, port);
        match self.registry.owner(&route) {
            Some(session) => {
                if count_pending(&self.conns) >= self.max_pending {
                    self.metrics.pending_full();
                    return PlayerStep::Drop;
                }
                insert_pending(&mut self.conns, id, prefix);
                PlayerStep::Notify {
                    session,
                    id,
                    notice: ServerMessage::Connection { id, hostname: route.0, port },
                }
            },
            None => {
                self.metrics.unknown_host();
                PlayerStep::Drop
            },
        }
    }

    /// Records whether the client of a pending connection was told of it; where it could
    /// not be, the connection is no longer pending.
    pub fn player_notified(&mut self, id: &Uuid, sent: bool)
        requires
            old(self).wf(),
        ensures
            final(self).wf(),
            final(self)@ == client_notified(old(self)@, *id, sent),
    {
        if sent {
            self.metrics.player_connected();
        } else {
            let _prefix: Option<Vec<u8>> = remove_pending(&mut self.conns, id);
        }
    }

    /// Forgets a pending connection whose time is over. Returns whether it was still
    /// pending, so that its player is to be dropped.
    pub fn expire_pending(&mut self, id: &Uuid) -> (res: bool)
        requires
            old(self).wf(),
        ensures
            final(self).wf(),
            final(self)@ == pending_expired(old(self)@, *id),
            res == old(self)@.pending.contains_key(id@),
    {
        let ghost before = self@;
        match remove_pending(&mut self.conns, id) {
            Some(_prefix) => {
                self.metrics.stale_connection();
                true
            },
            None => {
                assert(self@.pending =~= before.pending);
                false
            },
        }
    }

    /// Records that a player's handshake failed, or took too long.
    pub fn handshake_failed(&mut self)
        requires
            old(self).wf(),
        ensures
            final(self).wf(),
            final(self)@ == (ServerView {
                metrics: MetricsView {
                    handshake_failures: plus_one(old(self)@.metrics.handshake_failures),
                    ..old(self)@.metrics
                },
                ..old(self)@
            }),
    {
        self.metrics.handshake_failed();
    }

    /// Records that a player's connection is now spliced onto a client's.
    pub fn begin_splice(&mut self) -> (res: ConnectionGuard)
        requires
            old(self).wf(),
        ensures
            final(self).wf(),
            final(self)@ == (ServerView {
                metrics: with_connection(old(self)@.metrics),
                ..old(self)@
            }),
    {
        self.metrics.connection_guard()
    }

    /// Records that a spliced connection has ended, with the bytes that went each way
    /// where it was closed cleanly.
    pub fn end_splice(&mut self, guard: ConnectionGuard, bytes: Option<(u64, u64)>)
        requires
            old(self).wf(),
        ensures
            final(self).wf(),
            final(self)@ == (ServerView {
                metrics: splice_ended(old(self)@.metrics, bytes),
                ..old(self)@
            }),
    {
        guard.drop(&mut self.metrics);
        if let Some((up, down)) = bytes {
            self.metrics.add_bytes(up);
            self.metrics.add_bytes(down);
        }
    }

    /// All metrics as Prometheus text.
    pub fn render_metrics(&self) -> (res: String)
        requires
            self.wf(),
        ensures
            res@ == rendered(self@),
            res@ == counters_text(self@.metrics) + gauges_text(
                self@.metrics.active_connections,
                self@.identities.len() as u64,
                self@.pending.len() as u64,
                self@.registry.ports.len() as u64,
                self@.registry.routes.len() as u64,
            ),
    {
        self.metrics.render(
            self.store.len() as u64,
            count_pending(&self.conns) as u64,
            self.registry.open_ports() as u64,
            self.registry.active_tunnels() as u64,
        )
    }
}

proof fn lemma_first_closed_stays(ports: Ports, keys: Seq<RouteKey>, n: int)
    requires
        0 <= n <= keys.len(),
        first_closed(ports, keys.take(n)) is Some,
    ensures
        first_closed(ports, keys) == first_closed(ports, keys.take(n)),
    decreases keys.len() - n,
{
    if n < keys.len() {
        assert(keys.take(n + 1).drop_last() =~= keys.take(n));
        lemma_first_closed_stays(ports, keys, n + 1);
    } else {
        assert(keys.take(n) =~= keys);
    }
}

proof fn lemma_all_open(v: RegistryView, keys: Seq<RouteKey>)
    requires
        first_closed(v.ports, keys) is None,
    ensures
        all_open(v, keys),
    decreases keys.len(),
{
    if keys.len() > 0 {
        lemma_all_open(v, keys.drop_last());
        assert forall|i: int| 0 <= i < keys.len() implies v.ports.contains(
            (#[trigger] keys[i]).1,
        ) by {
            if i < keys.len() - 1 {
                assert(keys.drop_last()[i] == keys[i]);
            }
        }
    }
}

/// Nothing of a step on a control connection is lost or changed in what it says.
pub proof fn law_control_step_says_what_it_holds(step: ControlStep)
    ensures
        step matches ControlStep::Persist { subdomain, token } ==> step@ == ControlView::Persist(
            subdomain@,
            token@,
        ),
        step matches ControlStep::Challenge { reply, pending } ==> step@ == ControlView::Challenge(
            reply@,
            pending@,
        ),
        step matches ControlStep::Serve { reply, subdomain } ==> step@ == ControlView::Serve(
            reply@,
            subdomain@,
        ),
        step matches ControlStep::Refuse { reply } ==> step@ == ControlView::Refuse(reply@),
        step matches ControlStep::Splice { prefix } ==> step@ == ControlView::Splice(prefix@),
        step is Close <==> step@ is Close,
{
}

/// Nothing of a step about routes or about a player is lost or changed in what it says.
pub proof fn law_other_steps_say_what_they_hold(
    bind: BindStep,
    event: SessionEvent,
    read: HandshakeStep,
    player: PlayerStep,
)
    ensures
        bind matches BindStep::Open(port) ==> bind@ == BindView::Open(port),
        bind matches BindStep::Bound { session, reply } ==> bind@ == BindView::Bound(
            session,
            reply@,
        ),
        bind matches BindStep::Refuse(error) ==> bind@ == BindView::Refuse(error),
        event matches SessionEvent::Notice(notice) ==> event@ == SessionEventView::Notice(notice@),
        event is Tick <==> event@ is Tick,
        event is Ended <==> event@ is Ended,
        event is SendFailed <==> event@ is SendFailed,
        read matches HandshakeStep::Route(hostname) ==> read@ == HandshakeStepView::Route(
            hostname@,
        ),
        read is ReadMore <==> read@ is ReadMore,
        read matches HandshakeStep::Fail(error) ==> read@ == HandshakeStepView::Fail(error),
        player matches PlayerStep::Notify { session, id, notice } ==> player@
            == PlayerView::Notify(session, id, notice@),
        player is Drop <==> player@ is Drop,
{
}

} // verus!
