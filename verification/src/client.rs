//! The client's state and its decisions.
//!
//! The client runs next to one or more Minecraft servers. It authenticates to the relay
//! (or requests a new identity on first run), claims one or more public routes under its
//! subdomain, and then forwards each incoming connection to the matching local server.
//! All routes are multiplexed over a single control connection; each `Connection`
//! notification names the hostname and the port the player used, so the client knows
//! which local backend to dial.
//!
//! Nothing here does input or output: each function takes what was received and says
//! what to do next.

use vstd::prelude::*;
use vstd::string::*;
use vstd::utf8::encode_utf8;

use crate::address::{address_host, host_of};
use crate::auth::{accepts, answer_text, law_answer_is_accepted, token_key_of, Authenticator};
use crate::crypto::sha256;
use crate::registry::RouteKey;
use crate::shared::{
    server_said, specs_of, ClientMessage, ClientMessageView, RouteSpec, RouteSpecView,
    ServerMessage, ServerMessageView, Uuid,
};
use crate::text::{
    decimal, law_decimal_reads_back, number_read, push_decimal, text_of, texts,
};

verus! {

/// An existing identity to authenticate with: `(subdomain, secret token)`.
pub type Identity = (String, String);

/// What an optional [`Identity`] holds.
pub open spec fn identity_of(identity: Option<Identity>) -> Option<(Seq<char>, Seq<char>)> {
    match identity {
        Some((subdomain, token)) => Some((subdomain@, token@)),
        None => None,
    }
}

/// One route to expose: a public port (and optional sub-label) under the user's
/// subdomain, forwarded to a local backend.
#[derive(Debug)]
pub struct Route {
    /// Optional sub-label, e.g. `survival` in `survival.<you>.tunnel.birdflop.com`.
    pub label: Option<String>,
    /// Public port to expose under the subdomain.
    pub public_port: u16,
    /// Local host to forward this route to.
    pub local_host: String,
    /// Local port to forward this route to.
    pub local_port: u16,
}

/// What a [`Route`] says.
pub struct RouteView {
    /// Optional sub-label.
    pub label: Option<Seq<char>>,
    /// Public port to expose.
    pub public_port: u16,
    /// Local host to forward to.
    pub local_host: Seq<char>,
    /// Local port to forward to.
    pub local_port: u16,
}

impl View for Route {
    type V = RouteView;

    open spec fn view(&self) -> RouteView {
        RouteView {
            label: text_of(self.label),
            public_port: self.public_port,
            local_host: self.local_host@,
            local_port: self.local_port,
        }
    }
}

/// What some routes say.
pub open spec fn routes_of(routes: Seq<Route>) -> Seq<RouteView> {
    Seq::new(routes.len(), |i: int| routes[i]@)
}

/// What to ask the relay for, to expose some routes.
pub open spec fn specs_for(routes: Seq<RouteView>) -> Seq<RouteSpecView> {
    Seq::new(
        routes.len(),
        |i: int| RouteSpecView { port: routes[i].public_port, label: routes[i].label },
    )
}

/// The local backend of each public hostname and port.
pub type Targets = Map<RouteKey, (Seq<char>, u16)>;

/// The backend of each route under the address that the relay gave it; of two routes
/// with one hostname and port the later counts.
pub open spec fn targets_of(routes: Seq<RouteView>, addresses: Seq<Seq<char>>) -> Targets
    decreases routes.len(),
{
    if routes.len() == 0 {
        Map::empty()
    } else {
        targets_of(routes.drop_last(), addresses.drop_last()).insert(
            (host_of(addresses.last()), routes.last().public_port),
            (routes.last().local_host, routes.last().local_port),
        )
    }
}

/// Why a client could not be set up.
#[derive(Debug)]
pub enum ClientError {
    /// There is no route to expose.
    NoRoutes,
    /// The relay told of an error.
    Server(String),
    /// The relay refused the answer to its challenge.
    AuthenticationFailed(String),
    /// The relay answered the request to authenticate with something else.
    UnexpectedChallenge,
    /// The relay answered the answer to its challenge with something else.
    UnexpectedResult,
    /// The relay hung up during authentication.
    AuthenticationEof,
    /// The relay answered the request for an identity with something else.
    UnexpectedIssue,
    /// The relay hung up during registration.
    RegistrationEof,
    /// The relay answered the request for routes with something else.
    UnexpectedBound,
    /// The relay hung up after the request for routes.
    ListenEof,
    /// The relay gave a wrong number of addresses.
    AddressCount {
        /// How many it gave.
        addresses: usize,
        /// How many routes there are.
        routes: usize,
    },
}

/// The text that says why a client could not be set up.
pub open spec fn client_error_text(error: ClientError) -> Seq<char> {
    match error {
        ClientError::NoRoutes => "at least one route is required"@,
        ClientError::Server(message) => "server error: "@ + message@,
        ClientError::AuthenticationFailed(message) => "authentication failed: "@ + message@,
        ClientError::UnexpectedChallenge => "unexpected response to authenticate"@,
        ClientError::UnexpectedResult => "unexpected authentication result"@,
        ClientError::AuthenticationEof => "unexpected EOF during authentication"@,
        ClientError::UnexpectedIssue => "unexpected response to register"@,
        ClientError::RegistrationEof => "unexpected EOF during registration"@,
        ClientError::UnexpectedBound => "unexpected response to listen"@,
        ClientError::ListenEof => "unexpected EOF after listen"@,
        ClientError::AddressCount { addresses, routes } => "relay returned "@ + decimal(
            addresses as nat,
        ) + " addresses for "@ + decimal(routes as nat) + " routes"@,
    }
}

impl ClientError {
    /// The text that says why a client could not be set up.
    pub fn message(&self) -> (res: String)
        ensures
            res@ == client_error_text(*self),
    {
        match self {
            ClientError::NoRoutes => "at least one route is required".to_string(),
            ClientError::Server(message) => {
                let mut out: String = "server error: ".to_string();
                out.append(message.as_str());
                out
            },
            ClientError::AuthenticationFailed(message) => {
                let mut out: String = "authentication failed: ".to_string();
                out.append(message.as_str());
                out
            },
            ClientError::UnexpectedChallenge => "unexpected response to authenticate".to_string(),
            ClientError::UnexpectedResult => "unexpected authentication result".to_string(),
            ClientError::AuthenticationEof => "unexpected EOF during authentication".to_string(),
            ClientError::UnexpectedIssue => "unexpected response to register".to_string(),
            ClientError::RegistrationEof => "unexpected EOF during registration".to_string(),
            ClientError::UnexpectedBound => "unexpected response to listen".to_string(),
            ClientError::ListenEof => "unexpected EOF after listen".to_string(),
            ClientError::AddressCount { addresses, routes } => {
                let mut out: String = "relay returned ".to_string();
                push_decimal(&mut out, *addresses as u64);
                out.append(" addresses for ");
                push_decimal(&mut out, *routes as u64);
                out.append(" routes");
                out
            },
        }
    }
}

/// What a client that is being set up waits for.
#[derive(Debug)]
enum Stage {
    /// The challenge of the relay, to be answered with the token.
    Challenge {
        /// The secret token.
        token: String,
    },
    /// Whether the relay took the answer.
    Result,
    /// A new identity.
    Issue,
    /// The addresses of the routes.
    Bound,
}

/// What a client that is being set up waits for.
pub enum StageView {
    /// Waits for a challenge, to be answered with a token.
    Challenge(Seq<char>),
    /// Waits for the outcome of the authentication.
    Result,
    /// Waits for a new identity.
    Issue,
    /// Waits for addresses.
    Bound,
}

impl View for Stage {
    type V = StageView;

    closed spec fn view(&self) -> StageView {
        match self {
            Stage::Challenge { token } => StageView::Challenge(token@),
            Stage::Result => StageView::Result,
            Stage::Issue => StageView::Issue,
            Stage::Bound => StageView::Bound,
        }
    }
}

/// A client that is being set up.
#[derive(Debug)]
pub struct Enrollment {
    to: String,
    control_port: u16,
    routes: Vec<Route>,
    issued: Option<Identity>,
    stage: Stage,
}

/// What an [`Enrollment`] holds.
pub struct EnrollmentView {
    /// Relay host.
    pub to: Seq<char>,
    /// Relay control port.
    pub control_port: u16,
    /// The routes to expose.
    pub routes: Seq<RouteView>,
    /// A newly issued identity, if there is one.
    pub issued: Option<(Seq<char>, Seq<char>)>,
    /// What it waits for.
    pub stage: StageView,
}

impl View for Enrollment {
    type V = EnrollmentView;

    closed spec fn view(&self) -> EnrollmentView {
        EnrollmentView {
            to: self.to@,
            control_port: self.control_port,
            routes: routes_of(self.routes@),
            issued: identity_of(self.issued),
            stage: self.stage@,
        }
    }
}

/// State structure for the client.
pub struct Client {
    to: String,
    control_port: u16,
    targets: Vec<((String, u16), (String, u16))>,
    addresses: Vec<String>,
    issued: Option<Identity>,
}

/// What a [`Client`] holds.
pub struct ClientView {
    /// Relay host.
    pub to: Seq<char>,
    /// Relay control port.
    pub control_port: u16,
    /// The local backend of each public hostname and port.
    pub targets: Targets,
    /// Public addresses players connect to, one per registered route.
    pub addresses: Seq<Seq<char>>,
    /// A newly issued identity, if one was created.
    pub issued: Option<(Seq<char>, Seq<char>)>,
}

spec fn entries_map(entries: Seq<((String, u16), (String, u16))>) -> Targets
    decreases entries.len(),
{
    if entries.len() == 0 {
        Map::empty()
    } else {
        let last = entries.last();
        entries_map(entries.drop_last()).insert(
            (last.0.0@, last.0.1),
            (last.1.0@, last.1.1),
        )
    }
}

impl View for Client {
    type V = ClientView;

    closed spec fn view(&self) -> ClientView {
        ClientView {
            to: self.to@,
            control_port: self.control_port,
            targets: entries_map(self.targets@),
            addresses: texts(self.addresses@),
            issued: identity_of(self.issued),
        }
    }
}

/// What to do next while a client is being set up.
pub enum EnrollStep {
    /// Send the message and hand the reply to [`Enrollment::receive`].
    Send {
        /// What to send.
        message: ClientMessage,
        /// The client as it is now.
        next: Enrollment,
    },
    /// The client is set up.
    Done(Client),
    /// The client cannot be set up.
    Fail(ClientError),
}

/// What an [`EnrollStep`] says.
pub enum EnrollView {
    /// Send a message and wait.
    Send(ClientMessageView, EnrollmentView),
    /// The client is set up.
    Done(ClientView),
    /// The client cannot be set up; the text says why.
    Fail(Seq<char>),
}

impl View for EnrollStep {
    type V = EnrollView;

    open spec fn view(&self) -> EnrollView {
        match self {
            EnrollStep::Send { message, next } => EnrollView::Send(message@, next@),
            EnrollStep::Done(client) => EnrollView::Done(client@),
            EnrollStep::Fail(error) => EnrollView::Fail(client_error_text(*error)),
        }
    }
}

/// The first step of a client: it needs a route, and names its identity or asks for one.
pub open spec fn enroll_begun(
    to: Seq<char>,
    control_port: u16,
    routes: Seq<RouteView>,
    identity: Option<(Seq<char>, Seq<char>)>,
) -> EnrollView {
    if routes.len() == 0 {
        EnrollView::Fail("at least one route is required"@)
    } else {
        match identity {
            Some((subdomain, token)) => EnrollView::Send(
                ClientMessageView::Authenticate(subdomain),
                EnrollmentView {
                    to,
                    control_port,
                    routes,
                    issued: None,
                    stage: StageView::Challenge(token),
                },
            ),
            None => EnrollView::Send(
                ClientMessageView::Register,
                EnrollmentView {
                    to,
                    control_port,
                    routes,
                    issued: None,
                    stage: StageView::Issue,
                },
            ),
        }
    }
}

/// The step that asks for the routes.
pub open spec fn listen_asked(e: EnrollmentView) -> EnrollView {
    EnrollView::Send(
        ClientMessageView::Listen(specs_for(e.routes)),
        EnrollmentView { stage: StageView::Bound, ..e },
    )
}

/// The step after a client with routes was given their addresses.
pub open spec fn addresses_given(e: EnrollmentView, addresses: Seq<Seq<char>>) -> EnrollView {
    if addresses.len() != e.routes.len() {
        EnrollView::Fail(
            "relay returned "@ + decimal(addresses.len()) + " addresses for "@ + decimal(
                e.routes.len(),
            ) + " routes"@,
        )
    } else {
        EnrollView::Done(
            ClientView {
                to: e.to,
                control_port: e.control_port,
                targets: targets_of(e.routes, addresses),
                addresses,
                issued: e.issued,
            },
        )
    }
}

/// The step after a client that is being set up has received something, or nothing.
pub open spec fn enroll_received(e: EnrollmentView, said: Option<ServerMessageView>) -> EnrollView {
    match e.stage {
        StageView::Challenge(token) => match said {
            Some(ServerMessageView::Challenge(challenge)) => EnrollView::Send(
                ClientMessageView::Answer(answer_text(token_key_of(token), challenge@)),
                EnrollmentView { stage: StageView::Result, ..e },
            ),
            Some(ServerMessageView::Error(message)) => EnrollView::Fail(
                "server error: "@ + message,
            ),
            Some(_) => EnrollView::Fail("unexpected response to authenticate"@),
            None => EnrollView::Fail("unexpected EOF during authentication"@),
        },
        StageView::Result => match said {
            Some(ServerMessageView::Authenticated) => listen_asked(e),
            Some(ServerMessageView::Error(message)) => EnrollView::Fail(
                "authentication failed: "@ + message,
            ),
            Some(_) => EnrollView::Fail("unexpected authentication result"@),
            None => EnrollView::Fail("unexpected EOF during authentication"@),
        },
        StageView::Issue => match said {
            Some(ServerMessageView::Issued(subdomain, token)) => listen_asked(
                EnrollmentView { issued: Some((subdomain, token)), ..e },
            ),
            Some(ServerMessageView::Error(message)) => EnrollView::Fail(
                "server error: "@ + message,
            ),
            Some(_) => EnrollView::Fail("unexpected response to register"@),
            None => EnrollView::Fail("unexpected EOF during registration"@),
        },
        StageView::Bound => match said {
            Some(ServerMessageView::Bound(addresses)) => addresses_given(e, addresses),
            Some(ServerMessageView::Error(message)) => EnrollView::Fail(
                "server error: "@ + message,
            ),
            Some(_) => EnrollView::Fail("unexpected response to listen"@),
            None => EnrollView::Fail("unexpected EOF after listen"@),
        },
    }
}

/// What to do next once a client is set up.
pub enum ClientStep {
    /// Wait for the next message.
    Wait,
    /// Open a stream to the relay, send the message on it, and splice it onto a
    /// connection to the local backend.
    Proxy {
        /// What to send.
        accept: ClientMessage,
        /// Local host.
        host: String,
        /// Local port.
        port: u16,
    },
    /// Leave a connection: no local backend is registered for its route.
    NoBackend,
    /// Tell the user what the relay said, and wait.
    Report(String),
    /// Tell the user of an unexpected message, and wait.
    Unexpected,
    /// The relay has disconnected.
    Stop,
}

/// What a [`ClientStep`] says.
pub enum ClientStepView {
    /// Wait.
    Wait,
    /// Accept a connection for a local backend.
    Proxy(ClientMessageView, Seq<char>, u16),
    /// Leave a connection.
    NoBackend,
    /// Tell the user of an error.
    Report(Seq<char>),
    /// Tell the user of an unexpected message.
    Unexpected,
    /// The relay has disconnected.
    Stop,
}

impl View for ClientStep {
    type V = ClientStepView;

    open spec fn view(&self) -> ClientStepView {
        match self {
            ClientStep::Wait => ClientStepView::Wait,
            ClientStep::Proxy { accept, host, port } => ClientStepView::Proxy(
                accept@,
                host@,
                *port,
            ),
            ClientStep::NoBackend => ClientStepView::NoBackend,
            ClientStep::Report(message) => ClientStepView::Report(message@),
            ClientStep::Unexpected => ClientStepView::Unexpected,
            ClientStep::Stop => ClientStepView::Stop,
        }
    }
}

/// What a client does about a player.
pub open spec fn connection_handled(
    targets: Targets,
    id: Uuid,
    hostname: Seq<char>,
    port: u16,
) -> ClientStepView {
    match targets.get((hostname, port)) {
        Some((local_host, local_port)) => ClientStepView::Proxy(
            ClientMessageView::Accept(id),
            local_host,
            local_port,
        ),
        None => ClientStepView::NoBackend,
    }
}

/// What a client does once it has received something, or nothing more will come.
pub open spec fn client_received(
    targets: Targets,
    said: Option<ServerMessageView>,
) -> ClientStepView {
    match said {
        Some(ServerMessageView::Heartbeat) => ClientStepView::Wait,
        Some(ServerMessageView::Connection(id, hostname, port)) => connection_handled(
            targets,
            id,
            hostname,
            port,
        ),
        Some(ServerMessageView::Error(message)) => ClientStepView::Report(message),
        Some(_) => ClientStepView::Unexpected,
        None => ClientStepView::Stop,
    }
}

/// The specs to ask the relay for.
fn route_specs(routes: &Vec<Route>) -> (res: Vec<RouteSpec>)
    ensures
        specs_of(res@) == specs_for(routes_of(routes@)),
{
    let mut out: Vec<RouteSpec> = Vec::new();
    let mut i: usize = 0;
    while i < routes.len()
        invariant
            i <= routes@.len(),
            out@.len() == i,
            forall|j: int|
                0 <= j < i ==> (#[trigger] out@[j])@ == (RouteSpecView {
                    port: routes@[j].public_port,
                    label: text_of(routes@[j].label),
                }),
        decreases routes@.len() - i,
    {
        let label: Option<String> = match &routes[i].label {
            Some(label) => Some(label.clone()),
            None => None,
        };
        out.push(RouteSpec { port: routes[i].public_port, label });
        i = i + 1;
    }
    assert(specs_of(out@) =~= specs_for(routes_of(routes@)));
    out
}

impl Enrollment {
    /// Asks for the routes.
    fn ask_to_listen(self) -> (res: EnrollStep)
        ensures
            res@ == listen_asked(self@),
    {
        let specs: Vec<RouteSpec> = route_specs(&self.routes);
        EnrollStep::Send {
            message: ClientMessage::Listen { routes: specs },
            next: Enrollment {
                to: self.to,
                control_port: self.control_port,
                routes: self.routes,
                issued: self.issued,
                stage: Stage::Bound,
            },
        }
    }

    /// Sets the client up with the addresses of its routes.
    fn finish(self, addresses: Vec<String>) -> (res: EnrollStep)
        ensures
            res@ == addresses_given(self@, texts(addresses@)),
    {
        if addresses.len() != self.routes.len() {
            return EnrollStep::Fail(
                ClientError::AddressCount {
                    addresses: addresses.len(),
                    routes: self.routes.len(),
                },
            );
        }
        let ghost routes = routes_of(self.routes@);
        let ghost given = texts(addresses@);
        let mut targets: Vec<((String, u16), (String, u16))> = Vec::new();
        let mut i: usize = 0;
        while i < addresses.len()
            invariant
                routes == routes_of(self.routes@),
                given == texts(addresses@),
                i <= addresses@.len(),
                addresses@.len() == self.routes@.len(),
                entries_map(targets@) == targets_of(routes.take(i as int), given.take(i as int)),
            decreases addresses@.len() - i,
        {
            let route: &Route = &self.routes[i];
            let hostname: String = address_host(addresses[i].as_str());
            let entry: ((String, u16), (String, u16)) = (
                (hostname, route.public_port),
                (route.local_host.clone(), route.local_port),
            );
            let ghost before = targets@;
            targets.push(entry);
            proof {
                assert(targets@.drop_last() =~= before);
                assert(routes.take(i + 1).drop_last() =~= routes.take(i as int));
                assert(given.take(i + 1).drop_last() =~= given.take(i as int));
                assert(routes.take(i + 1).last() == route@);
                assert(given.take(i + 1).last() == addresses@[i as int]@);
            }
            i = i + 1;
        }
        assert(routes.take(i as int) =~= routes);
        assert(given.take(i as int) =~= given);
        EnrollStep::Done(
            Client {
                to: self.to,
                control_port: self.control_port,
                targets,
                addresses,
                issued: self.issued,
            },
        )
    }

    /// Handles the relay's reply to what was sent last; `None` where it hung up.
    pub fn receive(self, message: Option<ServerMessage>) -> (res: EnrollStep)
        ensures
            res@ == enroll_received(self@, server_said(message)),
    {
        match &self.stage {
            Stage::Challenge { token } => match message {
                Some(ServerMessage::Challenge(challenge)) => {
                    let auth: Authenticator = Authenticator::new(token.as_str());
                    EnrollStep::Send {
                        message: ClientMessage::Answer(auth.answer(&challenge)),
                        next: Enrollment {
                            to: self.to,
                            control_port: self.control_port,
                            routes: self.routes,
                            issued: self.issued,
                            stage: Stage::Result,
                        },
                    }
                },
                Some(ServerMessage::Error(text)) => EnrollStep::Fail(ClientError::Server(text)),
                Some(_) => EnrollStep::Fail(ClientError::UnexpectedChallenge),
                None => EnrollStep::Fail(ClientError::AuthenticationEof),
            },
            Stage::Result => match message {
                Some(ServerMessage::Authenticated) => self.ask_to_listen(),
                Some(ServerMessage::Error(text)) => EnrollStep::Fail(
                    ClientError::AuthenticationFailed(text),
                ),
                Some(_) => EnrollStep::Fail(ClientError::UnexpectedResult),
                None => EnrollStep::Fail(ClientError::AuthenticationEof),
            },
            Stage::Issue => match message {
                Some(ServerMessage::Issued { subdomain, token }) => {
                    let named: Enrollment = Enrollment {
                        to: self.to,
                        control_port: self.control_port,
                        routes: self.routes,
                        issued: Some((subdomain, token)),
                        stage: Stage::Issue,
                    };
                    named.ask_to_listen()
                },
                Some(ServerMessage::Error(text)) => EnrollStep::Fail(ClientError::Server(text)),
                Some(_) => EnrollStep::Fail(ClientError::UnexpectedIssue),
                None => EnrollStep::Fail(ClientError::RegistrationEof),
            },
            Stage::Bound => match message {
                Some(ServerMessage::Bound { addresses }) => self.finish(addresses),
                Some(ServerMessage::Error(text)) => EnrollStep::Fail(ClientError::Server(text)),
                Some(_) => EnrollStep::Fail(ClientError::UnexpectedBound),
                None => EnrollStep::Fail(ClientError::ListenEof),
            },
        }
    }
}

impl Client {
    /// Begins to set up a client that registers one or more routes.
    ///
    /// If `identity` is `Some`, the client authenticates as that subdomain; otherwise it
    /// requests a brand-new identity from the relay.
    pub fn new(to: String, control_port: u16, routes: Vec<Route>, identity: Option<Identity>) -> (
    res: EnrollStep)
        ensures
            res@ == enroll_begun(to@, control_port, routes_of(routes@), identity_of(identity)),
    {
        if routes.len() == 0 {
            return EnrollStep::Fail(ClientError::NoRoutes);
        }
        match identity {
            Some((subdomain, token)) => EnrollStep::Send {
                message: ClientMessage::Authenticate(subdomain),
                next: Enrollment {
                    to,
                    control_port,
                    routes,
                    issued: None,
                    stage: Stage::Challenge { token },
                },
            },
            None => EnrollStep::Send {
                message: ClientMessage::Register,
                next: Enrollment {
                    to,
                    control_port,
                    routes,
                    issued: None,
                    stage: Stage::Issue,
                },
            },
        }
    }

    /// The public addresses players connect to, one per registered route.
    pub fn addresses(&self) -> (res: &[String])
        ensures
            texts(res@) == self@.addresses,
    {
        self.addresses.as_slice()
    }

    /// An identity newly issued while the client was set up, if any (subdomain, token).
    pub fn issued(&self) -> (res: Option<&Identity>)
        ensures
            self@.issued == match res {
                Some(identity) => Some((identity.0@, identity.1@)),
                None => None,
            },
    {
        self.issued.as_ref()
    }

    /// The host and the control port of the relay.
    pub fn relay(&self) -> (res: (&str, u16))
        ensures
            res.0@ == self@.to,
            res.1 == self@.control_port,
    {
        (self.to.as_str(), self.control_port)
    }

    /// Handles a message on the control connection; `None` where the relay hung up.
    pub fn listen(&self, message: Option<ServerMessage>) -> (res: ClientStep)
        ensures
            res@ == client_received(self@.targets, server_said(message)),
    {
        match message {
            Some(ServerMessage::Heartbeat) => ClientStep::Wait,
            Some(ServerMessage::Connection { id, hostname, port }) => self.handle_connection(
                id,
                hostname.as_str(),
                port,
            ),
            Some(ServerMessage::Error(text)) => ClientStep::Report(text),
            Some(_) => ClientStep::Unexpected,
            None => ClientStep::Stop,
        }
    }

    /// What to do about a player who used a hostname and a port.
    pub fn handle_connection(&self, id: Uuid, hostname: &str, port: u16) -> (res: ClientStep)
        ensures
            res@ == connection_handled(self@.targets, id, hostname@, port),
    {
        let ghost all = self.targets@;
        let ghost key = (hostname@, port);
        let wanted: String = hostname.to_string();
        let mut i: usize = self.targets.len();
        assert(all.take(i as int) =~= all);
        while i > 0
            invariant
                i <= all.len(),
                all == self.targets@,
                wanted@ == hostname@,
                key == (hostname@, port),
                entries_map(all).get(key) == entries_map(all.take(i as int)).get(key),
            decreases i,
        {
            i = i - 1;
            assert(all.take(i + 1).drop_last() =~= all.take(i as int));
            let entry: &((String, u16), (String, u16)) = &self.targets[i];
            if entry.0.1 == port && entry.0.0 == wanted {
                return ClientStep::Proxy {
                    accept: ClientMessage::Accept(id),
                    host: entry.1.0.clone(),
                    port: entry.1.1,
                };
            }
        }
        ClientStep::NoBackend
    }
}

/// The token never crosses the wire: a client first names its subdomain alone, and all
/// that it sends later depends on the token's hash alone.
pub proof fn law_token_is_not_sent(
    to: Seq<char>,
    control_port: u16,
    routes: Seq<RouteView>,
    subdomain: Seq<char>,
    token: Seq<char>,
    other: Seq<char>,
    said: Option<ServerMessageView>,
)
    requires
        routes.len() > 0,
        token_key_of(token) == token_key_of(other),
    ensures
        ({
            let first = enroll_begun(to, control_port, routes, Some((subdomain, token)));
            let first_of_other = enroll_begun(to, control_port, routes, Some((subdomain, other)));
            &&& first is Send
            &&& first->Send_0 == ClientMessageView::Authenticate(subdomain)
            &&& enroll_received(first->Send_1, said) == enroll_received(
                first_of_other->Send_1,
                said,
            )
        }),
{
}

/// A client begins with a route or not at all: it names the identity it was given, or asks
/// for one where it was given none, and remembers its relay, its routes and its token.
pub proof fn law_enrollment_begins(
    to: Seq<char>,
    control_port: u16,
    routes: Seq<RouteView>,
    identity: Option<(Seq<char>, Seq<char>)>,
)
    ensures
        ({
            let first = enroll_begun(to, control_port, routes, identity);
            &&& routes.len() == 0 ==> first == EnrollView::Fail("at least one route is required"@)
            &&& routes.len() > 0 ==> {
                &&& first is Send
                &&& first->Send_1.to == to
                &&& first->Send_1.control_port == control_port
                &&& first->Send_1.routes == routes
                &&& first->Send_1.issued is None
                &&& match identity {
                    Some((subdomain, token)) => {
                        &&& first->Send_0 == ClientMessageView::Authenticate(subdomain)
                        &&& first->Send_1.stage == StageView::Challenge(token)
                    },
                    None => {
                        &&& first->Send_0 == ClientMessageView::Register
                        &&& first->Send_1.stage == StageView::Issue
                    },
                }
            }
        }),
{
}

/// What the relay expects next is what a client sends: an answer that holds under the
/// SHA-256 of the token's bytes to a challenge; and, once it is authenticated or has an
/// identity, a request for each of its routes, in order, by public port and label.
pub proof fn law_enrollment_goes_on(
    e: EnrollmentView,
    challenge: Uuid,
    subdomain: Seq<char>,
    token: Seq<char>,
)
    ensures
        e.stage matches StageView::Challenge(secret) ==> {
            let step = enroll_received(e, Some(ServerMessageView::Challenge(challenge)));
            &&& step is Send
            &&& step->Send_0 is Answer
            &&& accepts(sha256(encode_utf8(secret)), challenge@, step->Send_0->Answer_0)
            &&& step->Send_1 == (EnrollmentView { stage: StageView::Result, ..e })
        },
        e.stage == StageView::Result ==> {
            let step = enroll_received(e, Some(ServerMessageView::Authenticated));
            &&& step is Send
            &&& step->Send_0 is Listen
            &&& asks_for(step->Send_0->Listen_0, e.routes)
            &&& step->Send_1 == (EnrollmentView { stage: StageView::Bound, ..e })
        },
        e.stage == StageView::Issue ==> {
            let step = enroll_received(e, Some(ServerMessageView::Issued(subdomain, token)));
            &&& step is Send
            &&& step->Send_0 is Listen
            &&& asks_for(step->Send_0->Listen_0, e.routes)
            &&& step->Send_1 == (EnrollmentView {
                stage: StageView::Bound,
                issued: Some((subdomain, token)),
                ..e
            })
        },
{
    if let StageView::Challenge(secret) = e.stage {
        law_answer_is_accepted(token_key_of(secret), challenge@);
    }
}

/// Whether some specs ask for some routes, each by its public port and its label.
pub open spec fn asks_for(specs: Seq<RouteSpecView>, routes: Seq<RouteView>) -> bool {
    &&& specs.len() == routes.len()
    &&& forall|i: int|
        0 <= i < routes.len() ==> (#[trigger] specs[i]).port == routes[i].public_port
            && specs[i].label == routes[i].label
}

/// A client is set up exactly where it waits for addresses and is given one for each route.
/// It then has these addresses, and the relay and the identity it had before.
pub proof fn law_enrollment_ends(e: EnrollmentView, said: Option<ServerMessageView>)
    ensures
        enroll_received(e, said) is Done <==> e.stage == StageView::Bound && said is Some
            && said->Some_0 is Bound && said->Some_0->Bound_0.len() == e.routes.len(),
        enroll_received(e, said) matches EnrollView::Done(client) ==> {
            &&& client.to == e.to
            &&& client.control_port == e.control_port
            &&& client.addresses == said->Some_0->Bound_0
            &&& client.issued == e.issued
        },
{
}

/// A client that is told of an error fails with the words of the relay at the end.
pub proof fn law_error_is_passed_on(e: EnrollmentView, message: Seq<char>)
    ensures
        ({
            let step = enroll_received(e, Some(ServerMessageView::Error(message)));
            let before = if e.stage == StageView::Result {
                "authentication failed: "@
            } else {
                "server error: "@
            };
            &&& step is Fail
            &&& step->Fail_0.take(before.len() as int) == before
            &&& step->Fail_0.skip(before.len() as int) == message
        }),
{
    let step = enroll_received(e, Some(ServerMessageView::Error(message)));
    let before = if e.stage == StageView::Result {
        "authentication failed: "@
    } else {
        "server error: "@
    };
    assert(step->Fail_0 == before + message);
    assert((before + message).take(before.len() as int) =~= before);
    assert((before + message).skip(before.len() as int) =~= message);
}

/// A client does not go on with anything but what it waits for.
pub proof fn law_nothing_else_is_accepted(e: EnrollmentView, said: Option<ServerMessageView>)
    requires
        !(e.stage is Challenge && said is Some && said->Some_0 is Challenge),
        !(e.stage is Result && said is Some && said->Some_0 is Authenticated),
        !(e.stage is Issue && said is Some && said->Some_0 is Issued),
        !(e.stage is Bound && said is Some && said->Some_0 is Bound),
    ensures
        enroll_received(e, said) is Fail,
        said is None ==> enroll_received(e, said)->Fail_0 == (match e.stage {
            StageView::Challenge(_) => "unexpected EOF during authentication"@,
            StageView::Result => "unexpected EOF during authentication"@,
            StageView::Issue => "unexpected EOF during registration"@,
            StageView::Bound => "unexpected EOF after listen"@,
        }),
        said is Some && said->Some_0 !is Error ==> enroll_received(e, said)->Fail_0 == (
        match e.stage {
            StageView::Challenge(_) => "unexpected response to authenticate"@,
            StageView::Result => "unexpected authentication result"@,
            StageView::Issue => "unexpected response to register"@,
            StageView::Bound => "unexpected response to listen"@,
        }),
{
}

/// A client that is given a wrong number of addresses says how many it was given, and for
/// how many routes.
pub proof fn law_address_count_is_told(e: EnrollmentView, addresses: Seq<Seq<char>>)
    requires
        addresses.len() != e.routes.len(),
    ensures
        ({
            let step = addresses_given(e, addresses);
            let n = 15 + decimal(addresses.len()).len() as int;
            &&& step is Fail
            &&& step->Fail_0.take(15) == "relay returned "@
            &&& number_read(step->Fail_0.subrange(15, n)) == addresses.len()
            &&& step->Fail_0.subrange(n, n + 15) == " addresses for "@
            &&& number_read(step->Fail_0.subrange(n + 15, step->Fail_0.len() - 7))
                == e.routes.len()
            &&& step->Fail_0.skip(step->Fail_0.len() - 7) == " routes"@
        }),
{
    reveal_strlit("relay returned ");
    reveal_strlit(" addresses for ");
    reveal_strlit(" routes");
    law_decimal_reads_back(addresses.len());
    law_decimal_reads_back(e.routes.len());
    let text = addresses_given(e, addresses)->Fail_0;
    let given = decimal(addresses.len());
    let wanted = decimal(e.routes.len());
    let n = 15 + given.len() as int;
    assert(text.len() == n + 15 + wanted.len() + 7);
    assert(text.take(15) =~= "relay returned "@);
    assert(text.subrange(15, n) =~= given);
    assert(text.subrange(n, n + 15) =~= " addresses for "@);
    assert(text.subrange(n + 15, text.len() - 7) =~= wanted);
    assert(text.skip(text.len() - 7) =~= " routes"@);
}

/// Whether the route at some place was given an address under a hostname on a port.
pub open spec fn named_at(
    routes: Seq<RouteView>,
    addresses: Seq<Seq<char>>,
    key: RouteKey,
    i: int,
) -> bool {
    0 <= i < routes.len() && host_of(addresses[i]) == key.0 && routes[i].public_port == key.1
}

/// The backend of a hostname and a port is that of the last route which was given them, and
/// there is none where no route was.
pub proof fn law_backend_is_of_last_route(
    routes: Seq<RouteView>,
    addresses: Seq<Seq<char>>,
    key: RouteKey,
    i: int,
)
    requires
        addresses.len() == routes.len(),
    ensures
        named_at(routes, addresses, key, i) && (forall|j: int|
            i < j < routes.len() ==> !(#[trigger] named_at(routes, addresses, key, j)))
            ==> targets_of(routes, addresses).get(key) == Some(
            (routes[i].local_host, routes[i].local_port),
        ),
        (forall|j: int| !(#[trigger] named_at(routes, addresses, key, j))) ==> !targets_of(
            routes,
            addresses,
        ).contains_key(key),
    decreases routes.len(),
{
    if routes.len() > 0 {
        let n = routes.len() - 1;
        let routes1 = routes.drop_last();
        let addresses1 = addresses.drop_last();
        law_backend_is_of_last_route(routes1, addresses1, key, i);
        assert forall|j: int| 0 <= j < n implies (#[trigger] named_at(routes, addresses, key, j)
            <==> named_at(routes1, addresses1, key, j)) by {
            assert(routes1[j] == routes[j] && addresses1[j] == addresses[j]);
        }
        assert(named_at(routes, addresses, key, n) <==> (host_of(addresses.last()) == key.0
            && routes.last().public_port == key.1));
        if named_at(routes, addresses, key, i) && (forall|j: int|
            i < j < routes.len() ==> !(#[trigger] named_at(routes, addresses, key, j))) {
            if i < n {
                assert(!named_at(routes, addresses, key, n));
                assert forall|j: int| i < j < routes1.len() implies !(#[trigger] named_at(
                    routes1,
                    addresses1,
                    key,
                    j,
                )) by {
                    assert(!named_at(routes, addresses, key, j));
                }
                assert(routes1[i] == routes[i]);
            }
        }
        if forall|j: int| !(#[trigger] named_at(routes, addresses, key, j)) {
            assert(!named_at(routes, addresses, key, n));
            assert forall|j: int| !(#[trigger] named_at(routes1, addresses1, key, j)) by {
                if 0 <= j < n {
                    assert(!named_at(routes, addresses, key, j));
                }
            }
        }
    }
}

/// A client that is set up accepts the players of routes it has a backend for, by the very
/// identifier it was told, and no others. It waits after a heartbeat, reports errors in the
/// words of the relay, and stops when the relay is gone and only then.
pub proof fn law_client_serves_players(targets: Targets, said: Option<ServerMessageView>)
    ensures
        client_received(targets, said) is Stop <==> said is None,
        client_received(targets, said) is Wait <==> said == Some(ServerMessageView::Heartbeat),
        said matches Some(ServerMessageView::Error(message)) ==> client_received(targets, said)
            == ClientStepView::Report(message),
        said matches Some(ServerMessageView::Connection(id, hostname, port)) ==> {
            let step = client_received(targets, said);
            &&& step is Proxy <==> targets.contains_key((hostname, port))
            &&& step !is Proxy ==> step is NoBackend
            &&& step is Proxy ==> {
                &&& step->Proxy_0 == ClientMessageView::Accept(id)
                &&& (step->Proxy_1, step->Proxy_2) == targets[(hostname, port)]
            }
        },
        client_received(targets, said) is Proxy || client_received(targets, said) is NoBackend
            ==> said is Some && said->Some_0 is Connection,
{
}

/// Nothing of a route is lost or changed in what it says, and some routes say what each of
/// them says, in order.
pub proof fn law_route_says_what_it_holds(routes: Seq<Route>, i: int)
    requires
        0 <= i < routes.len(),
    ensures
        routes_of(routes).len() == routes.len(),
        routes_of(routes)[i].public_port == routes[i].public_port,
        routes_of(routes)[i].local_host == routes[i].local_host@,
        routes_of(routes)[i].local_port == routes[i].local_port,
        match routes[i].label {
            Some(label) => routes_of(routes)[i].label == Some(label@),
            None => routes_of(routes)[i].label is None,
        },
{
}

/// An identity is its subdomain and its token, in this order.
pub proof fn law_identity_says_what_it_holds(identity: Identity)
    ensures
        identity_of(Some(identity)) is Some,
        identity_of(Some(identity))->Some_0.0 == identity.0@,
        identity_of(Some(identity))->Some_0.1 == identity.1@,
        identity_of(None) is None,
{
}

} // verus!
