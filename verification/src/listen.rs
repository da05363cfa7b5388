//! What a client may listen on: the checks on a request for routes, and the hostnames
//! and addresses that an accepted request stands for.

use std::ops::RangeInclusive;
use vstd::prelude::*;
use vstd::std_specs::range::RangeInclusiveView;
use vstd::string::*;

use crate::address::{
    address_of, free_of, host_of, hostname_of, law_address_names_port, port_read, public_address,
    route_hostname,
};
use crate::registry::{keys_of, RouteKey};
use crate::shared::{
    client_said, is_valid_label, specs_of, valid_label, ClientMessage, ClientMessageView, RouteSpec,
    RouteSpecView, MIN_USER_PORT,
};
use crate::text::{decimal, law_decimal_reads_back, number_read, push_decimal, texts};

verus! {

/// The ports that clients may claim.
pub type PortRange = RangeInclusiveView<u16>;

/// Whether clients may claim a port.
pub open spec fn in_range(ports: PortRange, port: u16) -> bool {
    ports.start <= port && (port < ports.end || port == ports.end && !ports.exhausted)
}

/// Why a request for routes is refused.
#[derive(Debug, Clone, Copy, PartialEq, Eq, Structural)]
pub enum ListenError {
    /// The message was no request for routes.
    NotListen,
    /// No route was asked for.
    NoRoutes,
    /// A port is not above [`MIN_USER_PORT`].
    PortTooLow,
    /// A port is not one that clients may claim.
    PortOutOfRange,
    /// A label is no DNS label.
    BadLabel,
    /// The identity would hold more routes than it may.
    TooManyRoutes,
    /// A route is taken, or was asked for twice.
    InUse,
    /// Every session number has been given out.
    OutOfSessions,
}

/// The text that tells a client why its request was refused.
pub open spec fn listen_error_text(error: ListenError) -> Seq<char> {
    match error {
        ListenError::NotListen => "expected a listen request"@,
        ListenError::NoRoutes => "at least one route is required"@,
        ListenError::PortTooLow => "port must be above "@ + decimal(MIN_USER_PORT as nat),
        ListenError::PortOutOfRange => "port not in allowed range"@,
        ListenError::BadLabel => "invalid label"@,
        ListenError::TooManyRoutes => "too many tunnels for this identity"@,
        ListenError::InUse => "address already in use"@,
        ListenError::OutOfSessions => "too many sessions"@,
    }
}

/// The text that tells a client why a port could not be opened.
pub open spec fn bind_error_text(port: u16, reason: Seq<char>) -> Seq<char> {
    "failed to bind port "@ + decimal(port as nat) + ": "@ + reason
}

/// What is wrong with one route, where clients may claim some ports.
pub open spec fn route_error(route: RouteSpecView, ports: PortRange) -> Option<ListenError> {
    if route.port <= MIN_USER_PORT {
        Some(ListenError::PortTooLow)
    } else if !in_range(ports, route.port) {
        Some(ListenError::PortOutOfRange)
    } else if route.label matches Some(label) && !valid_label(label) {
        Some(ListenError::BadLabel)
    } else {
        None
    }
}

/// What is wrong with the first route that has something wrong.
pub open spec fn first_error(routes: Seq<RouteSpecView>, ports: PortRange) -> Option<
    ListenError,
>
    decreases routes.len(),
{
    if routes.len() == 0 {
        None
    } else {
        match first_error(routes.drop_last(), ports) {
            Some(error) => Some(error),
            None => route_error(routes.last(), ports),
        }
    }
}

/// The hostname and port of each route that an identity asks for.
pub open spec fn planned(
    routes: Seq<RouteSpecView>,
    subdomain: Seq<char>,
    base: Seq<char>,
) -> Seq<RouteKey> {
    Seq::new(
        routes.len(),
        |i: int| (hostname_of(routes[i].label, subdomain, base), routes[i].port),
    )
}

/// The address of each route.
pub open spec fn addresses_of(keys: Seq<RouteKey>) -> Seq<Seq<char>> {
    Seq::new(keys.len(), |i: int| address_of(keys[i].0, keys[i].1))
}

/// The routes that a message of an identity asks for, or why it is refused whatever
/// else is registered.
pub open spec fn requested(
    said: Option<ClientMessageView>,
    subdomain: Seq<char>,
    base: Seq<char>,
    ports: PortRange,
) -> Result<Seq<RouteKey>, ListenError> {
    match said {
        Some(ClientMessageView::Listen(routes)) => if routes.len() == 0 {
            Err(ListenError::NoRoutes)
        } else {
            match first_error(routes, ports) {
                Some(error) => Err(error),
                None => Ok(planned(routes, subdomain, base)),
            }
        },
        _ => Err(ListenError::NotListen),
    }
}

impl ListenError {
    /// The text that tells a client why its request was refused.
    pub fn message(&self) -> (res: String)
        ensures
            res@ == listen_error_text(*self),
    {
        match self {
            ListenError::NotListen => "expected a listen request".to_string(),
            ListenError::NoRoutes => "at least one route is required".to_string(),
            ListenError::PortTooLow => {
                let mut out: String = "port must be above ".to_string();
                push_decimal(&mut out, MIN_USER_PORT as u64);
                out
            },
            ListenError::PortOutOfRange => "port not in allowed range".to_string(),
            ListenError::BadLabel => "invalid label".to_string(),
            ListenError::TooManyRoutes => "too many tunnels for this identity".to_string(),
            ListenError::InUse => "address already in use".to_string(),
            ListenError::OutOfSessions => "too many sessions".to_string(),
        }
    }
}

/// The text that tells a client why a port could not be opened.
pub fn bind_error(port: u16, reason: &str) -> (res: String)
    ensures
        res@ == bind_error_text(port, reason@),
{
    let mut out: String = "failed to bind port ".to_string();
    push_decimal(&mut out, port as u64);
    out.append(": ");
    out.append(reason);
    out
}

/// What is wrong with one route.
pub fn check_route(route: &RouteSpec, ports: &RangeInclusive<u16>) -> (res: Option<ListenError>)
    ensures
        res == route_error(route@, ports@),
{
    if route.port <= MIN_USER_PORT {
        return Some(ListenError::PortTooLow);
    }
    if !ports.contains(&route.port) {
        return Some(ListenError::PortOutOfRange);
    }
    if let Some(label) = &route.label {
        if !is_valid_label(label.as_str()) {
            return Some(ListenError::BadLabel);
        }
    }
    None
}

/// The routes that a message of an identity asks for, or why it is refused.
pub fn plan_routes(
    message: &Option<ClientMessage>,
    subdomain: &str,
    base: &str,
    ports: &RangeInclusive<u16>,
) -> (res: Result<Vec<(String, u16)>, ListenError>)
    ensures
        match res {
            Ok(routes) => requested(
                client_said(*message),
                subdomain@,
                base@,
                ports@,
            ) == Ok::<Seq<RouteKey>, ListenError>(keys_of(routes@)),
            Err(error) => requested(
                client_said(*message),
                subdomain@,
                base@,
                ports@,
            ) == Err::<Seq<RouteKey>, ListenError>(error),
        },
{
    let routes: &Vec<RouteSpec> = match message {
        Some(ClientMessage::Listen { routes }) => routes,
        _ => {
            return Err(ListenError::NotListen);
        },
    };
    if routes.len() == 0 {
        return Err(ListenError::NoRoutes);
    }
    let ghost specs = specs_of(routes@);
    let mut plan: Vec<(String, u16)> = Vec::new();
    let mut i: usize = 0;
    assert(specs.take(0) =~= Seq::empty());
    while i < routes.len()
        invariant
            specs == specs_of(routes@),
            specs.len() > 0,
            client_said(*message) == Some(ClientMessageView::Listen(specs)),
            i <= routes@.len(),
            first_error(specs.take(i as int), ports@) is None,
            keys_of(plan@) == planned(specs.take(i as int), subdomain@, base@),
        decreases routes@.len() - i,
    {
        assert(specs.take(i + 1).drop_last() =~= specs.take(i as int));
        assert(specs.take(i + 1).last() == routes@[i as int]@);
        if let Some(error) = check_route(&routes[i], ports) {
            proof {
                lemma_first_error_stays(specs, ports@, i + 1);
            }
            return Err(error);
        }
        let hostname: String = route_hostname(&routes[i].label, subdomain, base);
        let ghost before = plan@;
        let entry: (String, u16) = (hostname, routes[i].port);
        plan.push(entry);
        assert(keys_of(plan@) =~= keys_of(before).push((entry.0@, entry.1)));
        assert(planned(specs.take(i + 1), subdomain@, base@) =~= planned(
            specs.take(i as int),
            subdomain@,
            base@,
        ).push((entry.0@, entry.1)));
        i = i + 1;
    }
    assert(specs.take(i as int) =~= specs);
    Ok(plan)
}

proof fn lemma_first_error_stays(routes: Seq<RouteSpecView>, ports: PortRange, n: int)
    requires
        0 <= n <= routes.len(),
        first_error(routes.take(n), ports) is Some,
    ensures
        first_error(routes, ports) == first_error(routes.take(n), ports),
    decreases routes.len() - n,
{
    if n < routes.len() {
        assert(routes.take(n + 1).drop_last() =~= routes.take(n));
        lemma_first_error_stays(routes, ports, n + 1);
    } else {
        assert(routes.take(n) =~= routes);
    }
}

/// The address of each route, in order.
pub fn route_addresses(routes: &Vec<(String, u16)>) -> (res: Vec<String>)
    ensures
        texts(res@) == addresses_of(keys_of(routes@)),
{
    let mut out: Vec<String> = Vec::new();
    let mut i: usize = 0;
    while i < routes.len()
        invariant
            i <= routes@.len(),
            out@.len() == i,
            forall|j: int|
                0 <= j < i ==> (#[trigger] out@[j])@ == address_of(routes@[j].0@, routes@[j].1),
        decreases routes@.len() - i,
    {
        out.push(public_address(routes[i].0.as_str(), routes[i].1));
        i = i + 1;
    }
    assert(texts(out@) =~= addresses_of(keys_of(routes@)));
    out
}

/// Whether a route may be asked for: its port is above 1000 and within the range, and its
/// label, if it has one, is a DNS label.
pub open spec fn acceptable(route: RouteSpecView, ports: PortRange) -> bool {
    &&& 1000 < route.port
    &&& ports.start <= route.port <= ports.end
    &&& route.label matches Some(label) ==> valid_label(label)
}

proof fn lemma_first_error(routes: Seq<RouteSpecView>, ports: PortRange)
    requires
        !ports.exhausted,
        forall|i: int| 0 <= i < routes.len() ==> acceptable(#[trigger] routes[i], ports),
    ensures
        first_error(routes, ports) is None,
    decreases routes.len(),
{
    if routes.len() > 0 {
        let rest = routes.drop_last();
        assert forall|i: int| 0 <= i < rest.len() implies acceptable(#[trigger] rest[i], ports) by {
            assert(rest[i] == routes[i]);
        }
        lemma_first_error(rest, ports);
        assert(acceptable(routes[routes.len() - 1], ports));
    }
}

/// A request is accepted whenever nothing is wrong with it, and then stands for one route
/// for each that was asked for, in order and on the port that was asked for.
pub proof fn law_right_request_is_accepted(
    routes: Seq<RouteSpecView>,
    subdomain: Seq<char>,
    base: Seq<char>,
    ports: PortRange,
)
    requires
        routes.len() > 0,
        !ports.exhausted,
        forall|i: int| 0 <= i < routes.len() ==> acceptable(#[trigger] routes[i], ports),
    ensures
        ({
            let asked = requested(
                Some(ClientMessageView::Listen(routes)),
                subdomain,
                base,
                ports,
            );
            &&& asked is Ok
            &&& asked->Ok_0.len() == routes.len()
            &&& forall|i: int|
                0 <= i < routes.len() ==> {
                    &&& (#[trigger] asked->Ok_0[i]).1 == routes[i].port
                    &&& asked->Ok_0[i].0 == hostname_of(routes[i].label, subdomain, base)
                }
        }),
{
    lemma_first_error(routes, ports);
}

/// A request is refused for the first of its routes that may not be asked for: because its
/// port is not above 1000, else because it is out of range, else because its label is no
/// DNS label. A request without routes and another message are refused as such.
pub proof fn law_wrong_request_is_refused(
    routes: Seq<RouteSpecView>,
    subdomain: Seq<char>,
    base: Seq<char>,
    ports: PortRange,
    wrong: int,
)
    requires
        !ports.exhausted,
        0 <= wrong < routes.len(),
        forall|i: int| 0 <= i < wrong ==> acceptable(#[trigger] routes[i], ports),
        !acceptable(routes[wrong], ports),
    ensures
        requested(Some(ClientMessageView::Listen(routes)), subdomain, base, ports) == Err::<
            Seq<RouteKey>,
            ListenError,
        >(
            if routes[wrong].port <= 1000 {
                ListenError::PortTooLow
            } else if !(ports.start <= routes[wrong].port <= ports.end) {
                ListenError::PortOutOfRange
            } else {
                ListenError::BadLabel
            },
        ),
{
    let before = routes.take(wrong);
    let upto = routes.take(wrong + 1);
    assert forall|i: int| 0 <= i < before.len() implies acceptable(#[trigger] before[i], ports) by {
        assert(before[i] == routes[i]);
    }
    lemma_first_error(before, ports);
    assert(upto.drop_last() =~= before);
    assert(upto.last() == routes[wrong]);
    lemma_first_error_stays(routes, ports, wrong + 1);
}

/// A message that asks for no route is refused, for its own reason.
pub proof fn law_nothing_asked_is_refused(
    said: Option<ClientMessageView>,
    subdomain: Seq<char>,
    base: Seq<char>,
    ports: PortRange,
)
    requires
        !(said matches Some(ClientMessageView::Listen(routes)) && routes.len() > 0),
    ensures
        requested(said, subdomain, base, ports) == Err::<Seq<RouteKey>, ListenError>(
            if said matches Some(ClientMessageView::Listen(_)) {
                ListenError::NoRoutes
            } else {
                ListenError::NotListen
            },
        ),
{
}

/// The addresses of some routes are told in their order, and each leads back to the host
/// and to the port of its route.
pub proof fn law_addresses_lead_to_routes(keys: Seq<RouteKey>, i: int)
    requires
        0 <= i < keys.len(),
        free_of(keys[i].0, ':'),
    ensures
        addresses_of(keys).len() == keys.len(),
        host_of(addresses_of(keys)[i]) == keys[i].0,
        port_read(addresses_of(keys)[i]) == keys[i].1,
{
    law_address_names_port(keys[i].0, keys[i].1);
}

/// A client learns which port could not be opened, and why.
pub proof fn law_bind_error_names_port(port: u16, reason: Seq<char>)
    ensures
        ({
            let text = bind_error_text(port, reason);
            let n = text.len() - reason.len();
            &&& text.take(20) == "failed to bind port "@
            &&& number_read(text.subrange(20, n - 2)) == port
            &&& text.subrange(n - 2, n) == ": "@
            &&& text.skip(n) == reason
        }),
{
    reveal_strlit("failed to bind port ");
    reveal_strlit(": ");
    let text = bind_error_text(port, reason);
    let n = text.len() - reason.len();
    law_decimal_reads_back(port as nat);
    assert(text.take(20) =~= "failed to bind port "@);
    assert(text.subrange(20, n - 2) =~= decimal(port as nat));
    assert(text.subrange(n - 2, n) =~= ": "@);
    assert(text.skip(n) =~= reason);
}

/// The ports of a range are all from its first to its last, both of them too; one that was
/// walked to its end has no last port any more.
pub proof fn law_range_has_its_ends(ports: PortRange, port: u16)
    ensures
        in_range(ports, port) ==> ports.start <= port <= ports.end,
        ports.start <= port < ports.end ==> in_range(ports, port),
        ports.start <= ports.end ==> (in_range(ports, ports.end) <==> !ports.exhausted),
{
}

} // verus!
