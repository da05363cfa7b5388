//! What a relay and its clients promise together.

use vstd::prelude::*;
use vstd::utf8::encode_utf8;

use crate::address::{
    address_of, free_of, hostname_of, law_address_keeps_host, plain_base,
};
use crate::client::{
    client_received, enroll_received, specs_for, targets_of, ClientStepView, EnrollmentView,
    RouteView, StageView,
};
use crate::handshake::handshake_packet;
use crate::identity::{is_subdomain, issued_identity};
use crate::listen::{addresses_of, first_error, planned};
use crate::registry::RouteKey;
use crate::relay::{
    law_issued_identity_authenticates, law_player_reaches_client, law_prefix_is_replayed_once,
    lemma_no_error,
};
use crate::server::{
    accepted, auth_answered, auth_begun, handshake_read, player_admitted, routes_bound, server_ok,
    ControlView, ServerView,
};
use crate::shared::{label_char, valid_label, ClientMessageView, ServerMessageView, Uuid};
use crate::text::lower;

verus! {

proof fn lemma_hostname_has_no_colon(
    label: Option<Seq<char>>,
    subdomain: Seq<char>,
    base: Seq<char>,
)
    requires
        label matches Some(l) ==> valid_label(l),
        is_subdomain(subdomain),
        free_of(base, ':'),
    ensures
        free_of(hostname_of(label, subdomain, base), ':'),
{
    let name = hostname_of(label, subdomain, base);
    let n = name.len() - base.len();
    assert forall|i: int| 0 <= i < name.len() implies #[trigger] name[i] != ':' by {
        if i >= n {
            assert(name[i] == base[i - n]);
        } else {
            match label {
                Some(l) => {
                    if i < l.len() {
                        assert(name[i] == l[i]);
                        assert(label_char(l[i]));
                    } else if l.len() < i < n - 1 {
                        assert(name[i] == subdomain[i - l.len() - 1]);
                    }
                },
                None => {
                    if i < n - 1 {
                        assert(name[i] == subdomain[i]);
                    }
                },
            }
        }
    }
}

proof fn lemma_target(routes: Seq<RouteView>, keys: Seq<RouteKey>, i: int)
    requires
        keys.len() == routes.len(),
        keys.no_duplicates(),
        forall|j: int| 0 <= j < keys.len() ==> free_of((#[trigger] keys[j]).0, ':'),
        forall|j: int| 0 <= j < keys.len() ==> (#[trigger] keys[j]).1 == routes[j].public_port,
        0 <= i < keys.len(),
    ensures
        targets_of(routes, addresses_of(keys)).get(keys[i]) == Some(
            (routes[i].local_host, routes[i].local_port),
        ),
    decreases routes.len(),
{
    let n = keys.len() - 1;
    let last = keys.last();
    law_address_keeps_host(last.0, last.1);
    assert(keys[n] == last);
    assert(addresses_of(keys).last() == address_of(last.0, last.1));
    assert(addresses_of(keys).drop_last() =~= addresses_of(keys.drop_last()));
    if i < n {
        assert forall|j: int| 0 <= j < keys.drop_last().len() implies {
            &&& free_of((#[trigger] keys.drop_last()[j]).0, ':')
            &&& keys.drop_last()[j].1 == routes.drop_last()[j].public_port
        } by {
            assert(keys.drop_last()[j] == keys[j]);
            assert(routes.drop_last()[j] == routes[j]);
        }
        lemma_target(routes.drop_last(), keys.drop_last(), i);
        assert(keys[i] != keys[n]);
    }
}

proof fn lemma_keys(v: ServerView, subdomain: Seq<char>, routes: Seq<RouteView>)
    requires
        is_subdomain(subdomain),
        free_of(v.base_domain, ':'),
        first_error(specs_for(routes), v.ports) is None,
    ensures
        ({
            let keys = planned(specs_for(routes), subdomain, v.base_domain);
            &&& keys.len() == routes.len()
            &&& forall|j: int| 0 <= j < keys.len() ==> free_of((#[trigger] keys[j]).0, ':')
            &&& forall|j: int|
                0 <= j < keys.len() ==> (#[trigger] keys[j]).1 == routes[j].public_port
        }),
{
    let specs = specs_for(routes);
    let keys = planned(specs, subdomain, v.base_domain);
    assert forall|j: int| 0 <= j < keys.len() implies free_of((#[trigger] keys[j]).0, ':') by {
        lemma_no_error(specs, v, j);
        lemma_hostname_has_no_colon(specs[j].label, subdomain, v.base_domain);
    }
}

/// A client that knows its token passes: what it answers to the relay's challenge is what
/// the relay takes for the identity that was issued with the token.
pub proof fn law_client_authenticates(
    v: ServerView,
    e: EnrollmentView,
    subdomain: Seq<char>,
    token: Seq<char>,
    created_at: u64,
    challenge: Uuid,
)
    requires
        v.identities.contains_key(subdomain),
        v.identities[subdomain] == issued_identity(subdomain, token, created_at),
        e.stage == StageView::Challenge(token),
    ensures
        auth_begun(v, subdomain, challenge).1 is Challenge,
        ({
            let sent = auth_begun(v, subdomain, challenge).1->Challenge_0;
            let pending = auth_begun(v, subdomain, challenge).1->Challenge_1;
            let step = enroll_received(e, Some(sent));
            &&& step is Send
            &&& auth_answered(v, pending, Some(step->Send_0)) == (
                v,
                ControlView::Serve(ServerMessageView::Authenticated, subdomain),
            )
            &&& enroll_received(step->Send_1, Some(ServerMessageView::Authenticated)) is Send
        }),
{
    law_issued_identity_authenticates(v, subdomain, token, created_at, challenge);
}

/// A client whose routes were bound is set up, with one address for each route, and it
/// forwards the players of every route to the backend of that route.
pub proof fn law_bound_client_finds_backends(
    v: ServerView,
    e: EnrollmentView,
    subdomain: Seq<char>,
    route: int,
    id: Uuid,
)
    requires
        is_subdomain(subdomain),
        free_of(v.base_domain, ':'),
        e.stage == StageView::Bound,
        first_error(specs_for(e.routes), v.ports) is None,
        routes_bound(v, subdomain, planned(specs_for(e.routes), subdomain, v.base_domain)).1
            is Bound,
        0 <= route < e.routes.len(),
    ensures
        ({
            let keys = planned(specs_for(e.routes), subdomain, v.base_domain);
            let step = enroll_received(
                e,
                Some(routes_bound(v, subdomain, keys).1->Bound_1),
            );
            &&& step is Done
            &&& step->Done_0.addresses == addresses_of(keys)
            &&& client_received(
                step->Done_0.targets,
                Some(ServerMessageView::Connection(id, keys[route].0, keys[route].1)),
            ) == ClientStepView::Proxy(
                ClientMessageView::Accept(id),
                e.routes[route].local_host,
                e.routes[route].local_port,
            )
        }),
{
    let keys = planned(specs_for(e.routes), subdomain, v.base_domain);
    lemma_keys(v, subdomain, e.routes);
    lemma_target(e.routes, keys, route);
}

/// A player who types a registered address reaches the local server behind it. The relay
/// names the route to the client that registered it, the client accepts the connection
/// for the route's own backend, and the relay then replays to it every byte the player
/// has sent. The base domain must be written as the parser writes hostnames, and without
/// a colon.
pub proof fn law_player_reaches_backend(
    v: ServerView,
    e: EnrollmentView,
    subdomain: Seq<char>,
    route: int,
    typed: Seq<char>,
    dots: nat,
    appended: Seq<char>,
    protocol: nat,
    next_state: nat,
    rest: Seq<u8>,
    id: Uuid,
)
    requires
        server_ok(v),
        is_subdomain(subdomain),
        plain_base(v.base_domain),
        free_of(v.base_domain, ':'),
        e.stage == StageView::Bound,
        first_error(specs_for(e.routes), v.ports) is None,
        routes_bound(v, subdomain, planned(specs_for(e.routes), subdomain, v.base_domain)).1
            is Bound,
        0 <= route < e.routes.len(),
        lower(typed) == hostname_of(e.routes[route].label, subdomain, v.base_domain),
        appended.len() > 0 ==> appended[0] == '\0',
        protocol < 0x1_0000_0000,
        next_state < 0x1_0000_0000,
        encode_utf8(typed + Seq::new(dots, |i: int| '.') + appended).len() <= 255,
        handshake_packet(
            protocol,
            typed + Seq::new(dots, |i: int| '.') + appended,
            e.routes[route].public_port,
            next_state,
        )[0] != 0xFE,
        v.pending.len() < v.max_pending,
    ensures
        ({
            let keys = planned(specs_for(e.routes), subdomain, v.base_domain);
            let address = typed + Seq::new(dots, |i: int| '.') + appended;
            let sent = handshake_packet(
                protocol,
                address,
                e.routes[route].public_port,
                next_state,
            ) + rest;
            let bound = routes_bound(v, subdomain, keys);
            let client = enroll_received(e, Some(bound.1->Bound_1))->Done_0;
            let hostname = handshake_read(Seq::empty(), sent)->Route_0;
            let admitted = player_admitted(
                bound.0,
                id,
                hostname,
                e.routes[route].public_port,
                sent,
            );
            &&& handshake_read(Seq::empty(), sent) is Route
            &&& admitted.1 is Notify
            &&& admitted.1->Notify_0 == bound.1->Bound_0
            &&& client_received(client.targets, Some(admitted.1->Notify_2))
                == ClientStepView::Proxy(
                ClientMessageView::Accept(id),
                e.routes[route].local_host,
                e.routes[route].local_port,
            )
            &&& accepted(admitted.0, id).1 == ControlView::Splice(sent)
        }),
{
    let specs = specs_for(e.routes);
    let keys = planned(specs, subdomain, v.base_domain);
    let address = typed + Seq::new(dots, |i: int| '.') + appended;
    let sent = handshake_packet(protocol, address, specs[route].port, next_state) + rest;
    let bound = routes_bound(v, subdomain, keys);
    law_player_reaches_client(
        v,
        subdomain,
        specs,
        route,
        typed,
        dots,
        appended,
        protocol,
        next_state,
        rest,
        id,
    );
    law_bound_client_finds_backends(v, e, subdomain, route, id);
    law_prefix_is_replayed_once(bound.0, id, keys[route].0, keys[route].1, sent);
}

} // verus!
