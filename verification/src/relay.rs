//! What the relay promises over several of its steps.

use vstd::prelude::*;
use vstd::utf8::encode_utf8;

use crate::address::{
    hostname_of, law_hostnames_are_distinct, law_registered_hostname_is_reached, plain_base,
};
use crate::auth::{
    answer_text, law_accepted_reply_is_the_answer, law_answer_is_accepted,
    law_answer_is_bound_to_key, token_key_of,
};
use crate::crypto::{hex_text, hmac_sha256, law_hex_round_trip};
use crate::handshake::{
    handshake_packet, law_handshake_round_trip, law_truncated_needs_more, lemma_packet_len,
};
use crate::identity::{
    is_subdomain, issued_identity, key_in, law_issued_key, token_taken, tokens_exhausted,
};
use crate::limits::{asked, counted, law_registration_is_granted, IpAddr};
use crate::listen::{
    addresses_of, first_error, in_range, listen_error_text, planned, requested, route_error,
    ListenError,
};
use crate::maps::Ports;
use crate::metrics::{
    counters_text, gauges_text, law_counters_are_shown, law_gauges_are_shown, law_shown_in_whole,
    recorded, shows, MetricsView, Recording,
};
use crate::registry::{
    all_free, claimed, held, law_release_keeps_others, law_release_undoes_claim, RouteKey,
};
use crate::server::{
    accepted, admits, auth_answered, auth_begun, authenticates, claim_error, client_notified,
    controls, first_closed, handshake_read, pending_expired, player_admitted, refusal,
    register_finished, registers, rendered, routes_asked, routes_bound, server_ok, session_ended,
    session_reply, splice_ended, BindView, ControlView, HandshakeError, HandshakeStepView,
    PendingAuthView, PlayerView, ServerView, SessionEventView,
};
use crate::shared::{
    handshake, normalize, valid_label, ClientMessageView, HandshakeView, RouteSpecView,
    ServerMessageView, Uuid, MIN_USER_PORT,
};
use crate::text::lower;
use crate::varint::lemma_varint_range;

verus! {

/// Whoever was issued an identity can authenticate as it: the relay knows the subdomain,
/// and takes the answer made with the token to whatever challenge it sent.
pub proof fn law_issued_identity_authenticates(
    v: ServerView,
    subdomain: Seq<char>,
    token: Seq<char>,
    created_at: u64,
    challenge: Uuid,
)
    requires
        v.identities.contains_key(subdomain),
        v.identities[subdomain] == issued_identity(subdomain, token, created_at),
    ensures
        ({
            let pending = PendingAuthView { subdomain, challenge, key: token_key_of(token) };
            let answer = ClientMessageView::Answer(
                answer_text(token_key_of(token), challenge@),
            );
            &&& auth_begun(v, subdomain, challenge) == (
                v,
                ControlView::Challenge(ServerMessageView::Challenge(challenge), pending),
            )
            &&& auth_answered(v, pending, Some(answer)) == (
                v,
                ControlView::Serve(ServerMessageView::Authenticated, subdomain),
            )
        }),
{
    law_issued_key(v.identities, subdomain, token, created_at, subdomain);
    assert(v.identities.insert(subdomain, issued_identity(subdomain, token, created_at))
        =~= v.identities);
    law_answer_is_accepted(token_key_of(token), challenge@);
}

/// Whoever has just registered can authenticate with the token it was given, and every
/// identity issued before is challenged as before.
pub proof fn law_new_identity_authenticates(
    before: ServerView,
    after: ServerView,
    step: ControlView,
    source: IpAddr,
    now: u64,
    challenge: Uuid,
    other: Seq<char>,
)
    requires
        registers(before, after, step, source, now),
        step is Persist,
    ensures
        ({
            let subdomain = step->Persist_0;
            let key = token_key_of(step->Persist_1);
            let pending = PendingAuthView { subdomain, challenge, key };
            let answer = ClientMessageView::Answer(answer_text(key, challenge@));
            &&& auth_begun(after, subdomain, challenge).1 == ControlView::Challenge(
                ServerMessageView::Challenge(challenge),
                pending,
            )
            &&& auth_answered(after, pending, Some(answer)).1 == ControlView::Serve(
                ServerMessageView::Authenticated,
                subdomain,
            )
            &&& other != subdomain ==> auth_begun(after, other, challenge).1 == auth_begun(
                before,
                other,
                challenge,
            ).1
        }),
{
    let subdomain = step->Persist_0;
    let token = step->Persist_1;
    let created_at = after.identities[subdomain].created_at;
    law_issued_identity_authenticates(after, subdomain, token, created_at, challenge);
    law_issued_key(before.identities, subdomain, token, created_at, other);
}

/// A client with another token is refused, unless the keys of both tokens give the
/// challenge the same HMAC.
pub proof fn law_wrong_token_is_refused(
    v: ServerView,
    subdomain: Seq<char>,
    token: Seq<char>,
    other: Seq<char>,
    challenge: Uuid,
)
    requires
        hmac_sha256(token_key_of(token), challenge@) != hmac_sha256(
            token_key_of(other),
            challenge@,
        ),
    ensures
        auth_answered(
            v,
            PendingAuthView { subdomain, challenge, key: token_key_of(token) },
            Some(ClientMessageView::Answer(answer_text(token_key_of(other), challenge@))),
        ).1 == refusal("invalid token"@),
{
    law_answer_is_bound_to_key(token_key_of(token), token_key_of(other), challenge@);
}

/// Registering never makes more identities than may be issued, and takes none away.
pub proof fn law_identities_are_capped(
    before: ServerView,
    after: ServerView,
    step: ControlView,
    source: IpAddr,
    now: u64,
)
    requires
        server_ok(before),
        registers(before, after, step, source, now),
    ensures
        before.identities.submap_of(after.identities),
        before.max_identities != 0 && before.identities.len() <= before.max_identities
            ==> after.identities.len() <= before.max_identities,
{
}

/// A client gets routes under its own subdomain only, on ports that clients may claim.
pub proof fn law_routes_are_own(
    said: Option<ClientMessageView>,
    v: ServerView,
    subdomain: Seq<char>,
    keys: Seq<RouteKey>,
    i: int,
)
    requires
        requested(said, subdomain, v.base_domain, v.ports) == Ok::<Seq<RouteKey>, ListenError>(
            keys,
        ),
        0 <= i < keys.len(),
    ensures
        keys[i].1 > MIN_USER_PORT,
        in_range(v.ports, keys[i].1),
        exists|label: Option<Seq<char>>|
            {
                &&& label matches Some(l) ==> valid_label(l)
                &&& keys[i].0 == #[trigger] hostname_of(label, subdomain, v.base_domain)
            },
{
    let routes = said.unwrap()->Listen_0;
    lemma_no_error(routes, v, i);
    assert(keys[i].0 == hostname_of(routes[i].label, subdomain, v.base_domain));
}

/// Where nothing is wrong with a request, nothing is wrong with any of its routes.
pub proof fn lemma_no_error(routes: Seq<RouteSpecView>, v: ServerView, i: int)
    requires
        first_error(routes, v.ports) is None,
        0 <= i < routes.len(),
    ensures
        route_error(routes[i], v.ports) is None,
    decreases routes.len(),
{
    if i < routes.len() - 1 {
        lemma_no_error(routes.drop_last(), v, i);
    }
}

/// Users never stand in each other's way: what one identity has claimed does not decide
/// whether the routes of another are free, even on the same ports.
pub proof fn law_users_share_ports(
    v: ServerView,
    subdomain1: Seq<char>,
    said1: Option<ClientMessageView>,
    keys1: Seq<RouteKey>,
    subdomain2: Seq<char>,
    said2: Option<ClientMessageView>,
    keys2: Seq<RouteKey>,
)
    requires
        is_subdomain(subdomain1),
        is_subdomain(subdomain2),
        subdomain1 != subdomain2,
        requested(said1, subdomain1, v.base_domain, v.ports) == Ok::<Seq<RouteKey>, ListenError>(
            keys1,
        ),
        requested(said2, subdomain2, v.base_domain, v.ports) == Ok::<Seq<RouteKey>, ListenError>(
            keys2,
        ),
    ensures
        all_free(claimed(v.registry, subdomain1, keys1), keys2) == all_free(v.registry, keys2),
{
    let after = claimed(v.registry, subdomain1, keys1);
    let routes1 = said1.unwrap()->Listen_0;
    let routes2 = said2.unwrap()->Listen_0;
    assert forall|i: int| 0 <= i < keys2.len() implies after.routes.contains_key(
        #[trigger] keys2[i],
    ) == v.registry.routes.contains_key(keys2[i]) by {
        if keys1.contains(keys2[i]) {
            let j = choose|j: int| 0 <= j < keys1.len() && keys1[j] == keys2[i];
            lemma_no_error(routes1, v, j);
            lemma_no_error(routes2, v, i);
            law_hostnames_are_distinct(
                routes1[j].label,
                subdomain1,
                routes2[i].label,
                subdomain2,
                v.base_domain,
            );
        }
    }
    if all_free(v.registry, keys2) {
        assert(all_free(after, keys2));
    }
    if all_free(after, keys2) {
        assert forall|i: int| 0 <= i < keys2.len() implies !v.registry.routes.contains_key(
            #[trigger] keys2[i],
        ) by {
            assert(!after.routes.contains_key(keys2[i]));
        }
    }
}

/// Once routes are bound, the players of each of them go to the new session, and all
/// other players go where they went before.
pub proof fn law_bound_routes_reach_session(
    v: ServerView,
    subdomain: Seq<char>,
    keys: Seq<RouteKey>,
    id: Uuid,
    hostname: Seq<char>,
    port: u16,
    prefix: Seq<u8>,
)
    requires
        server_ok(v),
        routes_bound(v, subdomain, keys).1 is Bound,
        v.pending.len() < v.max_pending,
    ensures
        player_admitted(routes_bound(v, subdomain, keys).0, id, hostname, port, prefix).1 == (
        if keys.contains((hostname, port)) {
            PlayerView::Notify(
                routes_bound(v, subdomain, keys).1->Bound_0,
                id,
                ServerMessageView::Connection(id, hostname, port),
            )
        } else {
            player_admitted(v, id, hostname, port, prefix).1
        }),
{
}

/// An address that is registered is refused to whoever else asks for it, among whatever
/// other routes: the request and its binding end with "address already in use", nothing
/// changes, and players still go to the one who registered it. No other request is
/// refused for this reason, unless it asks for an address twice.
pub proof fn law_taken_address_is_refused(
    v: ServerView,
    subdomain: Seq<char>,
    said: Option<ClientMessageView>,
    keys: Seq<RouteKey>,
)
    requires
        requested(said, subdomain, v.base_domain, v.ports) == Ok::<Seq<RouteKey>, ListenError>(
            keys,
        ),
    ensures
        listen_error_text(ListenError::InUse) == "address already in use"@,
        (exists|i: int| 0 <= i < keys.len() && v.registry.routes.contains_key(#[trigger] keys[i]))
            ==> {
            &&& routes_asked(v, subdomain, said) == Err::<Seq<RouteKey>, ListenError>(
                ListenError::InUse,
            )
            &&& routes_bound(v, subdomain, keys) == (v, BindView::Refuse(ListenError::InUse))
        },
        keys.no_duplicates() && (forall|i: int|
            0 <= i < keys.len() ==> !v.registry.routes.contains_key(#[trigger] keys[i])) ==> {
            &&& routes_asked(v, subdomain, said) != Err::<Seq<RouteKey>, ListenError>(
                ListenError::InUse,
            )
            &&& routes_bound(v, subdomain, keys).1 != BindView::Refuse(ListenError::InUse)
        },
{
}

/// A session whose client cannot be told something ends, and its addresses are free
/// again: every route is owned as it was before, and the same request is accepted once
/// more, as long as there are session numbers left.
pub proof fn law_freed_address_can_be_claimed(
    v: ServerView,
    subdomain: Seq<char>,
    keys: Seq<RouteKey>,
)
    requires
        server_ok(v),
        routes_bound(v, subdomain, keys).1 is Bound,
        v.registry.next_session < u64::MAX - 1,
    ensures
        session_reply(SessionEventView::SendFailed) is None,
        ({
            let bound = routes_bound(v, subdomain, keys);
            let after = session_ended(bound.0, bound.1->Bound_0);
            &&& after.registry.routes == v.registry.routes
            &&& claim_error(after, subdomain, keys) is None
            &&& routes_bound(after, subdomain, keys).1 is Bound
        }),
{
    law_release_undoes_claim(v.registry, subdomain, keys);
}

/// A session that has ended gets no more players, and no other session loses one.
pub proof fn law_ended_session_gets_no_players(
    v: ServerView,
    session: u64,
    id: Uuid,
    hostname: Seq<char>,
    port: u16,
    prefix: Seq<u8>,
)
    requires
        server_ok(v),
    ensures
        ({
            let before = player_admitted(v, id, hostname, port, prefix).1;
            let after = player_admitted(
                session_ended(v, session),
                id,
                hostname,
                port,
                prefix,
            ).1;
            if before matches PlayerView::Notify(owner, _, _) && owner == session {
                after == PlayerView::Drop
            } else {
                after == before
            }
        }),
{
    law_release_keeps_others(v.registry, session, (hostname, port));
}

/// The bytes read from a player are replayed to the client that accepts the connection,
/// and to it alone: a second client that accepts it gets nothing, and so does one that
/// comes after its time. A connection that was accepted does not count as stale.
pub proof fn law_prefix_is_replayed_once(
    v: ServerView,
    id: Uuid,
    hostname: Seq<char>,
    port: u16,
    prefix: Seq<u8>,
)
    requires
        player_admitted(v, id, hostname, port, prefix).1 is Notify,
    ensures
        ({
            let waiting = player_admitted(v, id, hostname, port, prefix).0;
            let taken = accepted(waiting, id).0;
            &&& accepted(waiting, id).1 == ControlView::Splice(prefix)
            &&& accepted(taken, id) == (taken, ControlView::Close)
            &&& pending_expired(taken, id) == taken
            &&& accepted(pending_expired(waiting, id), id).1 == ControlView::Close
        }),
{
}

/// Taking one pending connection leaves every other.
pub proof fn law_accept_keeps_others(v: ServerView, id: Uuid, other: Uuid)
    requires
        other@ != id@,
    ensures
        accepted(accepted(v, id).0, other).1 == accepted(v, other).1,
        accepted(pending_expired(v, id), other).1 == accepted(v, other).1,
{
}

/// Players never fill the relay: no more are pending than may be, and a player for a
/// hostname that nobody registered takes no place.
pub proof fn law_pending_is_bounded(
    v: ServerView,
    id: Uuid,
    hostname: Seq<char>,
    port: u16,
    prefix: Seq<u8>,
)
    requires
        server_ok(v),
        v.pending.len() <= v.max_pending,
    ensures
        player_admitted(v, id, hostname, port, prefix).0.pending.len() <= v.max_pending,
        !v.registry.routes.contains_key((hostname, port)) ==> {
            &&& player_admitted(v, id, hostname, port, prefix).0.pending == v.pending
            &&& player_admitted(v, id, hostname, port, prefix).1 == PlayerView::Drop
        },
{
}

/// No identity comes to hold more routes than it may.
pub proof fn law_share_is_kept(
    v: ServerView,
    subdomain: Seq<char>,
    keys: Seq<RouteKey>,
    other: Seq<char>,
)
    requires
        held(v.registry.sessions, other) <= v.max_per_identity,
    ensures
        held(routes_bound(v, subdomain, keys).0.registry.sessions, other) <= v.max_per_identity,
{
    let after = claimed(v.registry, subdomain, keys);
    assert(after.sessions.drop_last() =~= v.registry.sessions);
}

/// A handshake is decided on before too much of it was read: more is waited for only
/// where a packet length is not yet whole or is within the limit.
pub proof fn law_handshake_is_never_too_large(buf: Seq<u8>, chunk: Seq<u8>)
    ensures
        handshake_read(buf, chunk) != HandshakeStepView::Fail(HandshakeError::TooLarge),
{
    lemma_varint_range(buf + chunk);
}

/// A handshake is understood however it is cut into reads: more is read until it is
/// whole, and then it names the hostname.
pub proof fn law_handshake_is_read_in_any_chunks(
    protocol: nat,
    address: Seq<char>,
    port: u16,
    next_state: nat,
    rest: Seq<u8>,
    i: int,
    j: int,
)
    requires
        protocol < 0x1_0000_0000,
        next_state < 0x1_0000_0000,
        encode_utf8(address).len() <= 255,
        handshake_packet(protocol, address, port, next_state)[0] != 0xFE,
        normalize(address).len() > 0,
        0 <= i < j <= (handshake_packet(protocol, address, port, next_state) + rest).len(),
    ensures
        ({
            let packet = handshake_packet(protocol, address, port, next_state);
            let stream = packet + rest;
            handshake_read(stream.take(i), stream.subrange(i, j)) == (if j < packet.len() {
                HandshakeStepView::ReadMore
            } else {
                HandshakeStepView::Route(normalize(address))
            })
        }),
{
    let packet = handshake_packet(protocol, address, port, next_state);
    let stream = packet + rest;
    assert(stream.take(i) + stream.subrange(i, j) =~= stream.take(j));
    if j < packet.len() {
        assert(stream.take(j) =~= packet.take(j));
        law_truncated_needs_more(protocol, address, port, next_state, j);
        lemma_packet_len(protocol, address, port, next_state);
    } else {
        let more = rest.take(j - packet.len());
        assert(stream.take(j) =~= packet + more);
        law_handshake_round_trip(protocol, address, port, next_state, more);
    }
}

/// A player who types a registered address reaches the client that registered it: in
/// whatever case, with or without dots at its end, whatever a modded client appends and
/// whatever is sent after the handshake. The base domain must be written as the parser
/// writes hostnames.
pub proof fn law_player_reaches_client(
    v: ServerView,
    subdomain: Seq<char>,
    routes: Seq<RouteSpecView>,
    route: int,
    typed: Seq<char>,
    dots: nat,
    appended: Seq<char>,
    protocol: nat,
    next_state: nat,
    rest: Seq<u8>,
    id: Uuid,
)
    requires
        server_ok(v),
        is_subdomain(subdomain),
        plain_base(v.base_domain),
        first_error(routes, v.ports) is None,
        routes_bound(v, subdomain, planned(routes, subdomain, v.base_domain)).1 is Bound,
        0 <= route < routes.len(),
        lower(typed) == hostname_of(routes[route].label, subdomain, v.base_domain),
        appended.len() > 0 ==> appended[0] == '\0',
        protocol < 0x1_0000_0000,
        next_state < 0x1_0000_0000,
        encode_utf8(typed + Seq::new(dots, |i: int| '.') + appended).len() <= 255,
        handshake_packet(
            protocol,
            typed + Seq::new(dots, |i: int| '.') + appended,
            routes[route].port,
            next_state,
        )[0] != 0xFE,
        v.pending.len() < v.max_pending,
    ensures
        ({
            let keys = planned(routes, subdomain, v.base_domain);
            let address = typed + Seq::new(dots, |i: int| '.') + appended;
            let sent = handshake_packet(protocol, address, routes[route].port, next_state) + rest;
            let bound = routes_bound(v, subdomain, keys);
            &&& handshake_read(Seq::empty(), sent) == HandshakeStepView::Route(keys[route].0)
            &&& player_admitted(bound.0, id, keys[route].0, keys[route].1, sent).1
                == PlayerView::Notify(
                bound.1->Bound_0,
                id,
                ServerMessageView::Connection(id, keys[route].0, keys[route].1),
            )
        }),
{
    let keys = planned(routes, subdomain, v.base_domain);
    let address = typed + Seq::new(dots, |i: int| '.') + appended;
    let packet = handshake_packet(protocol, address, routes[route].port, next_state);
    let sent = packet + rest;
    lemma_no_error(routes, v, route);
    law_registered_hostname_is_reached(
        routes[route].label,
        subdomain,
        v.base_domain,
        typed,
        dots,
        appended,
    );
    law_handshake_round_trip(protocol, address, routes[route].port, next_state, rest);
    lemma_packet_len(protocol, address, routes[route].port, next_state);
    assert(Seq::<u8>::empty() + sent =~= sent);
    assert(keys[route].0.last() == v.base_domain.last());
    law_bound_routes_reach_session(
        v,
        subdomain,
        keys,
        id,
        keys[route].0,
        keys[route].1,
        sent,
    );
    assert(keys.contains(keys[route]));
}

/// Admitting a player never touches one that already waits: the identifier it is given is
/// that of no pending connection, so that every connection pending before is still pending
/// with its own bytes, and one more is. A player that is not admitted changes none.
pub proof fn law_admission_keeps_waiting_players(
    before: ServerView,
    after: ServerView,
    step: PlayerView,
    hostname: Seq<char>,
    port: u16,
    prefix: Seq<u8>,
    other: Seq<u8>,
)
    requires
        server_ok(before),
        admits(before, after, step, hostname, port, prefix),
    ensures
        before.pending.contains_key(other) ==> after.pending.contains_key(other)
            && after.pending[other] == before.pending[other],
        step matches PlayerView::Notify(_, id, _) ==> {
            &&& !before.pending.contains_key(id@)
            &&& after.pending.contains_key(id@)
            &&& after.pending[id@] == prefix
            &&& after.pending.len() == before.pending.len() + 1
        },
        step is Drop ==> after.pending == before.pending,
{
}

/// A player is admitted exactly where somebody registered the hostname on the port and
/// fewer connections are pending than may be. The session that owns the route is told of
/// the connection by the identifier it waits under. Nothing else changes, but that a player
/// who is dropped is counted for the reason.
pub proof fn law_player_goes_to_owner(
    before: ServerView,
    after: ServerView,
    step: PlayerView,
    hostname: Seq<char>,
    port: u16,
    prefix: Seq<u8>,
)
    requires
        admits(before, after, step, hostname, port, prefix),
    ensures
        step is Notify <==> before.registry.routes.contains_key((hostname, port))
            && before.pending.len() < before.max_pending,
        step matches PlayerView::Notify(session, id, notice) ==> {
            &&& session == before.registry.routes[(hostname, port)]
            &&& notice == ServerMessageView::Connection(id, hostname, port)
            &&& after.metrics == before.metrics
        },
        step is Drop ==> after.metrics == recorded(
            before.metrics,
            if before.registry.routes.contains_key((hostname, port)) {
                Recording::PendingFull
            } else {
                Recording::UnknownHost
            },
        ),
        after == (ServerView { pending: after.pending, metrics: after.metrics, ..before }),
{
}

/// Two clients that ask to authenticate one after the other are never given the same
/// challenge, so that no answer to the one answers the other for its being the same.
pub proof fn law_challenges_differ(
    before: ServerView,
    between: ServerView,
    after: ServerView,
    first: ControlView,
    second: ControlView,
    subdomain1: Seq<char>,
    subdomain2: Seq<char>,
)
    requires
        authenticates(before, between, first, subdomain1),
        authenticates(between, after, second, subdomain2),
        first is Challenge,
        second is Challenge,
    ensures
        first->Challenge_1.challenge@ != second->Challenge_1.challenge@,
        first->Challenge_0 == ServerMessageView::Challenge(first->Challenge_1.challenge),
        second->Challenge_0 == ServerMessageView::Challenge(second->Challenge_1.challenge),
{
}

/// A client that names an identity which was never issued is refused and counted; one that
/// names an issued identity is challenged under the key whose hexadecimal form is stored.
pub proof fn law_challenge_is_for_the_identity(
    v: ServerView,
    subdomain: Seq<char>,
    challenge: Uuid,
    key: Seq<u8>,
)
    ensures
        !v.identities.contains_key(subdomain) ==> {
            let begun = auth_begun(v, subdomain, challenge);
            &&& begun.1 == ControlView::Refuse(ServerMessageView::Error("unknown subdomain"@))
            &&& begun.0 == (ServerView {
                metrics: recorded(v.metrics, Recording::AuthFailed),
                ..v
            })
        },
        v.identities.contains_key(subdomain) && v.identities[subdomain].token_hash == hex_text(key)
            ==> {
            let begun = auth_begun(v, subdomain, challenge);
            &&& begun.1 is Challenge
            &&& begun.1->Challenge_0 == ServerMessageView::Challenge(challenge)
            &&& begun.1->Challenge_1.subdomain == subdomain
            &&& begun.1->Challenge_1.challenge == challenge
            &&& begun.1->Challenge_1.key == key
            &&& begun.0 == v
        },
{
    law_hex_round_trip(key);
}

/// Nobody is served but who answers the challenge: with the HMAC of it under the key of the
/// identity, in hexadecimal of either case. Everybody else is refused and counted.
pub proof fn law_only_the_answer_is_served(
    v: ServerView,
    pending: PendingAuthView,
    said: Option<ClientMessageView>,
)
    ensures
        ({
            let answered = auth_answered(v, pending, said);
            if said matches Some(ClientMessageView::Answer(tag)) && lower(tag) == hex_text(
                hmac_sha256(pending.key, pending.challenge@),
            ) {
                &&& answered.1 == ControlView::Serve(
                    ServerMessageView::Authenticated,
                    pending.subdomain,
                )
                &&& answered.0 == v
            } else {
                &&& answered.1 == ControlView::Refuse(ServerMessageView::Error("invalid token"@))
                &&& answered.0 == (ServerView {
                    metrics: recorded(v.metrics, Recording::AuthFailed),
                    ..v
                })
            }
        }),
{
    if let Some(ClientMessageView::Answer(tag)) = said {
        law_accepted_reply_is_the_answer(pending.key, pending.challenge@, tag);
    }
}

/// A connection is handed out exactly where it is pending, and that changes nothing but
/// that it is pending no longer.
pub proof fn law_accept_takes_one(v: ServerView, id: Uuid, other: Seq<u8>)
    requires
        server_ok(v),
    ensures
        ({
            let (after, step) = accepted(v, id);
            &&& step is Splice <==> v.pending.contains_key(id@)
            &&& step !is Splice ==> step is Close && after == v
            &&& step is Splice ==> {
                &&& step->Splice_0 == v.pending[id@]
                &&& after.pending.len() == v.pending.len() - 1
            }
            &&& after.pending.contains_key(other) <==> v.pending.contains_key(other) && other
                != id@
            &&& after.pending.contains_key(other) ==> after.pending[other] == v.pending[other]
            &&& after == (ServerView { pending: after.pending, ..v })
        }),
{
}

/// A source is refused a new identity exactly where it has used up its registrations, or
/// else where as many identities are issued as may be, or every subdomain is taken. A
/// refusal for one of the first two reasons is counted as such, and none changes an
/// identity.
pub proof fn law_registration_is_refused_for_a_reason(
    before: ServerView,
    after: ServerView,
    step: ControlView,
    source: IpAddr,
    now: u64,
)
    requires
        registers(before, after, step, source, now),
    ensures
        ({
            let used = counted(before.rate.grants, before.rate.window, source, now).len();
            let full = before.max_identities > 0 && before.identities.len()
                >= before.max_identities;
            if used >= before.rate.max {
                &&& step == ControlView::Refuse(
                    ServerMessageView::Error("too many registrations, try again later"@),
                )
                &&& after.metrics == recorded(before.metrics, Recording::RateLimited)
                &&& after.identities == before.identities
            } else if full {
                &&& step == ControlView::Refuse(
                    ServerMessageView::Error("could not issue identity"@),
                )
                &&& after.metrics == recorded(before.metrics, Recording::AtCapacity)
                &&& after.identities == before.identities
            } else {
                &&& after.metrics == before.metrics
                &&& step is Persist || step == ControlView::Refuse(
                    ServerMessageView::Error("could not issue identity"@),
                )
                &&& step !is Persist ==> after.identities == before.identities
                &&& (exists|s: Seq<char>|
                    is_subdomain(s) && !(#[trigger] before.identities.contains_key(s)))
                    ==> step is Persist
            }
        }),
        after == (ServerView {
            identities: after.identities,
            rate: asked(before.rate, source, now),
            metrics: after.metrics,
            ..before
        }),
{
    law_registration_is_granted(before.rate, source, now);
}

/// A new identity is for a subdomain that nobody had, and is there once it was issued: with
/// the hash of its token, next to all that were there before.
pub proof fn law_registration_adds_one_identity(
    before: ServerView,
    after: ServerView,
    step: ControlView,
    source: IpAddr,
    now: u64,
    other: Seq<char>,
)
    requires
        server_ok(before),
        registers(before, after, step, source, now),
        step is Persist,
    ensures
        ({
            let subdomain = step->Persist_0;
            let token = step->Persist_1;
            &&& !before.identities.contains_key(subdomain)
            &&& after.identities.contains_key(subdomain)
            &&& after.identities[subdomain].subdomain == subdomain
            &&& after.identities[subdomain].token_hash == hex_text(token_key_of(token))
            &&& after.identities.len() == before.identities.len() + 1
            &&& other != subdomain ==> after.identities.get(other) == before.identities.get(other)
        }),
{
}

/// Once a new identity was saved its owner is told of it and served as it, and it counts;
/// where it could not be saved nobody is told of it.
pub proof fn law_saved_identity_is_told(
    v: ServerView,
    saved: bool,
    subdomain: Seq<char>,
    token: Seq<char>,
)
    ensures
        ({
            let (after, step) = register_finished(v, saved, subdomain, token);
            &&& saved ==> {
                &&& step is Serve
                &&& step->Serve_0 == ServerMessageView::Issued(subdomain, token)
                &&& step->Serve_1 == subdomain
                &&& after == (ServerView {
                    metrics: recorded(v.metrics, Recording::Issued),
                    ..v
                })
            }
            &&& !saved ==> {
                &&& step == ControlView::Refuse(
                    ServerMessageView::Error("could not issue identity"@),
                )
                &&& after == v
            }
        }),
{
}

/// A control connection begins with a request to register, to authenticate or to take a
/// player; it is closed without a word, and nothing changes, where it begins otherwise.
pub proof fn law_other_beginnings_are_closed(
    before: ServerView,
    after: ServerView,
    step: ControlView,
    said: Option<ClientMessageView>,
    source: IpAddr,
    now: u64,
)
    requires
        controls(before, after, step, said, source, now),
    ensures
        said is None || said->Some_0 is Answer || said->Some_0 is Listen ==> after == before && step
            is Close,
        said matches Some(ClientMessageView::Accept(id)) ==> {
            &&& step is Splice <==> before.pending.contains_key(id@)
            &&& step is Splice ==> step->Splice_0 == before.pending[id@]
        },
        said == Some(ClientMessageView::Register) ==> {
            &&& step is Persist || step is Refuse
            &&& before.identities.submap_of(after.identities)
            &&& after == (ServerView {
                identities: after.identities,
                rate: asked(before.rate, source, now),
                metrics: after.metrics,
                ..before
            })
        },
        said matches Some(ClientMessageView::Authenticate(subdomain)) ==> {
            &&& step is Refuse || step is Challenge && step->Challenge_1.subdomain == subdomain
            &&& after == (ServerView {
                metrics: after.metrics,
                last_challenge: after.last_challenge,
                ..before
            })
        },
{
}

/// Routes that are free, within the share of the identity and on open ports are bound: in a
/// session that has not been before, with the address of each, and nothing else changes.
pub proof fn law_right_routes_are_bound(
    v: ServerView,
    subdomain: Seq<char>,
    said: Option<ClientMessageView>,
    keys: Seq<RouteKey>,
)
    requires
        requested(said, subdomain, v.base_domain, v.ports) == Ok::<Seq<RouteKey>, ListenError>(
            keys,
        ),
        keys.no_duplicates(),
        forall|i: int| 0 <= i < keys.len() ==> !v.registry.routes.contains_key(#[trigger] keys[i]),
        held(v.registry.sessions, subdomain) + keys.len() <= v.max_per_identity,
    ensures
        routes_asked(v, subdomain, said) == Ok::<Seq<RouteKey>, ListenError>(keys),
        (forall|i: int| 0 <= i < keys.len() ==> v.registry.ports.contains((#[trigger] keys[i]).1))
            && v.registry.next_session < u64::MAX ==> {
            let bound = routes_bound(v, subdomain, keys);
            &&& bound.1 is Bound
            &&& bound.1->Bound_0 == v.registry.next_session
            &&& bound.1->Bound_1 == ServerMessageView::Bound(addresses_of(keys))
            &&& bound.0 == (ServerView { registry: claimed(v.registry, subdomain, keys), ..v })
        },
{
    assert(all_free(v.registry, keys));
    if forall|i: int| 0 <= i < keys.len() ==> v.registry.ports.contains((#[trigger] keys[i]).1) {
        lemma_none_closed(v.registry.ports, keys);
    }
}

proof fn lemma_none_closed(ports: Ports, keys: Seq<RouteKey>)
    requires
        forall|i: int| 0 <= i < keys.len() ==> ports.contains((#[trigger] keys[i]).1),
    ensures
        first_closed(ports, keys) is None,
    decreases keys.len(),
{
    if keys.len() > 0 {
        let rest = keys.drop_last();
        assert forall|i: int| 0 <= i < rest.len() implies ports.contains((#[trigger] rest[i]).1) by {
            assert(rest[i] == keys[i]);
        }
        lemma_none_closed(ports, rest);
        assert(ports.contains(keys[keys.len() - 1].1));
    }
}

proof fn lemma_first_closed(ports: Ports, keys: Seq<RouteKey>) -> (at: int)
    requires
        first_closed(ports, keys) is Some,
    ensures
        0 <= at < keys.len(),
        first_closed(ports, keys) == Some(keys[at].1),
        !ports.contains(keys[at].1),
        forall|i: int| 0 <= i < at ==> ports.contains((#[trigger] keys[i]).1),
    decreases keys.len(),
{
    let rest = keys.drop_last();
    if first_closed(ports, rest) is Some {
        let at = lemma_first_closed(ports, rest);
        assert forall|i: int| 0 <= i < at implies ports.contains((#[trigger] keys[i]).1) by {
            assert(rest[i] == keys[i]);
        }
        at
    } else {
        assert forall|i: int| 0 <= i < rest.len() implies ports.contains((#[trigger] keys[i]).1) by {
            lemma_before_closed(ports, rest, i);
            assert(rest[i] == keys[i]);
        }
        keys.len() - 1
    }
}

proof fn lemma_before_closed(ports: Ports, keys: Seq<RouteKey>, i: int)
    requires
        first_closed(ports, keys) is None,
        0 <= i < keys.len(),
    ensures
        ports.contains(keys[i].1),
    decreases keys.len(),
{
    if i < keys.len() - 1 {
        lemma_before_closed(ports, keys.drop_last(), i);
    }
}

/// What is refused of routes that were rightly asked for, and what is put off: too many are
/// refused where they are free; and where they may be had but a port is closed, the first
/// such port is to be opened and nothing changes before that.
pub proof fn law_routes_wait_for_ports(v: ServerView, subdomain: Seq<char>, keys: Seq<RouteKey>)
    ensures
        ({
            let (after, step) = routes_bound(v, subdomain, keys);
            &&& step !is Bound ==> after == v
            &&& all_free(v.registry, keys) && held(v.registry.sessions, subdomain) + keys.len()
                > v.max_per_identity ==> step == BindView::Refuse(ListenError::TooManyRoutes)
            &&& step is Bound ==> {
                &&& all_free(v.registry, keys)
                &&& held(v.registry.sessions, subdomain) + keys.len() <= v.max_per_identity
            }
        }),
        routes_bound(v, subdomain, keys).1 is Open ==> first_needed(
            v.registry.ports,
            keys,
            routes_bound(v, subdomain, keys).1->Open_0,
        ),
        routes_bound(v, subdomain, keys).1 is Bound ==> forall|i: int|
            0 <= i < keys.len() ==> v.registry.ports.contains((#[trigger] keys[i]).1),
{
    if routes_bound(v, subdomain, keys).1 is Open {
        let at = lemma_first_closed(v.registry.ports, keys);
        assert(needed_at(v.registry.ports, keys, routes_bound(v, subdomain, keys).1->Open_0, at));
    }
    if routes_bound(v, subdomain, keys).1 is Bound {
        assert forall|i: int| 0 <= i < keys.len() implies v.registry.ports.contains(
            (#[trigger] keys[i]).1,
        ) by {
            lemma_before_closed(v.registry.ports, keys, i);
        }
    }
}

/// Whether the port of the route at some place is closed, and those of all before are open.
pub open spec fn needed_at(ports: Ports, keys: Seq<RouteKey>, port: u16, at: int) -> bool {
    &&& 0 <= at < keys.len()
    &&& keys[at].1 == port
    &&& !ports.contains(port)
    &&& forall|i: int| 0 <= i < at ==> ports.contains((#[trigger] keys[i]).1)
}

/// Whether a port is the first among those of some routes that is closed.
pub open spec fn first_needed(ports: Ports, keys: Seq<RouteKey>, port: u16) -> bool {
    exists|at: int| #[trigger] needed_at(ports, keys, port, at)
}

/// The client of a session is sent each notice as it is and a heartbeat when it is time;
/// the session ends when nothing more comes, or nothing more can be sent.
pub proof fn law_session_passes_notices_on(event: SessionEventView)
    ensures
        event matches SessionEventView::Notice(notice) ==> session_reply(event) == Some(notice),
        event is Tick ==> session_reply(event) == Some(ServerMessageView::Heartbeat),
        session_reply(event) is None <==> event is Ended || event is SendFailed,
{
}

/// The end of a session changes nothing but which session owns what, and frees each route
/// that it owned.
pub proof fn law_ended_session_frees_routes(v: ServerView, session: u64, key: RouteKey)
    requires
        server_ok(v),
    ensures
        ({
            let after = session_ended(v, session);
            &&& after == (ServerView { registry: after.registry, ..v })
            &&& after.registry.ports == v.registry.ports
            &&& after.registry.next_session == v.registry.next_session
            &&& after.registry.routes.get(key) == (if v.registry.routes.get(key) == Some(session) {
                None
            } else {
                v.registry.routes.get(key)
            })
        }),
{
    law_release_keeps_others(v.registry, session, key);
}

/// A player is dropped for hanging up exactly when nothing more is read, and otherwise what
/// is done depends on all that was read, not on what came last: it is routed by the
/// hostname that its bytes name, dropped where they are no handshake, and otherwise more is
/// read.
pub proof fn law_all_bytes_decide(buf: Seq<u8>, chunk: Seq<u8>)
    ensures
        handshake_read(buf, chunk) == HandshakeStepView::Fail(HandshakeError::Closed) <==> chunk.len()
            == 0,
        chunk.len() > 0 ==> match handshake(buf + chunk) {
            HandshakeView::Hostname(name) => handshake_read(buf, chunk) == HandshakeStepView::Route(
                name,
            ),
            HandshakeView::NeedMore => handshake_read(buf, chunk) is ReadMore,
            HandshakeView::Invalid => handshake_read(buf, chunk) == HandshakeStepView::Fail(
                HandshakeError::NotHandshake,
            ),
        },
        chunk.len() > 0 ==> handshake_read(buf, chunk) == handshake_read(
            Seq::empty(),
            buf + chunk,
        ),
{
    lemma_varint_range(buf + chunk);
    assert(Seq::<u8>::empty() + (buf + chunk) =~= buf + chunk);
}

/// A connection whose client was told of it counts as routed and keeps waiting; one whose
/// client could not be told waits no longer, and counts as nothing. No other connection is
/// touched.
pub proof fn law_untold_connection_is_dropped(v: ServerView, id: Uuid, sent: bool, other: Seq<u8>)
    ensures
        ({
            let after = client_notified(v, id, sent);
            &&& sent ==> after == (ServerView {
                metrics: recorded(v.metrics, Recording::PlayerConnected),
                ..v
            })
            &&& !sent ==> {
                &&& after == (ServerView { pending: after.pending, ..v })
                &&& !after.pending.contains_key(id@)
                &&& other != id@ ==> after.pending.get(other) == v.pending.get(other)
            }
        }),
{
}

/// A connection that still waits when its time is over is forgotten and counts as stale;
/// one that does not wait any more counts as nothing. No other connection is touched.
pub proof fn law_expired_connection_is_stale(v: ServerView, id: Uuid, other: Seq<u8>)
    ensures
        ({
            let after = pending_expired(v, id);
            &&& !after.pending.contains_key(id@)
            &&& other != id@ ==> after.pending.get(other) == v.pending.get(other)
            &&& v.pending.contains_key(id@) ==> after.metrics == recorded(
                v.metrics,
                Recording::Stale,
            )
            &&& !v.pending.contains_key(id@) ==> after == v
            &&& after == (ServerView { pending: after.pending, metrics: after.metrics, ..v })
        }),
{
}

/// The end of a spliced connection is recorded once, and the bytes of both ways where it
/// was closed cleanly.
pub proof fn law_splice_end_is_recorded(m: MetricsView, up: u64, down: u64)
    ensures
        splice_ended(m, None) == recorded(m, Recording::Closed),
        splice_ended(m, Some((up, down))) == recorded(
            recorded(recorded(m, Recording::Closed), Recording::Bytes(up)),
            Recording::Bytes(down),
        ),
        splice_ended(m, Some((up, down))) == splice_ended(m, Some((down, up))),
{
}

/// The rendered metrics give every counter its value, and every gauge what it is the number
/// of: live connections, identities, pending players, open ports and owned routes.
#[verifier::spinoff_prover]
pub proof fn law_rendered_metrics_are_true(v: ServerView)
    ensures
        shows(
            rendered(v),
            "bftunnel_registrations_total"@,
            "Identities successfully issued."@,
            "counter"@,
            v.metrics.registrations,
        ),
        shows(
            rendered(v),
            "bftunnel_registrations_rate_limited_total"@,
            "Registrations refused by the per-IP rate limiter."@,
            "counter"@,
            v.metrics.registrations_rate_limited,
        ),
        shows(
            rendered(v),
            "bftunnel_registrations_capacity_total"@,
            "Registrations refused because the identity cap was reached."@,
            "counter"@,
            v.metrics.registrations_capacity,
        ),
        shows(
            rendered(v),
            "bftunnel_auth_failures_total"@,
            "Failed authentication attempts."@,
            "counter"@,
            v.metrics.auth_failures,
        ),
        shows(
            rendered(v),
            "bftunnel_player_connections_total"@,
            "Player connections routed to a client."@,
            "counter"@,
            v.metrics.player_connections,
        ),
        shows(
            rendered(v),
            "bftunnel_handshake_failures_total"@,
            "Player connections dropped on a bad or slow handshake."@,
            "counter"@,
            v.metrics.handshake_failures,
        ),
        shows(
            rendered(v),
            "bftunnel_unknown_host_total"@,
            "Player connections for an unregistered hostname."@,
            "counter"@,
            v.metrics.unknown_host,
        ),
        shows(
            rendered(v),
            "bftunnel_pending_full_total"@,
            "Player connections shed because the pending cap was reached."@,
            "counter"@,
            v.metrics.pending_full,
        ),
        shows(
            rendered(v),
            "bftunnel_stale_connections_total"@,
            "Pending connections dropped before being accepted."@,
            "counter"@,
            v.metrics.stale_connections,
        ),
        shows(
            rendered(v),
            "bftunnel_bytes_proxied_total"@,
            "Bytes proxied across cleanly closed player connections."@,
            "counter"@,
            v.metrics.bytes_proxied,
        ),
        shows(
            rendered(v),
            "bftunnel_active_connections"@,
            "Currently live, spliced player connections."@,
            "gauge"@,
            v.metrics.active_connections,
        ),
        shows(
            rendered(v),
            "bftunnel_active_identities"@,
            "Identities currently in the store."@,
            "gauge"@,
            v.identities.len() as u64,
        ),
        shows(
            rendered(v),
            "bftunnel_pending_connections"@,
            "Player connections awaiting acceptance."@,
            "gauge"@,
            v.pending.len() as u64,
        ),
        shows(
            rendered(v),
            "bftunnel_open_ports"@,
            "Public ports with an open listener."@,
            "gauge"@,
            v.registry.ports.len() as u64,
        ),
        shows(
            rendered(v),
            "bftunnel_active_tunnels"@,
            "Routes currently registered across all ports."@,
            "gauge"@,
            v.registry.routes.len() as u64,
        ),
{
    law_counters_are_shown(v.metrics);
    law_gauges_are_shown(
        v.metrics.active_connections,
        v.identities.len() as u64,
        v.pending.len() as u64,
        v.registry.ports.len() as u64,
        v.registry.routes.len() as u64,
    );
    law_shown_in_whole(
        counters_text(v.metrics),
        gauges_text(
            v.metrics.active_connections,
            v.identities.len() as u64,
            v.pending.len() as u64,
            v.registry.ports.len() as u64,
            v.registry.routes.len() as u64,
        ),
    );
}

/// No two identities are opened by one token: whoever was given a token cannot authenticate
/// with it as somebody who was there before, for the relay checks the answers for every
/// other subdomain with another key. Left out is a relay whose identities are opened by more
/// different tokens than can be tried.
pub proof fn law_token_opens_one_identity(
    before: ServerView,
    after: ServerView,
    step: ControlView,
    source: IpAddr,
    now: u64,
    other: Seq<char>,
    challenge: Uuid,
)
    requires
        registers(before, after, step, source, now),
        step is Persist,
        !tokens_exhausted(before.identities),
        other != step->Persist_0,
    ensures
        auth_begun(after, other, challenge).1 matches ControlView::Challenge(_, pending)
            ==> pending.key != token_key_of(step->Persist_1),
{
    let subdomain = step->Persist_0;
    let token = step->Persist_1;
    law_issued_key(
        before.identities,
        subdomain,
        token,
        after.identities[subdomain].created_at,
        other,
    );
    assert(key_in(before.identities, other) != Some(token_key_of(token))) by {
        assert(!token_taken(before.identities, token));
    }
}

} // verus!
