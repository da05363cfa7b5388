//! Lightweight relay metrics in Prometheus text format.
//!
//! Counters and one gauge are kept here; the other gauges (active identities, pending
//! connections, open ports, active tunnels) are read from the relay's live state at
//! scrape time. [`Metrics::render`] formats everything as the Prometheus text
//! exposition format. All of them wrap around at 64 bits.

use vstd::prelude::*;
use vstd::string::*;
use vstd::utf8::encode_utf8;

use crate::text::{decimal, law_decimal_reads_back, number_read, push_decimal};

verus! {

/// The values of the counters and of the gauge.
pub struct MetricsView {
    /// Identities successfully issued.
    pub registrations: u64,
    /// Registrations refused by the per-IP rate limiter.
    pub registrations_rate_limited: u64,
    /// Registrations refused because the identity cap was reached.
    pub registrations_capacity: u64,
    /// Failed authentication attempts (unknown subdomain or bad token).
    pub auth_failures: u64,
    /// Player connections successfully routed to a client.
    pub player_connections: u64,
    /// Player connections dropped before routing due to a bad/slow handshake.
    pub handshake_failures: u64,
    /// Player connections for a hostname nobody registered on that port.
    pub unknown_host: u64,
    /// Player connections shed because the pending-connection cap was reached.
    pub pending_full: u64,
    /// Pending connections dropped because the client never accepted in time.
    pub stale_connections: u64,
    /// Bytes proxied across all (cleanly closed) player connections.
    pub bytes_proxied: u64,
    /// Currently live, spliced player connections (gauge).
    pub active_connections: u64,
}

/// Counters and gauges collected by the relay.
#[derive(Debug)]
pub struct Metrics {
    registrations: u64,
    registrations_rate_limited: u64,
    registrations_capacity: u64,
    auth_failures: u64,
    player_connections: u64,
    handshake_failures: u64,
    unknown_host: u64,
    pending_full: u64,
    stale_connections: u64,
    bytes_proxied: u64,
    active_connections: u64,
}

impl View for Metrics {
    type V = MetricsView;

    closed spec fn view(&self) -> MetricsView {
        MetricsView {
            registrations: self.registrations,
            registrations_rate_limited: self.registrations_rate_limited,
            registrations_capacity: self.registrations_capacity,
            auth_failures: self.auth_failures,
            player_connections: self.player_connections,
            handshake_failures: self.handshake_failures,
            unknown_host: self.unknown_host,
            pending_full: self.pending_full,
            stale_connections: self.stale_connections,
            bytes_proxied: self.bytes_proxied,
            active_connections: self.active_connections,
        }
    }
}

/// All values at zero.
pub open spec fn zero_metrics() -> MetricsView {
    MetricsView {
        registrations: 0,
        registrations_rate_limited: 0,
        registrations_capacity: 0,
        auth_failures: 0,
        player_connections: 0,
        handshake_failures: 0,
        unknown_host: 0,
        pending_full: 0,
        stale_connections: 0,
        bytes_proxied: 0,
        active_connections: 0,
    }
}

/// One more, at 64 bits.
pub open spec fn plus_one(n: u64) -> u64 {
    wrapped_sum(n, 1)
}

/// The sum at 64 bits.
pub open spec fn wrapped_sum(n: u64, more: u64) -> u64 {
    if n + more > u64::MAX {
        (n + more - u64::MAX - 1) as u64
    } else {
        (n + more) as u64
    }
}

/// One less, at 64 bits.
pub open spec fn minus_one(n: u64) -> u64 {
    if n == 0 {
        u64::MAX
    } else {
        (n - 1) as u64
    }
}

/// The values once one more spliced connection is live.
pub open spec fn with_connection(m: MetricsView) -> MetricsView {
    MetricsView { active_connections: plus_one(m.active_connections), ..m }
}

/// The values once one spliced connection has ended.
pub open spec fn without_connection(m: MetricsView) -> MetricsView {
    MetricsView { active_connections: minus_one(m.active_connections), ..m }
}

/// One call that records something.
pub enum Recording {
    /// [`Metrics::registration_issued`].
    Issued,
    /// [`Metrics::registration_rate_limited`].
    RateLimited,
    /// [`Metrics::registration_at_capacity`].
    AtCapacity,
    /// [`Metrics::auth_failed`].
    AuthFailed,
    /// [`Metrics::player_connected`].
    PlayerConnected,
    /// [`Metrics::handshake_failed`].
    HandshakeFailed,
    /// [`Metrics::unknown_host`].
    UnknownHost,
    /// [`Metrics::pending_full`].
    PendingFull,
    /// [`Metrics::stale_connection`].
    Stale,
    /// [`Metrics::add_bytes`].
    Bytes(u64),
    /// [`Metrics::connection_guard`].
    Opened,
    /// [`ConnectionGuard::drop`].
    Closed,
}

/// The values after one recording.
pub open spec fn recorded(m: MetricsView, r: Recording) -> MetricsView {
    match r {
        Recording::Issued => MetricsView { registrations: plus_one(m.registrations), ..m },
        Recording::RateLimited => MetricsView {
            registrations_rate_limited: plus_one(m.registrations_rate_limited),
            ..m
        },
        Recording::AtCapacity => MetricsView {
            registrations_capacity: plus_one(m.registrations_capacity),
            ..m
        },
        Recording::AuthFailed => MetricsView { auth_failures: plus_one(m.auth_failures), ..m },
        Recording::PlayerConnected => MetricsView {
            player_connections: plus_one(m.player_connections),
            ..m
        },
        Recording::HandshakeFailed => MetricsView {
            handshake_failures: plus_one(m.handshake_failures),
            ..m
        },
        Recording::UnknownHost => MetricsView { unknown_host: plus_one(m.unknown_host), ..m },
        Recording::PendingFull => MetricsView { pending_full: plus_one(m.pending_full), ..m },
        Recording::Stale => MetricsView {
            stale_connections: plus_one(m.stale_connections),
            ..m
        },
        Recording::Bytes(bytes) => MetricsView {
            bytes_proxied: wrapped_sum(m.bytes_proxied, bytes),
            ..m
        },
        Recording::Opened => with_connection(m),
        Recording::Closed => without_connection(m),
    }
}

/// The values after some recordings, in order.
pub open spec fn all_recorded(m: MetricsView, recordings: Seq<Recording>) -> MetricsView
    decreases recordings.len(),
{
    if recordings.len() == 0 {
        m
    } else {
        recorded(all_recorded(m, recordings.drop_last()), recordings.last())
    }
}

/// How often something was recorded.
pub open spec fn times(recordings: Seq<Recording>, r: Recording) -> nat
    decreases recordings.len(),
{
    if recordings.len() == 0 {
        0
    } else {
        times(recordings.drop_last(), r) + if recordings.last() == r {
            1nat
        } else {
            0nat
        }
    }
}

/// The sum of the bytes that were recorded.
pub open spec fn bytes_recorded(recordings: Seq<Recording>) -> nat
    decreases recordings.len(),
{
    if recordings.len() == 0 {
        0
    } else {
        bytes_recorded(recordings.drop_last()) + match recordings.last() {
            Recording::Bytes(bytes) => bytes as nat,
            _ => 0,
        }
    }
}

/// One metric in the text format: its help line, its type line and its value.
pub open spec fn sample(name: Seq<char>, help: Seq<char>, kind: Seq<char>, value: u64) -> Seq<
    char,
> {
    "# HELP "@ + name + " "@ + help + "\n# TYPE "@ + name + " "@ + kind + "\n"@ + name + " "@
        + decimal(value as nat) + "\n"@
}

/// A metric that only grows.
pub open spec fn counter_text(name: Seq<char>, help: Seq<char>, value: u64) -> Seq<char> {
    sample(name, help, "counter"@, value)
}

/// A metric that goes up and down.
pub open spec fn gauge_text(name: Seq<char>, help: Seq<char>, value: u64) -> Seq<char> {
    sample(name, help, "gauge"@, value)
}

/// The counters in the text format.
pub open spec fn counters_text(m: MetricsView) -> Seq<char> {
    counter_text(
        "bftunnel_registrations_total"@,
        "Identities successfully issued."@,
        m.registrations,
    )
        + counter_text(
        "bftunnel_registrations_rate_limited_total"@,
        "Registrations refused by the per-IP rate limiter."@,
        m.registrations_rate_limited,
    )
        + counter_text(
        "bftunnel_registrations_capacity_total"@,
        "Registrations refused because the identity cap was reached."@,
        m.registrations_capacity,
    )
        + counter_text(
        "bftunnel_auth_failures_total"@,
        "Failed authentication attempts."@,
        m.auth_failures,
    )
        + counter_text(
        "bftunnel_player_connections_total"@,
        "Player connections routed to a client."@,
        m.player_connections,
    )
        + counter_text(
        "bftunnel_handshake_failures_total"@,
        "Player connections dropped on a bad or slow handshake."@,
        m.handshake_failures,
    )
        + counter_text(
        "bftunnel_unknown_host_total"@,
        "Player connections for an unregistered hostname."@,
        m.unknown_host,
    )
        + counter_text(
        "bftunnel_pending_full_total"@,
        "Player connections shed because the pending cap was reached."@,
        m.pending_full,
    )
        + counter_text(
        "bftunnel_stale_connections_total"@,
        "Pending connections dropped before being accepted."@,
        m.stale_connections,
    )
        + counter_text(
        "bftunnel_bytes_proxied_total"@,
        "Bytes proxied across cleanly closed player connections."@,
        m.bytes_proxied,
    )
}

/// The gauges in the text format.
pub open spec fn gauges_text(
    active_connections: u64,
    active_identities: u64,
    pending_connections: u64,
    open_ports: u64,
    active_tunnels: u64,
) -> Seq<char> {
    gauge_text(
        "bftunnel_active_connections"@,
        "Currently live, spliced player connections."@,
        active_connections,
    )
        + gauge_text(
        "bftunnel_active_identities"@,
        "Identities currently in the store."@,
        active_identities,
    )
        + gauge_text(
        "bftunnel_pending_connections"@,
        "Player connections awaiting acceptance."@,
        pending_connections,
    )
        + gauge_text(
        "bftunnel_open_ports"@,
        "Public ports with an open listener."@,
        open_ports,
    )
        + gauge_text(
        "bftunnel_active_tunnels"@,
        "Routes currently registered across all ports."@,
        active_tunnels,
    )
}

fn push_sample(out: &mut String, name: &str, help: &str, kind: &str, value: u64)
    ensures
        final(out)@ == old(out)@ + sample(name@, help@, kind@, value),
{
    out.append("# HELP ");
    out.append(name);
    out.append(" ");
    out.append(help);
    out.append("\n# TYPE ");
    out.append(name);
    out.append(" ");
    out.append(kind);
    out.append("\n");
    out.append(name);
    out.append(" ");
    push_decimal(out, value);
    out.append("\n");
    assert(out@ =~= old(out)@ + sample(name@, help@, kind@, value));
}

fn counter(out: &mut String, name: &str, help: &str, value: u64)
    ensures
        final(out)@ == old(out)@ + counter_text(name@, help@, value),
{
    push_sample(out, name, help, "counter", value);
}

fn gauge(out: &mut String, name: &str, help: &str, value: u64)
    ensures
        final(out)@ == old(out)@ + gauge_text(name@, help@, value),
{
    push_sample(out, name, help, "gauge", value);
}

impl Default for Metrics {
    /// Metrics with every value at zero.
    fn default() -> (res: Metrics)
        ensures
            res@ == zero_metrics(),
    {
        Metrics {
            registrations: 0,
            registrations_rate_limited: 0,
            registrations_capacity: 0,
            auth_failures: 0,
            player_connections: 0,
            handshake_failures: 0,
            unknown_host: 0,
            pending_full: 0,
            stale_connections: 0,
            bytes_proxied: 0,
            active_connections: 0,
        }
    }
}

impl Metrics {
    /// Record a successfully issued identity.
    pub fn registration_issued(&mut self)
        ensures
            final(self)@ == recorded(old(self)@, Recording::Issued),
    {
        self.registrations = self.registrations.wrapping_add(1);
    }

    /// Record a registration refused by the rate limiter.
    pub fn registration_rate_limited(&mut self)
        ensures
            final(self)@ == recorded(old(self)@, Recording::RateLimited),
    {
        self.registrations_rate_limited = self.registrations_rate_limited.wrapping_add(1);
    }

    /// Record a registration refused because the identity cap was reached.
    pub fn registration_at_capacity(&mut self)
        ensures
            final(self)@ == recorded(old(self)@, Recording::AtCapacity),
    {
        self.registrations_capacity = self.registrations_capacity.wrapping_add(1);
    }

    /// Record a failed authentication.
    pub fn auth_failed(&mut self)
        ensures
            final(self)@ == recorded(old(self)@, Recording::AuthFailed),
    {
        self.auth_failures = self.auth_failures.wrapping_add(1);
    }

    /// Record a player connection that was routed to a client.
    pub fn player_connected(&mut self)
        ensures
            final(self)@ == recorded(old(self)@, Recording::PlayerConnected),
    {
        self.player_connections = self.player_connections.wrapping_add(1);
    }

    /// Record a player connection dropped on a bad/slow handshake.
    pub fn handshake_failed(&mut self)
        ensures
            final(self)@ == recorded(old(self)@, Recording::HandshakeFailed),
    {
        self.handshake_failures = self.handshake_failures.wrapping_add(1);
    }

    /// Record a player connection for an unregistered hostname.
    pub fn unknown_host(&mut self)
        ensures
            final(self)@ == recorded(old(self)@, Recording::UnknownHost),
    {
        self.unknown_host = self.unknown_host.wrapping_add(1);
    }

    /// Record a player connection shed because the pending cap was reached.
    pub fn pending_full(&mut self)
        ensures
            final(self)@ == recorded(old(self)@, Recording::PendingFull),
    {
        self.pending_full = self.pending_full.wrapping_add(1);
    }

    /// Record a pending connection dropped because it was never accepted in time.
    pub fn stale_connection(&mut self)
        ensures
            final(self)@ == recorded(old(self)@, Recording::Stale),
    {
        self.stale_connections = self.stale_connections.wrapping_add(1);
    }

    /// Add proxied bytes to the running total.
    pub fn add_bytes(&mut self, bytes: u64)
        ensures
            final(self)@ == recorded(old(self)@, Recording::Bytes(bytes)),
    {
        self.bytes_proxied = self.bytes_proxied.wrapping_add(bytes);
    }

    /// Mark a spliced connection as live, returning a guard whose
    /// [`drop`](ConnectionGuard::drop) ends it.
    pub fn connection_guard(&mut self) -> (res: ConnectionGuard)
        ensures
            final(self)@ == recorded(old(self)@, Recording::Opened),
    {
        self.active_connections = self.active_connections.wrapping_add(1);
        ConnectionGuard { live: () }
    }

    /// Render all metrics as Prometheus text. The arguments are gauges read from the
    /// relay's live state at scrape time.
    pub fn render(
        &self,
        active_identities: u64,
        pending_connections: u64,
        open_ports: u64,
        active_tunnels: u64,
    ) -> (res: String)
        ensures
            res@ == counters_text(self@) + gauges_text(
                self@.active_connections,
                active_identities,
                pending_connections,
                open_ports,
                active_tunnels,
            ),
    {
        let mut out: String = String::new();
        counter(
            &mut out,
            "bftunnel_registrations_total",
            "Identities successfully issued.",
            self.registrations,
        );
        counter(
            &mut out,
            "bftunnel_registrations_rate_limited_total",
            "Registrations refused by the per-IP rate limiter.",
            self.registrations_rate_limited,
        );
        counter(
            &mut out,
            "bftunnel_registrations_capacity_total",
            "Registrations refused because the identity cap was reached.",
            self.registrations_capacity,
        );
        counter(
            &mut out,
            "bftunnel_auth_failures_total",
            "Failed authentication attempts.",
            self.auth_failures,
        );
        counter(
            &mut out,
            "bftunnel_player_connections_total",
            "Player connections routed to a client.",
            self.player_connections,
        );
        counter(
            &mut out,
            "bftunnel_handshake_failures_total",
            "Player connections dropped on a bad or slow handshake.",
            self.handshake_failures,
        );
        counter(
            &mut out,
            "bftunnel_unknown_host_total",
            "Player connections for an unregistered hostname.",
            self.unknown_host,
        );
        counter(
            &mut out,
            "bftunnel_pending_full_total",
            "Player connections shed because the pending cap was reached.",
            self.pending_full,
        );
        counter(
            &mut out,
            "bftunnel_stale_connections_total",
            "Pending connections dropped before being accepted.",
            self.stale_connections,
        );
        counter(
            &mut out,
            "bftunnel_bytes_proxied_total",
            "Bytes proxied across cleanly closed player connections.",
            self.bytes_proxied,
        );
        assert(out@ =~= counters_text(self@));
        let ghost counters = out@;
        gauge(
            &mut out,
            "bftunnel_active_connections",
            "Currently live, spliced player connections.",
            self.active_connections,
        );
        gauge(
            &mut out,
            "bftunnel_active_identities",
            "Identities currently in the store.",
            active_identities,
        );
        gauge(
            &mut out,
            "bftunnel_pending_connections",
            "Player connections awaiting acceptance.",
            pending_connections,
        );
        gauge(
            &mut out,
            "bftunnel_open_ports",
            "Public ports with an open listener.",
            open_ports,
        );
        gauge(
            &mut out,
            "bftunnel_active_tunnels",
            "Routes currently registered across all ports.",
            active_tunnels,
        );
        assert(out@ =~= counters + gauges_text(
            self@.active_connections,
            active_identities,
            pending_connections,
            open_ports,
            active_tunnels,
        ));
        out
    }
}

/// Proof that one spliced connection was counted as live. It cannot be copied, so the
/// gauge goes down at most once for each time it went up.
#[derive(Debug)]
pub struct ConnectionGuard {
    live: (),
}

impl ConnectionGuard {
    /// Decrements the live-connection gauge.
    pub fn drop(self, metrics: &mut Metrics)
        ensures
            final(metrics)@ == recorded(old(metrics)@, Recording::Closed),
    {
        metrics.active_connections = metrics.active_connections.wrapping_sub(1);
    }
}

/// The path that metrics are served on, in a request.
pub open spec fn metrics_request() -> Seq<u8> {
    encode_utf8("GET /metrics "@)
}

/// The HTTP response that carries a text.
pub open spec fn http_response(status: Seq<char>, body: Seq<char>) -> Seq<char> {
    "HTTP/1.1 "@ + status
        + "\r\nContent-Type: text/plain; version=0.0.4\r\nConnection: close\r\nContent-Length: "@
        + decimal(encode_utf8(body).len()) + "\r\n\r\n"@ + body
}

/// The HTTP response to a request: the metrics, or an error for any other path.
pub open spec fn metrics_response(request: Seq<u8>, metrics: Seq<char>) -> Seq<char> {
    if metrics_request().is_prefix_of(request) {
        http_response("200 OK"@, metrics)
    } else {
        http_response("404 Not Found"@, "not found\n"@)
    }
}

fn respond(status: &str, body: &str) -> (res: String)
    ensures
        res@ == http_response(status@, body@),
{
    let mut out: String = "HTTP/1.1 ".to_string();
    out.append(status);
    out.append(
        "\r\nContent-Type: text/plain; version=0.0.4\r\nConnection: close\r\nContent-Length: ",
    );
    push_decimal(&mut out, body.as_bytes().len() as u64);
    out.append("\r\n\r\n");
    out.append(body);
    out
}

/// The HTTP response to a request for metrics.
pub fn answer_scrape(request: &[u8], metrics: &str) -> (res: String)
    ensures
        res@ == metrics_response(request@, metrics@),
{
    let wanted: &[u8] = "GET /metrics ".as_bytes();
    let mut matched: bool = wanted.len() <= request.len();
    let mut i: usize = 0;
    while matched && i < wanted.len()
        invariant
            wanted@ == metrics_request(),
            i <= wanted@.len(),
            matched ==> wanted@.len() <= request@.len(),
            matched ==> forall|j: int| 0 <= j < i ==> #[trigger] wanted@[j] == request@[j],
            !matched ==> !wanted@.is_prefix_of(request@),
        decreases wanted@.len() - i,
    {
        if wanted[i] != request[i] {
            matched = false;
            assert(wanted@[i as int] != request@.take(wanted@.len() as int)[i as int]);
        }
        i = i + 1;
    }
    if matched {
        assert(wanted@ =~= request@.take(wanted@.len() as int));
        respond("200 OK", metrics)
    } else {
        respond("404 Not Found", "not found\n")
    }
}

/// Starting a connection and ending one cancel out, in either order.
pub proof fn law_connection_guard_balances(m: MetricsView)
    ensures
        without_connection(with_connection(m)) == m,
        with_connection(without_connection(m)) == m,
{
}

/// A live connection counts as one for as long as its guard is held, whatever else is
/// recorded meanwhile, and once the guard is dropped everything is as if there had been
/// none.
pub proof fn law_guard_counts_while_held(m: MetricsView, meanwhile: Seq<Recording>)
    requires
        forall|i: int|
            0 <= i < meanwhile.len() ==> (#[trigger] meanwhile[i]) !is Opened
                && meanwhile[i] !is Closed,
    ensures
        all_recorded(recorded(m, Recording::Opened), meanwhile) == with_connection(
            all_recorded(m, meanwhile),
        ),
        all_recorded(recorded(m, Recording::Opened), meanwhile).active_connections == plus_one(
            m.active_connections,
        ),
        recorded(all_recorded(recorded(m, Recording::Opened), meanwhile), Recording::Closed)
            == all_recorded(m, meanwhile),
    decreases meanwhile.len(),
{
    if meanwhile.len() > 0 {
        let before = meanwhile.drop_last();
        assert forall|i: int| 0 <= i < before.len() implies (#[trigger] before[i]) !is Opened
            && before[i] !is Closed by {
            assert(before[i] == meanwhile[i]);
        }
        assert(meanwhile.last() == meanwhile[meanwhile.len() - 1]);
        law_guard_counts_while_held(m, before);
    }
}

/// The number of values of 64 bits.
#[verifier::opaque]
spec fn two64() -> int {
    0x1_0000_0000_0000_0000
}

/// Counting at 64 bits keeps a number up to multiples of `two64`.
proof fn lemma_wraps(n: u64, count: int, more: u64)
    requires
        n == count % two64(),
    ensures
        wrapped_sum(n, more) == (count + more) % two64(),
        minus_one(n) == (count - 1) % two64(),
{
    reveal(two64);
}

#[verifier::spinoff_prover]
proof fn lemma_recorded_wraps(recordings: Seq<Recording>)
    ensures
        ({
            let m = all_recorded(zero_metrics(), recordings);
            &&& m.registrations == times(recordings, Recording::Issued) as int % two64()
            &&& m.registrations_rate_limited == times(recordings, Recording::RateLimited) as int
                % two64()
            &&& m.registrations_capacity == times(recordings, Recording::AtCapacity) as int
                % two64()
            &&& m.auth_failures == times(recordings, Recording::AuthFailed) as int % two64()
            &&& m.player_connections == times(recordings, Recording::PlayerConnected) as int
                % two64()
            &&& m.handshake_failures == times(recordings, Recording::HandshakeFailed) as int
                % two64()
            &&& m.unknown_host == times(recordings, Recording::UnknownHost) as int % two64()
            &&& m.pending_full == times(recordings, Recording::PendingFull) as int % two64()
            &&& m.stale_connections == times(recordings, Recording::Stale) as int % two64()
            &&& m.bytes_proxied == bytes_recorded(recordings) as int % two64()
            &&& m.active_connections == (times(recordings, Recording::Opened) - times(
                recordings,
                Recording::Closed,
            )) % two64()
        }),
    decreases recordings.len(),
{
    if recordings.len() == 0 {
        reveal(two64);
    } else {
        let before = recordings.drop_last();
        let m = all_recorded(zero_metrics(), before);
        lemma_recorded_wraps(before);
        match recordings.last() {
            Recording::Issued => {
                lemma_wraps(m.registrations, times(before, Recording::Issued) as int, 1);
            },
            Recording::RateLimited => {
                lemma_wraps(
                    m.registrations_rate_limited,
                    times(before, Recording::RateLimited) as int,
                    1,
                );
            },
            Recording::AtCapacity => {
                lemma_wraps(
                    m.registrations_capacity,
                    times(before, Recording::AtCapacity) as int,
                    1,
                );
            },
            Recording::AuthFailed => {
                lemma_wraps(m.auth_failures, times(before, Recording::AuthFailed) as int, 1);
            },
            Recording::PlayerConnected => {
                lemma_wraps(
                    m.player_connections,
                    times(before, Recording::PlayerConnected) as int,
                    1,
                );
            },
            Recording::HandshakeFailed => {
                lemma_wraps(
                    m.handshake_failures,
                    times(before, Recording::HandshakeFailed) as int,
                    1,
                );
            },
            Recording::UnknownHost => {
                lemma_wraps(m.unknown_host, times(before, Recording::UnknownHost) as int, 1);
            },
            Recording::PendingFull => {
                lemma_wraps(m.pending_full, times(before, Recording::PendingFull) as int, 1);
            },
            Recording::Stale => {
                lemma_wraps(m.stale_connections, times(before, Recording::Stale) as int, 1);
            },
            Recording::Bytes(bytes) => {
                lemma_wraps(m.bytes_proxied, bytes_recorded(before) as int, bytes);
            },
            _ => {
                lemma_wraps(
                    m.active_connections,
                    times(before, Recording::Opened) - times(before, Recording::Closed),
                    1,
                );
            },
        }
    }
}

/// A count of 64 bits is kept as it is.
proof fn lemma_fits(count: int)
    requires
        0 <= count <= u64::MAX,
    ensures
        count % two64() == count,
{
    reveal(two64);
}

/// However calls are interleaved, each counter is the number of calls of its own method,
/// the proxied bytes are the sum of what was added, and the gauge is the number of guards
/// taken and not yet dropped, as long as these numbers have 64 bits. Rendering takes the
/// metrics by shared reference and changes none of them.
#[verifier::spinoff_prover]
pub proof fn law_metrics_count_calls(recordings: Seq<Recording>)
    requires
        forall|r: Recording|
            r !is Bytes && r !is Opened && r !is Closed ==> #[trigger] times(recordings, r)
                <= u64::MAX,
        bytes_recorded(recordings) <= u64::MAX,
        0 <= times(recordings, Recording::Opened) - times(recordings, Recording::Closed)
            <= u64::MAX,
    ensures
        all_recorded(zero_metrics(), recordings) == (MetricsView {
            registrations: times(recordings, Recording::Issued) as u64,
            registrations_rate_limited: times(recordings, Recording::RateLimited) as u64,
            registrations_capacity: times(recordings, Recording::AtCapacity) as u64,
            auth_failures: times(recordings, Recording::AuthFailed) as u64,
            player_connections: times(recordings, Recording::PlayerConnected) as u64,
            handshake_failures: times(recordings, Recording::HandshakeFailed) as u64,
            unknown_host: times(recordings, Recording::UnknownHost) as u64,
            pending_full: times(recordings, Recording::PendingFull) as u64,
            stale_connections: times(recordings, Recording::Stale) as u64,
            bytes_proxied: bytes_recorded(recordings) as u64,
            active_connections: (times(recordings, Recording::Opened) - times(
                recordings,
                Recording::Closed,
            )) as u64,
        }),
{
    lemma_recorded_wraps(recordings);
    lemma_fits(times(recordings, Recording::Issued) as int);
    lemma_fits(times(recordings, Recording::RateLimited) as int);
    lemma_fits(times(recordings, Recording::AtCapacity) as int);
    lemma_fits(times(recordings, Recording::AuthFailed) as int);
    lemma_fits(times(recordings, Recording::PlayerConnected) as int);
    lemma_fits(times(recordings, Recording::HandshakeFailed) as int);
    lemma_fits(times(recordings, Recording::UnknownHost) as int);
    lemma_fits(times(recordings, Recording::PendingFull) as int);
    lemma_fits(times(recordings, Recording::Stale) as int);
    lemma_fits(bytes_recorded(recordings) as int);
    lemma_fits(times(recordings, Recording::Opened) - times(recordings, Recording::Closed));
}

/// Whether a part stands in a text at some place.
pub open spec fn stands_at(text: Seq<char>, part: Seq<char>, at: int) -> bool {
    0 <= at <= text.len() - part.len() && text.subrange(at, at + part.len()) == part
}

/// The lines that say what a metric is for, of what kind it is and what its value is.
pub open spec fn metric_lines(
    name: Seq<char>,
    help: Seq<char>,
    kind: Seq<char>,
    value: u64,
) -> Seq<char> {
    let about = "# HELP "@ + name + " "@ + help + "\n"@;
    let typed = "# TYPE "@ + name + " "@ + kind + "\n"@;
    let given = name + " "@ + decimal(value as nat) + "\n"@;
    about + typed + given
}

/// Whether a text tells of a metric with a value.
pub open spec fn shows(
    text: Seq<char>,
    name: Seq<char>,
    help: Seq<char>,
    kind: Seq<char>,
    value: u64,
) -> bool {
    exists|at: int| #[trigger] stands_at(text, metric_lines(name, help, kind, value), at)
}

proof fn lemma_sample_shows(name: Seq<char>, help: Seq<char>, kind: Seq<char>, value: u64)
    ensures
        shows(sample(name, help, kind, value), name, help, kind, value),
{
    reveal_strlit("\n");
    reveal_strlit("# TYPE ");
    reveal_strlit("\n# TYPE ");
    let text = sample(name, help, kind, value);
    let part = metric_lines(name, help, kind, value);
    assert("\n# TYPE "@ =~= "\n"@ + "# TYPE "@);
    assert(text =~= part);
    assert(text.subrange(0, part.len() as int) =~= part);
    assert(stands_at(text, part, 0));
}

/// A metric that is shown in one of two texts is shown in both of them together.
pub proof fn law_shown_in_whole(a: Seq<char>, b: Seq<char>)
    ensures
        forall|name: Seq<char>, help: Seq<char>, kind: Seq<char>, value: u64|
            shows(a, name, help, kind, value) || shows(b, name, help, kind, value) ==> #[trigger] shows(
                a + b,
                name,
                help,
                kind,
                value,
            ),
{
    assert forall|name: Seq<char>, help: Seq<char>, kind: Seq<char>, value: u64|
        shows(a, name, help, kind, value) || shows(b, name, help, kind, value) implies #[trigger] shows(
        a + b,
        name,
        help,
        kind,
        value,
    ) by {
        let part = metric_lines(name, help, kind, value);
        if shows(a, name, help, kind, value) {
            let at = choose|at: int| #[trigger] stands_at(a, part, at);
            assert((a + b).subrange(at, at + part.len()) =~= a.subrange(at, at + part.len()));
            assert(stands_at(a + b, part, at));
        } else {
            let at = choose|at: int| #[trigger] stands_at(b, part, at);
            let moved = a.len() + at;
            assert((a + b).subrange(moved, moved + part.len()) =~= b.subrange(
                at,
                at + part.len(),
            ));
            assert(stands_at(a + b, part, moved));
        }
    }
}

/// Each counter is shown with its own value.
#[verifier::spinoff_prover]
pub proof fn law_counters_are_shown(m: MetricsView)
    ensures
        shows(
            counters_text(m),
            "bftunnel_registrations_total"@,
            "Identities successfully issued."@,
            "counter"@,
            m.registrations,
        ),
        shows(
            counters_text(m),
            "bftunnel_registrations_rate_limited_total"@,
            "Registrations refused by the per-IP rate limiter."@,
            "counter"@,
            m.registrations_rate_limited,
        ),
        shows(
            counters_text(m),
            "bftunnel_registrations_capacity_total"@,
            "Registrations refused because the identity cap was reached."@,
            "counter"@,
            m.registrations_capacity,
        ),
        shows(
            counters_text(m),
            "bftunnel_auth_failures_total"@,
            "Failed authentication attempts."@,
            "counter"@,
            m.auth_failures,
        ),
        shows(
            counters_text(m),
            "bftunnel_player_connections_total"@,
            "Player connections routed to a client."@,
            "counter"@,
            m.player_connections,
        ),
        shows(
            counters_text(m),
            "bftunnel_handshake_failures_total"@,
            "Player connections dropped on a bad or slow handshake."@,
            "counter"@,
            m.handshake_failures,
        ),
        shows(
            counters_text(m),
            "bftunnel_unknown_host_total"@,
            "Player connections for an unregistered hostname."@,
            "counter"@,
            m.unknown_host,
        ),
        shows(
            counters_text(m),
            "bftunnel_pending_full_total"@,
            "Player connections shed because the pending cap was reached."@,
            "counter"@,
            m.pending_full,
        ),
        shows(
            counters_text(m),
            "bftunnel_stale_connections_total"@,
            "Pending connections dropped before being accepted."@,
            "counter"@,
            m.stale_connections,
        ),
        shows(
            counters_text(m),
            "bftunnel_bytes_proxied_total"@,
            "Bytes proxied across cleanly closed player connections."@,
            "counter"@,
            m.bytes_proxied,
        ),
{
    let c0 = counter_text(
        "bftunnel_registrations_total"@,
        "Identities successfully issued."@,
        m.registrations,
    );
    lemma_sample_shows(
        "bftunnel_registrations_total"@,
        "Identities successfully issued."@,
        "counter"@,
        m.registrations,
    );
    let c1 = counter_text(
        "bftunnel_registrations_rate_limited_total"@,
        "Registrations refused by the per-IP rate limiter."@,
        m.registrations_rate_limited,
    );
    lemma_sample_shows(
        "bftunnel_registrations_rate_limited_total"@,
        "Registrations refused by the per-IP rate limiter."@,
        "counter"@,
        m.registrations_rate_limited,
    );
    let c2 = counter_text(
        "bftunnel_registrations_capacity_total"@,
        "Registrations refused because the identity cap was reached."@,
        m.registrations_capacity,
    );
    lemma_sample_shows(
        "bftunnel_registrations_capacity_total"@,
        "Registrations refused because the identity cap was reached."@,
        "counter"@,
        m.registrations_capacity,
    );
    let c3 = counter_text(
        "bftunnel_auth_failures_total"@,
        "Failed authentication attempts."@,
        m.auth_failures,
    );
    lemma_sample_shows(
        "bftunnel_auth_failures_total"@,
        "Failed authentication attempts."@,
        "counter"@,
        m.auth_failures,
    );
    let c4 = counter_text(
        "bftunnel_player_connections_total"@,
        "Player connections routed to a client."@,
        m.player_connections,
    );
    lemma_sample_shows(
        "bftunnel_player_connections_total"@,
        "Player connections routed to a client."@,
        "counter"@,
        m.player_connections,
    );
    let c5 = counter_text(
        "bftunnel_handshake_failures_total"@,
        "Player connections dropped on a bad or slow handshake."@,
        m.handshake_failures,
    );
    lemma_sample_shows(
        "bftunnel_handshake_failures_total"@,
        "Player connections dropped on a bad or slow handshake."@,
        "counter"@,
        m.handshake_failures,
    );
    let c6 = counter_text(
        "bftunnel_unknown_host_total"@,
        "Player connections for an unregistered hostname."@,
        m.unknown_host,
    );
    lemma_sample_shows(
        "bftunnel_unknown_host_total"@,
        "Player connections for an unregistered hostname."@,
        "counter"@,
        m.unknown_host,
    );
    let c7 = counter_text(
        "bftunnel_pending_full_total"@,
        "Player connections shed because the pending cap was reached."@,
        m.pending_full,
    );
    lemma_sample_shows(
        "bftunnel_pending_full_total"@,
        "Player connections shed because the pending cap was reached."@,
        "counter"@,
        m.pending_full,
    );
    let c8 = counter_text(
        "bftunnel_stale_connections_total"@,
        "Pending connections dropped before being accepted."@,
        m.stale_connections,
    );
    lemma_sample_shows(
        "bftunnel_stale_connections_total"@,
        "Pending connections dropped before being accepted."@,
        "counter"@,
        m.stale_connections,
    );
    let c9 = counter_text(
        "bftunnel_bytes_proxied_total"@,
        "Bytes proxied across cleanly closed player connections."@,
        m.bytes_proxied,
    );
    lemma_sample_shows(
        "bftunnel_bytes_proxied_total"@,
        "Bytes proxied across cleanly closed player connections."@,
        "counter"@,
        m.bytes_proxied,
    );
    law_shown_in_whole(c0, c1);
    let t1 = c0 + c1;
    law_shown_in_whole(t1, c2);
    let t2 = t1 + c2;
    law_shown_in_whole(t2, c3);
    let t3 = t2 + c3;
    law_shown_in_whole(t3, c4);
    let t4 = t3 + c4;
    law_shown_in_whole(t4, c5);
    let t5 = t4 + c5;
    law_shown_in_whole(t5, c6);
    let t6 = t5 + c6;
    law_shown_in_whole(t6, c7);
    let t7 = t6 + c7;
    law_shown_in_whole(t7, c8);
    let t8 = t7 + c8;
    law_shown_in_whole(t8, c9);
}

/// Each gauge is shown with its own value.
#[verifier::spinoff_prover]
pub proof fn law_gauges_are_shown(
    active_connections: u64,
    active_identities: u64,
    pending_connections: u64,
    open_ports: u64,
    active_tunnels: u64,
)
    ensures
        shows(
            gauges_text(
                active_connections,
                active_identities,
                pending_connections,
                open_ports,
                active_tunnels,
            ),
            "bftunnel_active_connections"@,
            "Currently live, spliced player connections."@,
            "gauge"@,
            active_connections,
        ),
        shows(
            gauges_text(
                active_connections,
                active_identities,
                pending_connections,
                open_ports,
                active_tunnels,
            ),
            "bftunnel_active_identities"@,
            "Identities currently in the store."@,
            "gauge"@,
            active_identities,
        ),
        shows(
            gauges_text(
                active_connections,
                active_identities,
                pending_connections,
                open_ports,
                active_tunnels,
            ),
            "bftunnel_pending_connections"@,
            "Player connections awaiting acceptance."@,
            "gauge"@,
            pending_connections,
        ),
        shows(
            gauges_text(
                active_connections,
                active_identities,
                pending_connections,
                open_ports,
                active_tunnels,
            ),
            "bftunnel_open_ports"@,
            "Public ports with an open listener."@,
            "gauge"@,
            open_ports,
        ),
        shows(
            gauges_text(
                active_connections,
                active_identities,
                pending_connections,
                open_ports,
                active_tunnels,
            ),
            "bftunnel_active_tunnels"@,
            "Routes currently registered across all ports."@,
            "gauge"@,
            active_tunnels,
        ),
{
    let g0 = gauge_text(
        "bftunnel_active_connections"@,
        "Currently live, spliced player connections."@,
        active_connections,
    );
    lemma_sample_shows(
        "bftunnel_active_connections"@,
        "Currently live, spliced player connections."@,
        "gauge"@,
        active_connections,
    );
    let g1 = gauge_text(
        "bftunnel_active_identities"@,
        "Identities currently in the store."@,
        active_identities,
    );
    lemma_sample_shows(
        "bftunnel_active_identities"@,
        "Identities currently in the store."@,
        "gauge"@,
        active_identities,
    );
    let g2 = gauge_text(
        "bftunnel_pending_connections"@,
        "Player connections awaiting acceptance."@,
        pending_connections,
    );
    lemma_sample_shows(
        "bftunnel_pending_connections"@,
        "Player connections awaiting acceptance."@,
        "gauge"@,
        pending_connections,
    );
    let g3 = gauge_text(
        "bftunnel_open_ports"@,
        "Public ports with an open listener."@,
        open_ports,
    );
    lemma_sample_shows(
        "bftunnel_open_ports"@,
        "Public ports with an open listener."@,
        "gauge"@,
        open_ports,
    );
    let g4 = gauge_text(
        "bftunnel_active_tunnels"@,
        "Routes currently registered across all ports."@,
        active_tunnels,
    );
    lemma_sample_shows(
        "bftunnel_active_tunnels"@,
        "Routes currently registered across all ports."@,
        "gauge"@,
        active_tunnels,
    );
    law_shown_in_whole(g0, g1);
    let t1 = g0 + g1;
    law_shown_in_whole(t1, g2);
    let t2 = t1 + g2;
    law_shown_in_whole(t2, g3);
    let t3 = t2 + g3;
    law_shown_in_whole(t3, g4);
}

/// A response can be read: it begins with its status, ends with the body, and before that
/// tells the number of the body's bytes.
pub proof fn law_response_carries_body(status: Seq<char>, body: Seq<char>)
    ensures
        ({
            let text = http_response(status, body);
            let start = 9 + status.len() as int;
            let end = text.len() - body.len();
            let fields =
                "\r\nContent-Type: text/plain; version=0.0.4\r\nConnection: close\r\nContent-Length: "@;
            &&& text.take(9) == "HTTP/1.1 "@
            &&& text.subrange(9, start) == status
            &&& text.subrange(start, start + fields.len()) == fields
            &&& number_read(text.subrange(start + fields.len(), end - 4)) == encode_utf8(body).len()
            &&& text.subrange(end - 4, end) == "\r\n\r\n"@
            &&& text.skip(end) == body
        }),
{
    reveal_strlit("HTTP/1.1 ");
    reveal_strlit("\r\n\r\n");
    let text = http_response(status, body);
    let start = 9 + status.len() as int;
    let end = text.len() - body.len();
    let fields =
        "\r\nContent-Type: text/plain; version=0.0.4\r\nConnection: close\r\nContent-Length: "@;
    let digits = decimal(encode_utf8(body).len());
    law_decimal_reads_back(encode_utf8(body).len());
    assert(text.len() == start + fields.len() + digits.len() + 4 + body.len());
    assert(text.take(9) =~= "HTTP/1.1 "@);
    assert(text.subrange(9, start) =~= status);
    assert(text.subrange(start, start + fields.len()) =~= fields);
    assert(text.subrange(start + fields.len(), end - 4) =~= digits);
    assert(text.subrange(end - 4, end) =~= "\r\n\r\n"@);
    assert(text.skip(end) =~= body);
}

/// A request is answered with the metrics exactly where its first bytes ask for them.
pub proof fn law_metrics_are_at_their_path(request: Seq<u8>, metrics: Seq<char>)
    ensures
        ({
            let wanted = encode_utf8("GET /metrics "@);
            if wanted.len() <= request.len() && request.take(wanted.len() as int) == wanted {
                metrics_response(request, metrics) == http_response("200 OK"@, metrics)
            } else {
                metrics_response(request, metrics) == http_response(
                    "404 Not Found"@,
                    "not found\n"@,
                )
            }
        }),
{
}

} // verus!
