//! Limits on what clients may ask of the relay: how often a source may register, how
//! many identities and routes there may be, and how many players may wait.

use vstd::prelude::*;

verus! {

/// An IP address, as a number.
#[derive(Debug, Clone, Copy, PartialEq, Eq, Structural)]
pub enum IpAddr {
    /// An IPv4 address.
    V4(u32),
    /// An IPv6 address.
    V6(u128),
}

/// A socket address: an IP address, as a number, with a port.
#[allow(inconsistent_fields)]
#[derive(Debug, Clone, Copy, PartialEq, Eq, Structural)]
pub enum SocketAddr {
    /// An IPv4 socket address.
    V4 {
        /// The IP address.
        ip: u32,
        /// The port.
        port: u16,
    },
    /// An IPv6 socket address.
    V6 {
        /// The IP address.
        ip: u128,
        /// The port.
        port: u16,
        /// The flow information.
        flowinfo: u32,
        /// The scope identifier.
        scope_id: u32,
    },
}

/// A registration that was allowed: who asked, and when, in milliseconds.
#[derive(Debug, Clone, Copy)]
pub struct Grant {
    /// Where the request came from.
    pub source: IpAddr,
    /// When it was allowed.
    pub at: u64,
}

/// Whether a grant still counts at a time, for a window of some milliseconds.
pub open spec fn counts(grant: Grant, window: u64, now: u64) -> bool {
    grant.at + window > now
}

/// The grants that still count at a time, in order.
pub open spec fn recent(grants: Seq<Grant>, window: u64, now: u64) -> Seq<Grant>
    decreases grants.len(),
{
    if grants.len() == 0 {
        Seq::empty()
    } else if counts(grants.last(), window, now) {
        recent(grants.drop_last(), window, now).push(grants.last())
    } else {
        recent(grants.drop_last(), window, now)
    }
}

/// The number of grants of one source.
pub open spec fn granted_to(grants: Seq<Grant>, source: IpAddr) -> nat
    decreases grants.len(),
{
    if grants.len() == 0 {
        0
    } else {
        granted_to(grants.drop_last(), source) + if grants.last().source == source {
            1nat
        } else {
            0nat
        }
    }
}

/// Whether a source may register now: fewer than `max` of its grants still count.
pub open spec fn may_register(
    grants: Seq<Grant>,
    max: u32,
    window: u64,
    source: IpAddr,
    now: u64,
) -> bool {
    granted_to(recent(grants, window, now), source) < max
}

/// Allows each source a number of registrations within any window of time.
#[derive(Debug)]
pub struct RateLimiter {
    max: u32,
    window: u64,
    grants: Vec<Grant>,
}

/// What a [`RateLimiter`] holds.
pub struct RateView {
    /// Most grants of one source within the window.
    pub max: u32,
    /// The window, in milliseconds.
    pub window: u64,
    /// The grants that are remembered, oldest first.
    pub grants: Seq<Grant>,
}

impl View for RateLimiter {
    type V = RateView;

    closed spec fn view(&self) -> RateView {
        RateView { max: self.max, window: self.window, grants: self.grants@ }
    }
}

/// The limiter once a source has asked to register.
pub open spec fn asked(v: RateView, source: IpAddr, now: u64) -> RateView {
    let left = recent(v.grants, v.window, now);
    RateView {
        grants: if may_register(v.grants, v.max, v.window, source, now) {
            left.push(Grant { source, at: now })
        } else {
            left
        },
        ..v
    }
}

impl RateLimiter {
    /// A limiter that has granted nothing.
    pub fn new(max: u32, window: u64) -> (res: RateLimiter)
        ensures
            res@ == (RateView { max, window, grants: Seq::empty() }),
    {
        RateLimiter { max, window, grants: Vec::new() }
    }

    /// Sets the limit; what was granted before still counts.
    pub fn set_rate(&mut self, max: u32, window: u64)
        ensures
            final(self)@ == (RateView { max, window, ..old(self)@ }),
    {
        self.max = max;
        self.window = window;
    }

    /// Asks for one registration. Grants that no longer count are forgotten.
    pub fn allow(&mut self, source: IpAddr, now: u64) -> (res: bool)
        ensures
            res == may_register(
                old(self)@.grants,
                old(self)@.max,
                old(self)@.window,
                source,
                now,
            ),
            final(self)@ == asked(old(self)@, source, now),
    {
        let ghost all = self.grants@;
        let mut left: Vec<Grant> = Vec::new();
        let mut used: u32 = 0;
        let mut full: bool = self.max == 0;
        let mut i: usize = 0;
        assert(all.take(0) =~= Seq::empty());
        while i < self.grants.len()
            invariant
                self.grants@ == all,
                self.max == old(self).max,
                self.window == old(self).window,
                i <= all.len(),
                left@ == recent(all.take(i as int), self.window, now),
                full == (granted_to(left@, source) >= self.max),
                !full ==> used == granted_to(left@, source),
            decreases all.len() - i,
        {
            let grant: Grant = self.grants[i];
            assert(all.take(i + 1).drop_last() =~= all.take(i as int));
            if now < self.window || grant.at > now - self.window {
                let ghost before = left@;
                left.push(grant);
                assert(left@.drop_last() =~= before);
                if grant.source == source && !full {
                    used = used + 1;
                    if used >= self.max {
                        full = true;
                    }
                }
            }
            i = i + 1;
        }
        assert(all.take(i as int) =~= all);
        if !full {
            left.push(Grant { source, at: now });
        }
        self.grants = left;
        !full
    }
}

/// Whether `count` identities are as many as may be issued; a limit of zero is none.
pub open spec fn at_capacity(count: nat, max_identities: usize) -> bool {
    max_identities != 0 && count >= max_identities
}

/// Whether `count` identities are as many as may be issued; a limit of zero is none.
pub fn is_at_capacity(count: usize, max_identities: usize) -> (res: bool)
    ensures
        res == at_capacity(count as nat, max_identities),
{
    max_identities != 0 && count >= max_identities
}

/// Everything that was ever granted kept to the limit: of the grants up to and with
/// each one, no more than `max` went to its source within the window that ends with it.
pub open spec fn kept_to_limit(history: Seq<Grant>, max: u32, window: u64) -> bool {
    forall|i: int|
        0 <= i < history.len() ==> granted_to(
            recent(history.take(i + 1), window, (#[trigger] history[i]).at),
            history[i].source,
        ) <= max
}

proof fn lemma_recent_twice(grants: Seq<Grant>, window: u64, then: u64, now: u64)
    requires
        then <= now,
    ensures
        recent(recent(grants, window, then), window, now) == recent(grants, window, now),
    decreases grants.len(),
{
    if grants.len() > 0 {
        let rest = grants.drop_last();
        lemma_recent_twice(rest, window, then, now);
        if counts(grants.last(), window, then) {
            let kept = recent(rest, window, then).push(grants.last());
            assert(kept.drop_last() =~= recent(rest, window, then));
        }
    }
}

/// The limiter grants no source more than `max` registrations within any window of
/// time. As long as time does not go backwards, what it has forgotten does not matter:
/// it decides as if it remembered every grant, and the whole history keeps to the limit
/// after the request if it did before.
pub proof fn law_rate_is_kept(
    history: Seq<Grant>,
    v: RateView,
    source: IpAddr,
    then: u64,
    now: u64,
)
    requires
        then <= now,
        v.window > 0,
        v.grants == recent(history, v.window, then),
        kept_to_limit(history, v.max, v.window),
    ensures
        may_register(v.grants, v.max, v.window, source, now) == may_register(
            history,
            v.max,
            v.window,
            source,
            now,
        ),
        ({
            let later = if may_register(v.grants, v.max, v.window, source, now) {
                history.push(Grant { source, at: now })
            } else {
                history
            };
            &&& kept_to_limit(later, v.max, v.window)
            &&& asked(v, source, now).grants == recent(later, v.window, now)
        }),
{
    lemma_recent_twice(history, v.window, then, now);
    if may_register(v.grants, v.max, v.window, source, now) {
        let grant = Grant { source, at: now };
        let later = history.push(grant);
        let left = recent(history, v.window, now);
        assert(later.drop_last() =~= history);
        assert(left.push(grant).drop_last() =~= left);
        assert forall|i: int| 0 <= i < later.len() implies granted_to(
            recent(later.take(i + 1), v.window, (#[trigger] later[i]).at),
            later[i].source,
        ) <= v.max by {
            if i < history.len() {
                assert(later.take(i + 1) =~= history.take(i + 1));
                assert(later[i] == history[i]);
            } else {
                assert(later.take(i + 1) =~= later);
            }
        }
    }
}

/// The places of the grants to a source that are younger than the window at a time.
pub open spec fn counted(grants: Seq<Grant>, window: u64, source: IpAddr, now: u64) -> Set<int> {
    Set::new(
        |i: int|
            0 <= i < grants.len() && grants[i].source == source && now - grants[i].at < window,
    )
}

proof fn lemma_counted(grants: Seq<Grant>, window: u64, source: IpAddr, now: u64)
    ensures
        counted(grants, window, source, now).finite(),
        granted_to(recent(grants, window, now), source) == counted(
            grants,
            window,
            source,
            now,
        ).len(),
    decreases grants.len(),
{
    let all = counted(grants, window, source, now);
    if grants.len() == 0 {
        assert(all =~= Set::empty());
    } else {
        let rest = grants.drop_last();
        let n = grants.len() - 1;
        let before = counted(rest, window, source, now);
        lemma_counted(rest, window, source, now);
        assert forall|i: int| 0 <= i < n implies #[trigger] rest[i] == grants[i] by {}
        if counts(grants.last(), window, now) {
            let left = recent(rest, window, now);
            assert(left.push(grants.last()).drop_last() =~= left);
        }
        if all.contains(n) {
            assert(all =~= before.insert(n));
        } else {
            assert(all =~= before);
        }
    }
}

/// A source may register exactly while fewer of its own grants than `max` are younger than
/// the window; those of other sources and older ones do not count against it.
pub proof fn law_registration_is_granted(v: RateView, source: IpAddr, now: u64)
    ensures
        may_register(v.grants, v.max, v.window, source, now) <==> counted(
            v.grants,
            v.window,
            source,
            now,
        ).len() < v.max,
        asked(v, source, now).max == v.max,
        asked(v, source, now).window == v.window,
{
    lemma_counted(v.grants, v.window, source, now);
}

proof fn lemma_granted_to_push(grants: Seq<Grant>, grant: Grant, source: IpAddr)
    ensures
        granted_to(grants.push(grant), source) == granted_to(grants, source) + if grant.source
            == source {
            1nat
        } else {
            0nat
        },
{
    assert(grants.push(grant).drop_last() =~= grants);
}

/// Asking once, and being allowed to, uses up one registration of the source and none of
/// any other; asking in vain uses up none.
pub proof fn law_grant_counts_once(v: RateView, source: IpAddr, other: IpAddr, now: u64)
    requires
        v.window > 0,
    ensures
        ({
            let before = counted(v.grants, v.window, other, now).len();
            let after = counted(asked(v, source, now).grants, v.window, other, now).len();
            if other == source && counted(v.grants, v.window, source, now).len() < v.max {
                after == before + 1
            } else {
                after == before
            }
        }),
{
    let left = recent(v.grants, v.window, now);
    let later = asked(v, source, now).grants;
    let grant = Grant { source, at: now };
    lemma_counted(v.grants, v.window, other, now);
    lemma_counted(v.grants, v.window, source, now);
    lemma_counted(later, v.window, other, now);
    lemma_recent_twice(v.grants, v.window, now, now);
    if may_register(v.grants, v.max, v.window, source, now) {
        assert(left.push(grant).drop_last() =~= left);
        assert(recent(left.push(grant), v.window, now) == recent(left, v.window, now).push(grant));
        lemma_granted_to_push(left, grant, other);
    }
}

/// A relay without a limit never runs out of identities to issue, and one with a limit
/// does with the last that it allows.
pub proof fn law_capacity_is_exact(count: nat, max_identities: usize)
    ensures
        max_identities == 0 ==> !at_capacity(count, max_identities),
        max_identities > 0 && count < max_identities ==> !at_capacity(count, max_identities),
        max_identities > 0 && count >= max_identities ==> at_capacity(count, max_identities),
{
}

} // verus!
