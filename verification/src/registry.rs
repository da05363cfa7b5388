//! Which session owns which public route.
//!
//! A session is one control connection with the routes it claimed. A route is a public
//! hostname on a public port. No two sessions ever own the same route, and a session
//! gives up all of its routes at once when it ends.

use vstd::prelude::*;

use crate::maps::{
    count_ports, count_routes, get_route, has_port, insert_port, insert_route, new_ports,
    new_routes, ports_in, remove_route, routes_in, PortTable, Ports, RouteTable, Routes,
};

verus! {

/// A public route: a hostname and a port.
pub type RouteKey = (Seq<char>, u16);

/// One live session.
pub struct SessionView {
    /// What the session is known by.
    pub id: u64,
    /// The identity it authenticated as.
    pub subdomain: Seq<char>,
    /// The routes it owns.
    pub routes: Seq<RouteKey>,
}

/// What a [`Registry`] holds.
pub struct RegistryView {
    /// The owner of each route.
    pub routes: Routes,
    /// Ports with an open listener.
    pub ports: Ports,
    /// The live sessions, oldest first.
    pub sessions: Seq<SessionView>,
    /// The id of the next session.
    pub next_session: u64,
}

/// The keys of a list of routes.
pub open spec fn keys_of(routes: Seq<(String, u16)>) -> Seq<RouteKey> {
    Seq::new(routes.len(), |i: int| (routes[i].0@, routes[i].1))
}

/// Session ids are distinct and have been given out.
pub open spec fn ids_ok(sessions: Seq<SessionView>, next_session: u64) -> bool {
    &&& forall|i: int| 0 <= i < sessions.len() ==> (#[trigger] sessions[i]).id < next_session
    &&& forall|i: int, j: int|
        0 <= i < j < sessions.len() ==> (#[trigger] sessions[i]).id != (#[trigger] sessions[j]).id
}

/// Every session owns the routes it lists, on ports that are open, and lists each once.
pub open spec fn listed_routes_owned(v: RegistryView) -> bool {
    &&& forall|i: int, j: int|
        0 <= i < v.sessions.len() && 0 <= j < v.sessions[i].routes.len() ==> {
            let key = #[trigger] v.sessions[i].routes[j];
            &&& v.routes.contains_key(key)
            &&& v.routes[key] == v.sessions[i].id
            &&& v.ports.contains(key.1)
        }
    &&& forall|i: int| 0 <= i < v.sessions.len() ==> (#[trigger] v.sessions[i]).routes.no_duplicates()
}

/// Whether a session lists a route.
pub open spec fn lists(session: SessionView, key: RouteKey) -> bool {
    session.routes.contains(key)
}

/// Every owned route is listed by a live session.
pub open spec fn owned_routes_listed(v: RegistryView) -> bool {
    forall|key: RouteKey| #[trigger]
        v.routes.contains_key(key) ==> exists|i: int|
            0 <= i < v.sessions.len() && #[trigger] lists(v.sessions[i], key)
}

/// What holds of every registry.
pub open spec fn registry_ok(v: RegistryView) -> bool {
    ids_ok(v.sessions, v.next_session) && listed_routes_owned(v) && owned_routes_listed(v)
}

/// Whether routes can be claimed together: none is owned and none is asked for twice.
pub open spec fn all_free(v: RegistryView, keys: Seq<RouteKey>) -> bool {
    &&& keys.no_duplicates()
    &&& forall|i: int| 0 <= i < keys.len() ==> !v.routes.contains_key(#[trigger] keys[i])
}

/// Whether the port of every route has an open listener.
pub open spec fn all_open(v: RegistryView, keys: Seq<RouteKey>) -> bool {
    forall|i: int| 0 <= i < keys.len() ==> v.ports.contains((#[trigger] keys[i]).1)
}

/// The routes of one session.
pub open spec fn assigned(keys: Seq<RouteKey>, id: u64) -> Routes {
    Map::new(|k: RouteKey| keys.contains(k), |k: RouteKey| id)
}

/// The registry once an identity has claimed routes in a new session.
pub open spec fn claimed(
    v: RegistryView,
    subdomain: Seq<char>,
    keys: Seq<RouteKey>,
) -> RegistryView {
    RegistryView {
        routes: v.routes.union_prefer_right(assigned(keys, v.next_session)),
        ports: v.ports,
        sessions: v.sessions.push(SessionView { id: v.next_session, subdomain, routes: keys }),
        next_session: (v.next_session + 1) as u64,
    }
}

/// The sessions without the last one that has an id.
pub open spec fn without_session(sessions: Seq<SessionView>, id: u64) -> Seq<SessionView>
    decreases sessions.len(),
{
    if sessions.len() == 0 {
        sessions
    } else if sessions.last().id == id {
        sessions.drop_last()
    } else {
        without_session(sessions.drop_last(), id).push(sessions.last())
    }
}

/// The registry once a session has ended.
pub open spec fn released(v: RegistryView, id: u64) -> RegistryView {
    RegistryView {
        routes: Map::new(
            |k: RouteKey| v.routes.contains_key(k) && v.routes[k] != id,
            |k: RouteKey| v.routes[k],
        ),
        sessions: without_session(v.sessions, id),
        ..v
    }
}

/// The number of routes an identity holds over all of its sessions.
pub open spec fn held(sessions: Seq<SessionView>, subdomain: Seq<char>) -> nat
    decreases sessions.len(),
{
    if sessions.len() == 0 {
        0
    } else {
        held(sessions.drop_last(), subdomain) + if sessions.last().subdomain == subdomain {
            sessions.last().routes.len()
        } else {
            0
        }
    }
}

struct Session {
    id: u64,
    subdomain: String,
    routes: Vec<(String, u16)>,
}

impl View for Session {
    type V = SessionView;

    closed spec fn view(&self) -> SessionView {
        SessionView { id: self.id, subdomain: self.subdomain@, routes: keys_of(self.routes@) }
    }
}

spec fn sessions_of(sessions: Seq<Session>) -> Seq<SessionView> {
    Seq::new(sessions.len(), |i: int| sessions[i]@)
}

/// Open ports, live sessions and the routes they own.
pub struct Registry {
    routes: RouteTable,
    ports: PortTable,
    sessions: Vec<Session>,
    next_session: u64,
}

impl View for Registry {
    type V = RegistryView;

    closed spec fn view(&self) -> RegistryView {
        RegistryView {
            routes: routes_in(self.routes),
            ports: ports_in(self.ports),
            sessions: sessions_of(self.sessions@),
            next_session: self.next_session,
        }
    }
}

impl Registry {
    /// What holds of every registry.
    pub open spec fn wf(&self) -> bool {
        registry_ok(self@)
    }

    /// A registry without ports, sessions or routes.
    pub fn new() -> (res: Registry)
        ensures
            res.wf(),
            res@ == (RegistryView {
                routes: Map::empty(),
                ports: Set::empty(),
                sessions: Seq::empty(),
                next_session: 0,
            }),
    {
        let res: Registry = Registry {
            routes: new_routes(),
            ports: new_ports(),
            sessions: Vec::new(),
            next_session: 0,
        };
        assert(res@.sessions =~= Seq::empty());
        res
    }

    /// Whether a port has an open listener.
    pub fn is_open(&self, port: u16) -> (res: bool)
        ensures
            res == self@.ports.contains(port),
    {
        has_port(&self.ports, port)
    }

    /// Records that a port has an open listener.
    pub fn open(&mut self, port: u16)
        requires
            old(self).wf(),
        ensures
            final(self).wf(),
            final(self)@ == (RegistryView {
                ports: old(self)@.ports.insert(port),
                ..old(self)@
            }),
    {
        insert_port(&mut self.ports, port);
    }

    /// The session that owns a route, if any.
    pub fn owner(&self, route: &(String, u16)) -> (res: Option<u64>)
        ensures
            res == self@.routes.get((route.0@, route.1)),
    {
        get_route(&self.routes, route)
    }

    /// The number of ports with an open listener.
    pub fn open_ports(&self) -> (res: usize)
        ensures
            res == self@.ports.len(),
    {
        count_ports(&self.ports)
    }

    /// The number of routes owned over all ports.
    pub fn active_tunnels(&self) -> (res: usize)
        ensures
            res == self@.routes.len(),
    {
        count_routes(&self.routes)
    }

    /// Whether `more` routes would take an identity over `limit`.
    pub fn over_limit(&self, subdomain: &String, more: usize, limit: usize) -> (res: bool)
        ensures
            res == (held(self@.sessions, subdomain@) + more > limit),
    {
        if more > limit {
            return true;
        }
        let mut left: usize = limit - more;
        let mut i: usize = 0;
        let ghost all = self@.sessions;
        assert(all.take(0) =~= Seq::empty());
        while i < self.sessions.len()
            invariant
                more <= limit,
                all == self@.sessions,
                all == sessions_of(self.sessions@),
                i <= all.len(),
                held(all.take(i as int), subdomain@) + more + left == limit,
            decreases all.len() - i,
        {
            assert(all.take(i + 1).drop_last() =~= all.take(i as int));
            assert(all.take(i + 1).last() == self.sessions@[i as int]@);
            if self.sessions[i].subdomain == *subdomain {
                let n: usize = self.sessions[i].routes.len();
                if n > left {
                    proof {
                        lemma_held_grows(all, subdomain@, i + 1);
                    }
                    return true;
                }
                left = left - n;
            }
            i = i + 1;
        }
        assert(all.take(i as int) =~= all);
        false
    }

    /// Whether every session number has been given out.
    pub fn is_full(&self) -> (res: bool)
        ensures
            res == (self@.next_session == u64::MAX),
    {
        self.next_session == u64::MAX
    }

    /// Whether routes can be claimed together.
    pub fn can_claim(&self, routes: &Vec<(String, u16)>) -> (res: bool)
        ensures
            res == all_free(self@, keys_of(routes@)),
    {
        let ghost keys = keys_of(routes@);
        let mut i: usize = 0;
        while i < routes.len()
            invariant
                keys == keys_of(routes@),
                i <= routes@.len(),
                forall|a: int| 0 <= a < i ==> !self@.routes.contains_key(#[trigger] keys[a]),
                forall|a: int, b: int|
                    0 <= a < i && 0 <= b < a ==> (#[trigger] keys[a]) != (#[trigger] keys[b]),
            decreases routes@.len() - i,
        {
            if self.owner(&routes[i]).is_some() {
                assert(self@.routes.contains_key(keys[i as int]));
                return false;
            }
            let mut j: usize = 0;
            while j < i
                invariant
                    keys == keys_of(routes@),
                    j <= i < routes@.len(),
                    forall|b: int| 0 <= b < j ==> keys[i as int] != (#[trigger] keys[b]),
                decreases i - j,
            {
                if routes[j].1 == routes[i].1 && routes[j].0 == routes[i].0 {
                    assert(keys[j as int] == keys[i as int]);
                    assert(!keys.no_duplicates());
                    return false;
                }
                j = j + 1;
            }
            i = i + 1;
        }
        assert(keys.no_duplicates());
        true
    }

    /// Claims routes for an identity in a new session, all of them or none. Returns the
    /// session, or `None` where one of the routes is owned or asked for twice.
    pub fn claim(&mut self, subdomain: String, routes: &Vec<(String, u16)>) -> (res: Option<u64>)
        requires
            old(self).wf(),
            old(self)@.next_session < u64::MAX,
            all_open(old(self)@, keys_of(routes@)),
        ensures
            final(self).wf(),
            match res {
                Some(id) => {
                    &&& all_free(old(self)@, keys_of(routes@))
                    &&& id == old(self)@.next_session
                    &&& final(self)@ == claimed(old(self)@, subdomain@, keys_of(routes@))
                },
                None => {
                    &&& !all_free(old(self)@, keys_of(routes@))
                    &&& final(self)@ == old(self)@
                },
            },
    {
        if !self.can_claim(routes) {
            return None;
        }
        let ghost before = self@;
        let ghost keys = keys_of(routes@);
        let id: u64 = self.next_session;
        let mut listed_routes: Vec<(String, u16)> = Vec::new();
        let mut i: usize = 0;
        assert(keys_of(listed_routes@) =~= keys.take(0));
        assert(before.routes.union_prefer_right(assigned(keys.take(0), id)) =~= before.routes);
        while i < routes.len()
            invariant
                keys == keys_of(routes@),
                i <= routes@.len(),
                self.sessions == old(self).sessions,
                self.ports == old(self).ports,
                self.next_session == old(self).next_session,
                id == self.next_session,
                before == old(self)@,
                keys_of(listed_routes@) == keys.take(i as int),
                routes_in(self.routes) == before.routes.union_prefer_right(
                    assigned(keys.take(i as int), id),
                ),
            decreases routes@.len() - i,
        {
            let key: (String, u16) = (routes[i].0.clone(), routes[i].1);
            assert((key.0@, key.1) == keys[i as int]);
            insert_route(&mut self.routes, key, id);
            let ghost before_push = listed_routes@;
            let listed_key: (String, u16) = (routes[i].0.clone(), routes[i].1);
            listed_routes.push(listed_key);
            assert(keys_of(listed_routes@) =~= keys_of(before_push).push(keys[i as int]));
            proof {
                assert(keys.take(i + 1) =~= keys.take(i as int).push(keys[i as int]));
                lemma_assign_push(before.routes, keys.take(i as int), keys[i as int], id);
            }
            i = i + 1;
        }
        assert(keys.take(i as int) =~= keys);
        self.next_session = id + 1;
        let session: Session = Session { id, subdomain, routes: listed_routes };
        let ghost listed = self.sessions@;
        self.sessions.push(session);
        assert(self@.sessions =~= sessions_of(listed).push(session@));
        proof {
            lemma_claimed_ok(before, session@.subdomain, keys);
        }
        Some(id)
    }

    /// Ends a session: all of its routes are free again, and no other route changes.
    pub fn release(&mut self, id: u64)
        requires
            old(self).wf(),
        ensures
            final(self).wf(),
            final(self)@ == released(old(self)@, id),
    {
        let ghost before = self@;
        let ghost all = self@.sessions;
        let mut i: usize = self.sessions.len();
        while i > 0
            invariant
                self@ == before,
                self.wf(),
                all == before.sessions,
                all == sessions_of(self.sessions@),
                i <= all.len(),
                before == old(self)@,
                forall|j: int| i <= j < all.len() ==> (#[trigger] all[j]).id != id,
            decreases i,
        {
            i = i - 1;
            if self.sessions[i].id == id {
                proof {
                    lemma_without_found(all, id, i as int);
                }
                let session: Session = self.sessions.remove(i);
                assert(self@.sessions =~= all.remove(i as int));
                assert(session@ == all[i as int]);
                self.remove_routes(&session.routes);
                proof {
                    lemma_released_routes(before, i as int);
                    assert(routes_in(self.routes) =~= released(before, id).routes);
                    lemma_released_ok(before, id, i as int);
                }
                return;
            }
        }
        proof {
            lemma_without_absent(all, id);
            assert forall|k: RouteKey| before.routes.contains_key(k) implies before.routes[k]
                != id by {
                let s = choose|s: int|
                    0 <= s < all.len() && #[trigger] lists(before.sessions[s], k);
                let r = choose|r: int| 0 <= r < all[s].routes.len() && all[s].routes[r] == k;
                assert(before.routes[before.sessions[s].routes[r]] == before.sessions[s].id);
            }
            assert(released(before, id).routes =~= before.routes);
        }
    }

    /// Removes routes from the table.
    fn remove_routes(&mut self, routes: &Vec<(String, u16)>)
        ensures
            final(self).sessions == old(self).sessions,
            final(self).ports == old(self).ports,
            final(self).next_session == old(self).next_session,
            routes_in(final(self).routes) == routes_in(old(self).routes).remove_keys(
                keys_of(routes@).to_set(),
            ),
    {
        let ghost keys = keys_of(routes@);
        let ghost before = routes_in(self.routes);
        let mut i: usize = 0;
        assert(before.remove_keys(keys.take(0).to_set()) =~= before);
        while i < routes.len()
            invariant
                keys == keys_of(routes@),
                i <= routes@.len(),
                before == routes_in(old(self).routes),
                self.sessions == old(self).sessions,
                self.ports == old(self).ports,
                self.next_session == old(self).next_session,
                routes_in(self.routes) == before.remove_keys(keys.take(i as int).to_set()),
            decreases routes@.len() - i,
        {
            remove_route(&mut self.routes, &routes[i]);
            assert(keys.take(i + 1) =~= keys.take(i as int).push(keys[i as int]));
            assert(routes_in(self.routes) =~= before.remove_keys(keys.take(i + 1).to_set())) by {
                assert forall|k: RouteKey| keys.take(i + 1).contains(k) <==> (keys.take(
                    i as int,
                ).contains(k) || k == keys[i as int]) by {
                    lemma_push_contains(keys.take(i as int), keys[i as int], k);
                }
            }
            i = i + 1;
        }
        assert(keys.take(i as int) =~= keys);
    }
}

proof fn lemma_push_contains(s: Seq<RouteKey>, last: RouteKey, k: RouteKey)
    ensures
        s.push(last).contains(k) <==> (s.contains(k) || k == last),
{
    let t = s.push(last);
    if s.contains(k) {
        let i = choose|i: int| 0 <= i < s.len() && s[i] == k;
        assert(t[i] == k);
    }
    if k == last {
        assert(t[s.len() as int] == k);
    }
    if t.contains(k) {
        let i = choose|i: int| 0 <= i < t.len() && t[i] == k;
        if i < s.len() {
            assert(s[i] == k);
        }
    }
}

proof fn lemma_assign_push(routes: Routes, keys: Seq<RouteKey>, key: RouteKey, id: u64)
    ensures
        routes.union_prefer_right(assigned(keys.push(key), id)) == routes.union_prefer_right(
            assigned(keys, id),
        ).insert(key, id),
{
    let left = routes.union_prefer_right(assigned(keys.push(key), id));
    let right = routes.union_prefer_right(assigned(keys, id)).insert(key, id);
    assert forall|k: RouteKey| #[trigger] left.contains_key(k) <==> right.contains_key(k) by {
        lemma_push_contains(keys, key, k);
    }
    assert forall|k: RouteKey| #[trigger] left.contains_key(k) implies left[k] == right[k] by {
        lemma_push_contains(keys, key, k);
    }
    assert(left =~= right);
}

proof fn lemma_held_grows(sessions: Seq<SessionView>, subdomain: Seq<char>, n: int)
    requires
        0 <= n <= sessions.len(),
    ensures
        held(sessions.take(n), subdomain) <= held(sessions, subdomain),
    decreases sessions.len() - n,
{
    if n < sessions.len() {
        lemma_held_grows(sessions, subdomain, n + 1);
        assert(sessions.take(n + 1).drop_last() =~= sessions.take(n));
    } else {
        assert(sessions.take(n) =~= sessions);
    }
}

proof fn lemma_without_found(sessions: Seq<SessionView>, id: u64, i: int)
    requires
        0 <= i < sessions.len(),
        sessions[i].id == id,
        forall|j: int| i < j < sessions.len() ==> (#[trigger] sessions[j]).id != id,
    ensures
        without_session(sessions, id) == sessions.remove(i),
    decreases sessions.len(),
{
    if i == sessions.len() - 1 {
        assert(sessions.drop_last() =~= sessions.remove(i));
    } else {
        lemma_without_found(sessions.drop_last(), id, i);
        assert(sessions.drop_last().remove(i).push(sessions.last()) =~= sessions.remove(i));
    }
}

proof fn lemma_without_absent(sessions: Seq<SessionView>, id: u64)
    requires
        forall|j: int| 0 <= j < sessions.len() ==> (#[trigger] sessions[j]).id != id,
    ensures
        without_session(sessions, id) == sessions,
    decreases sessions.len(),
{
    if sessions.len() > 0 {
        lemma_without_absent(sessions.drop_last(), id);
        assert(sessions.drop_last().push(sessions.last()) =~= sessions);
    }
}

proof fn lemma_released_routes(v: RegistryView, i: int)
    requires
        registry_ok(v),
        0 <= i < v.sessions.len(),
    ensures
        v.routes.remove_keys(v.sessions[i].routes.to_set()) == released(
            v,
            v.sessions[i].id,
        ).routes,
{
    let id = v.sessions[i].id;
    let keys = v.sessions[i].routes;
    assert forall|k: RouteKey| v.routes.contains_key(k) implies (keys.contains(k) <==> v.routes[k]
        == id) by {
        if keys.contains(k) {
            let r = choose|r: int| 0 <= r < keys.len() && keys[r] == k;
            assert(v.routes[v.sessions[i].routes[r]] == id);
        }
        if v.routes[k] == id {
            let s = choose|s: int| 0 <= s < v.sessions.len() && #[trigger] lists(v.sessions[s], k);
            let r = choose|r: int| 0 <= r < v.sessions[s].routes.len() && v.sessions[s].routes[r]
                == k;
            assert(v.routes[v.sessions[s].routes[r]] == v.sessions[s].id);
            assert(s == i);
        }
    }
    assert(v.routes.remove_keys(keys.to_set()) =~= released(v, id).routes);
}

proof fn lemma_released_ok(v: RegistryView, id: u64, i: int)
    requires
        registry_ok(v),
        0 <= i < v.sessions.len(),
        v.sessions[i].id == id,
        without_session(v.sessions, id) == v.sessions.remove(i),
    ensures
        registry_ok(released(v, id)),
{
    let after = released(v, id);
    assert forall|a: int, b: int|
        0 <= a < after.sessions.len() && 0 <= b < after.sessions[a].routes.len() implies {
        let key = #[trigger] after.sessions[a].routes[b];
        &&& after.routes.contains_key(key)
        &&& after.routes[key] == after.sessions[a].id
        &&& after.ports.contains(key.1)
    } by {
        let old_a = if a < i {
            a
        } else {
            a + 1
        };
        assert(after.sessions[a] == v.sessions[old_a]);
        let key = v.sessions[old_a].routes[b];
        assert(v.routes[key] == v.sessions[old_a].id);
        assert(v.sessions[old_a].id != id);
    }
    assert forall|a: int| 0 <= a < after.sessions.len() implies (
    #[trigger] after.sessions[a]).routes.no_duplicates() by {
        let old_a = if a < i {
            a
        } else {
            a + 1
        };
        assert(after.sessions[a] == v.sessions[old_a]);
    }
    assert forall|key: RouteKey| #[trigger] after.routes.contains_key(key) implies exists|a: int|
        0 <= a < after.sessions.len() && #[trigger] lists(after.sessions[a], key) by {
        let s = choose|s: int| 0 <= s < v.sessions.len() && #[trigger] lists(v.sessions[s], key);
        let r = choose|r: int| 0 <= r < v.sessions[s].routes.len() && v.sessions[s].routes[r]
            == key;
        assert(v.routes[v.sessions[s].routes[r]] == v.sessions[s].id);
        assert(s != i);
        let a = if s < i {
            s
        } else {
            s - 1
        };
        assert(lists(after.sessions[a], key));
    }
}

proof fn lemma_claimed_ok(v: RegistryView, subdomain: Seq<char>, keys: Seq<RouteKey>)
    requires
        registry_ok(v),
        v.next_session < u64::MAX,
        all_open(v, keys),
        all_free(v, keys),
    ensures
        registry_ok(claimed(v, subdomain, keys)),
{
    let after = claimed(v, subdomain, keys);
    let n = v.sessions.len() as int;
    assert forall|a: int, b: int|
        0 <= a < after.sessions.len() && 0 <= b < after.sessions[a].routes.len() implies {
        let key = #[trigger] after.sessions[a].routes[b];
        &&& after.routes.contains_key(key)
        &&& after.routes[key] == after.sessions[a].id
        &&& after.ports.contains(key.1)
    } by {
        let key = after.sessions[a].routes[b];
        if a < n {
            assert(v.sessions[a].routes[b] == key);
            assert(v.routes.contains_key(key));
            assert(!keys.contains(key));
        } else {
            assert(keys[b] == key);
            assert(keys.contains(key));
        }
    }
    assert forall|key: RouteKey| #[trigger] after.routes.contains_key(key) implies exists|a: int|
        0 <= a < after.sessions.len() && #[trigger] lists(after.sessions[a], key) by {
        if keys.contains(key) {
            assert(lists(after.sessions[n], key));
        } else {
            let s = choose|s: int|
                0 <= s < v.sessions.len() && #[trigger] lists(v.sessions[s], key);
            assert(lists(after.sessions[s], key));
        }
    }
}

/// A claim makes the new session the owner of every route it asked for, and leaves the
/// owner of every other route.
pub proof fn law_claim_owns(
    v: RegistryView,
    subdomain: Seq<char>,
    keys: Seq<RouteKey>,
    key: RouteKey,
)
    requires
        registry_ok(v),
        all_free(v, keys),
    ensures
        claimed(v, subdomain, keys).routes.get(key) == (if keys.contains(key) {
            Some(v.next_session)
        } else {
            v.routes.get(key)
        }),
{
}

/// Ending a session undoes its claim: who owns what, the open ports and the live
/// sessions are as they were before it.
pub proof fn law_release_undoes_claim(
    v: RegistryView,
    subdomain: Seq<char>,
    keys: Seq<RouteKey>,
)
    requires
        registry_ok(v),
        v.next_session < u64::MAX,
        all_free(v, keys),
    ensures
        released(claimed(v, subdomain, keys), v.next_session) == (RegistryView {
            next_session: (v.next_session + 1) as u64,
            ..v
        }),
{
    let after = released(claimed(v, subdomain, keys), v.next_session);
    assert(claimed(v, subdomain, keys).sessions.drop_last() =~= v.sessions);
    assert forall|k: RouteKey| v.routes.contains_key(k) implies v.routes[k] != v.next_session by {
        let s = choose|s: int| 0 <= s < v.sessions.len() && #[trigger] lists(v.sessions[s], k);
        let r = choose|r: int| 0 <= r < v.sessions[s].routes.len() && v.sessions[s].routes[r] == k;
        assert(v.routes[v.sessions[s].routes[r]] == v.sessions[s].id);
    }
    assert(after.routes =~= v.routes);
}

/// Ending one session takes no route from another.
pub proof fn law_release_keeps_others(v: RegistryView, id: u64, key: RouteKey)
    requires
        registry_ok(v),
    ensures
        released(v, id).routes.get(key) == (if v.routes.get(key) == Some(id) {
            None
        } else {
            v.routes.get(key)
        }),
{
}

/// The routes of all sessions, one after the other.
pub open spec fn all_routes(sessions: Seq<SessionView>) -> Seq<RouteKey>
    decreases sessions.len(),
{
    if sessions.len() == 0 {
        Seq::empty()
    } else {
        all_routes(sessions.drop_last()) + sessions.last().routes
    }
}

proof fn lemma_all_routes(v: RegistryView, n: int)
    requires
        registry_ok(v),
        0 <= n <= v.sessions.len(),
    ensures
        all_routes(v.sessions.take(n)).no_duplicates(),
        forall|key: RouteKey| #[trigger]
            all_routes(v.sessions.take(n)).contains(key) <==> exists|i: int|
                0 <= i < n && #[trigger] lists(v.sessions[i], key),
    decreases n,
{
    if n > 0 {
        lemma_all_routes(v, n - 1);
        let before = all_routes(v.sessions.take(n - 1));
        let last = v.sessions[n - 1].routes;
        let all = all_routes(v.sessions.take(n));
        assert(v.sessions.take(n).drop_last() =~= v.sessions.take(n - 1));
        assert(all == before + last);
        assert forall|key: RouteKey| !(before.contains(key) && last.contains(key)) by {
            if before.contains(key) && last.contains(key) {
                let i = choose|i: int| 0 <= i < n - 1 && #[trigger] lists(v.sessions[i], key);
                let a = choose|a: int|
                    0 <= a < v.sessions[i].routes.len() && v.sessions[i].routes[a] == key;
                let b = choose|b: int| 0 <= b < last.len() && last[b] == key;
                assert(v.routes[v.sessions[i].routes[a]] == v.sessions[i].id);
                assert(v.routes[v.sessions[n - 1].routes[b]] == v.sessions[n - 1].id);
            }
        }
        assert forall|a: int, b: int| 0 <= a < b < all.len() implies all[a] != all[b] by {
            if b < before.len() {
                assert(before[a] != before[b]);
            } else if a >= before.len() {
                assert(last[a - before.len()] != last[b - before.len()]);
            } else {
                assert(before.contains(all[a]));
                assert(last[b - before.len()] == all[b]);
                assert(last.contains(all[b]));
            }
        }
        assert forall|key: RouteKey| #[trigger] all.contains(key) <==> exists|i: int|
            0 <= i < n && #[trigger] lists(v.sessions[i], key) by {
            if all.contains(key) {
                let a = choose|a: int| 0 <= a < all.len() && all[a] == key;
                if a < before.len() {
                    assert(before.contains(key));
                } else {
                    assert(last[a - before.len()] == key);
                    assert(lists(v.sessions[n - 1], key));
                }
            }
            if exists|i: int| 0 <= i < n && #[trigger] lists(v.sessions[i], key) {
                let i = choose|i: int| 0 <= i < n && #[trigger] lists(v.sessions[i], key);
                if i < n - 1 {
                    assert(before.contains(key));
                    let a = choose|a: int| 0 <= a < before.len() && before[a] == key;
                    assert(all[a] == key);
                } else {
                    let b = choose|b: int| 0 <= b < last.len() && last[b] == key;
                    assert(all[before.len() + b] == key);
                }
            }
        }
    } else {
        assert(v.sessions.take(0) =~= Seq::empty());
    }
}

/// The number of owned routes is the number of routes over all live sessions.
pub proof fn law_active_tunnels_are_counted_once(v: RegistryView)
    requires
        registry_ok(v),
    ensures
        v.routes.len() == all_routes(v.sessions).len(),
{
    let n = v.sessions.len() as int;
    let all = all_routes(v.sessions);
    lemma_all_routes(v, n);
    assert(v.sessions.take(n) =~= v.sessions);
    all.unique_seq_to_set();
    assert forall|key: RouteKey| v.routes.contains_key(key) <==> all.contains(key) by {
        if all.contains(key) {
            let i = choose|i: int| 0 <= i < n && #[trigger] lists(v.sessions[i], key);
            let a = choose|a: int|
                0 <= a < v.sessions[i].routes.len() && v.sessions[i].routes[a] == key;
            assert(v.routes.contains_key(v.sessions[i].routes[a]));
        }
    }
    assert(v.routes.dom() =~= all.to_set());
}

/// The routes that an identity holds: with each claim those asked for, whoever holds what
/// else; and with the end of a session those of that session.
pub proof fn law_held_follows_claims(
    v: RegistryView,
    subdomain: Seq<char>,
    keys: Seq<RouteKey>,
    other: Seq<char>,
    i: int,
)
    requires
        registry_ok(v),
        0 <= i < v.sessions.len(),
    ensures
        held(Seq::empty(), other) == 0,
        held(claimed(v, subdomain, keys).sessions, other) == held(v.sessions, other) + (if other
            == subdomain {
            keys.len()
        } else {
            0
        }),
        held(released(v, v.sessions[i].id).sessions, other) == held(v.sessions, other) - (if other
            == v.sessions[i].subdomain {
            v.sessions[i].routes.len() as int
        } else {
            0
        }),
{
    let after = claimed(v, subdomain, keys);
    assert(after.sessions.drop_last() =~= v.sessions);
    lemma_without_found(v.sessions, v.sessions[i].id, i);
    lemma_held_without(v.sessions, other, i);
}

proof fn lemma_held_without(sessions: Seq<SessionView>, subdomain: Seq<char>, i: int)
    requires
        0 <= i < sessions.len(),
    ensures
        held(sessions.remove(i), subdomain) == held(sessions, subdomain) - (if sessions[i].subdomain
            == subdomain {
            sessions[i].routes.len() as int
        } else {
            0
        }),
    decreases sessions.len(),
{
    let rest = sessions.drop_last();
    if i == sessions.len() - 1 {
        assert(sessions.remove(i) =~= rest);
    } else {
        lemma_held_without(rest, subdomain, i);
        assert(sessions.remove(i).drop_last() =~= rest.remove(i));
        assert(sessions.remove(i).last() == sessions.last());
    }
}

/// A new session gets a number of its own, is listed last with the identity and the routes
/// it asked for, and no session before it changes; no port is opened or closed by it.
pub proof fn law_claim_adds_session(
    v: RegistryView,
    subdomain: Seq<char>,
    keys: Seq<RouteKey>,
)
    requires
        registry_ok(v),
        v.next_session < u64::MAX,
    ensures
        ({
            let after = claimed(v, subdomain, keys);
            let n = v.sessions.len() as int;
            &&& after.sessions.len() == n + 1
            &&& after.sessions.take(n) == v.sessions
            &&& after.sessions[n].subdomain == subdomain
            &&& after.sessions[n].routes == keys
            &&& forall|i: int| 0 <= i < n ==> (#[trigger] v.sessions[i]).id != after.sessions[n].id
            &&& after.next_session > after.sessions[n].id
            &&& after.ports == v.ports
        }),
{
    let after = claimed(v, subdomain, keys);
    assert(after.sessions.take(v.sessions.len() as int) =~= v.sessions);
}

/// The end of a session takes that session away and no other, and closes no port; the end
/// of one that is not live changes nothing.
pub proof fn law_release_ends_one_session(v: RegistryView, id: u64, session: SessionView)
    requires
        registry_ok(v),
    ensures
        released(v, id).sessions.contains(session) <==> v.sessions.contains(session) && session.id
            != id,
        released(v, id).ports == v.ports,
        released(v, id).next_session == v.next_session,
        (forall|i: int| 0 <= i < v.sessions.len() ==> (#[trigger] v.sessions[i]).id != id)
            ==> released(v, id).sessions == v.sessions,
{
    let after = released(v, id).sessions;
    if exists|i: int| 0 <= i < v.sessions.len() && (#[trigger] v.sessions[i]).id == id {
        let i = choose|i: int| 0 <= i < v.sessions.len() && (#[trigger] v.sessions[i]).id == id;
        lemma_without_found(v.sessions, id, i);
        if v.sessions.contains(session) && session.id != id {
            let s = choose|s: int| 0 <= s < v.sessions.len() && v.sessions[s] == session;
            let t = if s < i {
                s
            } else {
                s - 1
            };
            assert(after[t] == session);
        }
        if after.contains(session) {
            let t = choose|t: int| 0 <= t < after.len() && after[t] == session;
            let s = if t < i {
                t
            } else {
                t + 1
            };
            assert(v.sessions[s] == session);
            assert(s != i);
        }
    } else {
        lemma_without_absent(v.sessions, id);
    }
}

/// Routes can be claimed together exactly where each of them is free and none is asked for
/// twice.
pub proof fn law_free_routes_can_be_claimed(v: RegistryView, keys: Seq<RouteKey>)
    ensures
        all_free(v, keys) <==> {
            &&& forall|i: int|
                0 <= i < keys.len() ==> v.routes.get(#[trigger] keys[i]) == None::<u64>
            &&& forall|i: int, j: int|
                0 <= i < j < keys.len() ==> #[trigger] keys[i] != #[trigger] keys[j]
        },
{
    if all_free(v, keys) {
        assert forall|i: int| 0 <= i < keys.len() implies v.routes.get(#[trigger] keys[i]) == None::<
            u64,
        > by {
            assert(!v.routes.contains_key(keys[i]));
        }
    }
    if forall|i: int| 0 <= i < keys.len() ==> v.routes.get(#[trigger] keys[i]) == None::<u64> {
        assert forall|i: int| 0 <= i < keys.len() implies !v.routes.contains_key(
            #[trigger] keys[i],
        ) by {
            assert(v.routes.get(keys[i]) == None::<u64>);
        }
    }
}

/// The keys of some routes are their hostnames and ports, in order.
pub proof fn law_keys_are_hosts_and_ports(routes: Seq<(String, u16)>, i: int)
    requires
        0 <= i < routes.len(),
    ensures
        keys_of(routes).len() == routes.len(),
        keys_of(routes)[i].0 == routes[i].0@,
        keys_of(routes)[i].1 == routes[i].1,
{
}

} // verus!
