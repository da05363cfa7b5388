//! The relay's tables: concurrent maps of the `dashmap` crate.
//!
//! Each table is held by one owner here, so its functions take it by `&mut` where they
//! change it, and no reference into a table outlives the call that made it.

use dashmap::DashMap;
use vstd::prelude::*;

use crate::shared::Uuid;

verus! {

/// The concurrent map [`DashMap`].
#[verifier::external_type_specification]
#[verifier::external_body]
#[verifier::reject_recursive_types(K)]
#[verifier::reject_recursive_types(V)]
#[verifier::reject_recursive_types(S)]
pub struct ExDashMap<K, V, S>(DashMap<K, V, S>);

/// Routing table: public hostname and port to the session that claimed them.
pub type RouteTable = DashMap<(String, u16), u64>;

/// Public ports with an open listener.
pub type PortTable = DashMap<u16, ()>;

/// Player connections awaiting an `Accept`, with the bytes already read from them.
pub type PendingTable = DashMap<Uuid, Vec<u8>>;

/// The session of each claimed hostname and port.
pub type Routes = Map<(Seq<char>, u16), u64>;

/// A set of public ports.
pub type Ports = Set<u16>;

/// The bytes already read from each pending connection, by the bytes of its identifier.
pub type PendingConnections = Map<Seq<u8>, Seq<u8>>;

/// The routes a routing table holds.
pub uninterp spec fn routes_in(table: RouteTable) -> Routes;

/// The ports a port table holds.
pub uninterp spec fn ports_in(table: PortTable) -> Ports;

/// The pending connections a table holds.
pub uninterp spec fn pending_in(table: PendingTable) -> PendingConnections;

/// [`DashMap::new`]: an empty table.
#[verifier::external_body]
pub(crate) fn new_routes() -> (res: RouteTable)
    ensures
        routes_in(res) == Routes::empty(),
{
    DashMap::new()
}

/// [`DashMap::insert`]: the key maps to the value afterwards, all else is kept.
#[verifier::external_body]
pub(crate) fn insert_route(table: &mut RouteTable, key: (String, u16), session: u64)
    ensures
        routes_in(*final(table)) == routes_in(*old(table)).insert((key.0@, key.1), session),
{
    table.insert(key, session);
}

/// [`DashMap::get`]: the value of the key, if there is one.
#[verifier::external_body]
pub(crate) fn get_route(table: &RouteTable, key: &(String, u16)) -> (res: Option<u64>)
    ensures
        res == routes_in(*table).get((key.0@, key.1)),
{
    table.get(key).map(|entry| *entry.value())
}

/// [`DashMap::remove`]: the key is gone afterwards, all else is kept.
#[verifier::external_body]
pub(crate) fn remove_route(table: &mut RouteTable, key: &(String, u16))
    ensures
        routes_in(*final(table)) == routes_in(*old(table)).remove((key.0@, key.1)),
{
    table.remove(key);
}

/// [`DashMap::len`]: the number of keys.
#[verifier::external_body]
pub(crate) fn count_routes(table: &RouteTable) -> (res: usize)
    ensures
        res == routes_in(*table).len(),
{
    table.len()
}

/// [`DashMap::new`]: an empty table.
#[verifier::external_body]
pub(crate) fn new_ports() -> (res: PortTable)
    ensures
        ports_in(res) == Ports::empty(),
{
    DashMap::new()
}

/// [`DashMap::insert`]: the key is there afterwards, all else is kept.
#[verifier::external_body]
pub(crate) fn insert_port(table: &mut PortTable, port: u16)
    ensures
        ports_in(*final(table)) == ports_in(*old(table)).insert(port),
{
    table.insert(port, ());
}

/// [`DashMap::contains_key`]: whether the key is there.
#[verifier::external_body]
pub(crate) fn has_port(table: &PortTable, port: u16) -> (res: bool)
    ensures
        res == ports_in(*table).contains(port),
{
    table.contains_key(&port)
}

/// [`DashMap::len`]: the number of keys.
#[verifier::external_body]
pub(crate) fn count_ports(table: &PortTable) -> (res: usize)
    ensures
        res == ports_in(*table).len(),
{
    table.len()
}

/// [`DashMap::new`]: an empty table.
#[verifier::external_body]
pub(crate) fn new_pending() -> (res: PendingTable)
    ensures
        pending_in(res) == PendingConnections::empty(),
{
    DashMap::new()
}

/// [`DashMap::insert`]: the key maps to the value afterwards, all else is kept.
#[verifier::external_body]
pub(crate) fn insert_pending(table: &mut PendingTable, id: Uuid, prefix: Vec<u8>)
    ensures
        pending_in(*final(table)) == pending_in(*old(table)).insert(id@, prefix@),
{
    table.insert(id, prefix);
}

/// [`DashMap::remove`]: the key is gone afterwards, all else is kept, and the value it
/// had is returned.
#[verifier::external_body]
pub(crate) fn remove_pending(table: &mut PendingTable, id: &Uuid) -> (res: Option<Vec<u8>>)
    ensures
        pending_in(*final(table)) == pending_in(*old(table)).remove(id@),
        match res {
            Some(prefix) => pending_in(*old(table)).get(id@) == Some(prefix@),
            None => pending_in(*old(table)).get(id@) is None,
        },
{
    table.remove(id).map(|(_, prefix)| prefix)
}

/// [`DashMap::len`]: the number of keys.
#[verifier::external_body]
pub(crate) fn count_pending(table: &PendingTable) -> (res: usize)
    ensures
        res == pending_in(*table).len(),
{
    table.len()
}

} // verus!
