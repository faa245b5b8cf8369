use vstd::prelude::*;
use dashmap::DashMap;
use crate::peer::{PeerHandle, PeerId};

verus! {

/// dashmap's concurrent hash map, which holds the session table; opaque here.
#[verifier::external_type_specification]
#[verifier::external_body]
#[verifier::reject_recursive_types(K)]
#[verifier::reject_recursive_types(V)]
#[verifier::reject_recursive_types(S)]
pub struct ExDashMap<K, V, S>(dashmap::DashMap<K, V, S>);

/// One side of a matched pair: the handle of the peer's partner.
pub struct Session {
    pub partner: PeerHandle,
}

/// Concurrent map from a peer's identity to its side of a session.
pub type SessionTable = DashMap<PeerId, Session>;

/// What a session table holds: each key mapped to its partner's identity.
pub uninterp spec fn links_of(m: SessionTable) -> Map<PeerId, PeerId>;

/// The contents of a table with no session.
pub open spec fn no_links() -> Map<PeerId, PeerId> {
    Map::empty()
}

/// Relies on `DashMap::new`: an empty map.
#[verifier::external_body]
pub(crate) fn table_new() -> (r: SessionTable)
    ensures
        links_of(r) == no_links(),
{
    DashMap::new()
}

/// Relies on `DashMap::insert`: the key maps to the new value afterwards,
/// every other key is untouched.
#[verifier::external_body]
pub(crate) fn table_insert(m: &mut SessionTable, k: PeerId, s: Session)
    ensures
        links_of(*final(m)) == links_of(*old(m)).insert(k, s.partner.id),
{
    m.insert(k, s);
}

/// Relies on `DashMap::remove`: returns the entry of the key if there was one,
/// and the key is absent afterwards.
#[verifier::external_body]
pub(crate) fn table_remove(m: &mut SessionTable, k: PeerId) -> (r: Option<Session>)
    ensures
        links_of(*final(m)) == links_of(*old(m)).remove(k),
        r is Some <==> links_of(*old(m)).contains_key(k),
        r is Some ==> r->Some_0.partner.id == links_of(*old(m))[k],
{
    m.remove(&k).map(|(_, s)| s)
}

/// Relies on `DashMap::get`: finds the entry of the key, if there is one.
#[verifier::external_body]
pub(crate) fn table_partner(m: &SessionTable, k: PeerId) -> (r: Option<PeerHandle>)
    ensures
        r is Some <==> links_of(*m).contains_key(k),
        r is Some ==> r->Some_0.id == links_of(*m)[k],
{
    m.get(&k).map(|e| e.partner.share())
}

} // verus!
