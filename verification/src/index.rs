//! The lookup tables of the registry: from a symbol, and from a client, to
//! the slot that holds what the registry knows of it.

use dashmap::DashMap;
use vstd::prelude::*;

use crate::message::ClientId;

verus! {

/// The concurrent hash map of the `dashmap` crate. What a map holds is known
/// only through [`symbol_slots`] and [`client_slots`].
#[verifier::external_type_specification]
#[verifier::external_body]
#[verifier::reject_recursive_types(K)]
#[verifier::reject_recursive_types(V)]
#[verifier::reject_recursive_types(S)]
pub struct ExDashMap<K, V, S>(DashMap<K, V, S>);

/// The slot of each symbol that a symbol index holds.
pub uninterp spec fn symbol_slots(index: DashMap<String, usize>) -> Map<Seq<char>, usize>;

/// The slot of each client that a client index holds.
pub uninterp spec fn client_slots(index: DashMap<ClientId, usize>) -> Map<ClientId, usize>;

/// An empty symbol index.
///
/// Trusted: calls `DashMap::new`, which makes a map without entries.
#[verifier::external_body]
pub(crate) fn symbol_index_new() -> (index: DashMap<String, usize>)
    ensures
        symbol_slots(index) =~= Map::empty(),
{
    DashMap::new()
}

/// Gives `symbol` the slot `slot`, in place of the one it had, if any.
///
/// Trusted: calls `DashMap::insert`, which stores the value under the key
/// and replaces the value of an equal key. The index is held exclusively,
/// so no other entry changes.
#[verifier::external_body]
pub(crate) fn symbol_index_insert(index: &mut DashMap<String, usize>, symbol: String, slot: usize)
    ensures
        symbol_slots(*final(index)) == symbol_slots(*old(index)).insert(symbol@, slot),
{
    index.insert(symbol, slot);
}

/// The slot of `symbol`, if the index holds one for it.
///
/// Trusted: calls `DashMap::get` with the symbol as a string slice, which
/// finds the entry whose key is equal to it, and copies the value out of
/// the reference that comes back.
#[verifier::external_body]
pub(crate) fn symbol_index_get(index: &DashMap<String, usize>, symbol: &str) -> (slot: Option<
    usize,
>)
    ensures
        slot == if symbol_slots(*index).dom().contains(symbol@) {
            Some(symbol_slots(*index)[symbol@])
        } else {
            None
        },
{
    index.get(symbol).map(|entry| *entry.value())
}

/// An empty client index.
///
/// Trusted: calls `DashMap::new`, which makes a map without entries.
#[verifier::external_body]
pub(crate) fn client_index_new() -> (index: DashMap<ClientId, usize>)
    ensures
        client_slots(index) =~= Map::empty(),
{
    DashMap::new()
}

/// Gives `client` the slot `slot`, in place of the one it had, if any.
///
/// Trusted: calls `DashMap::insert`, as [`symbol_index_insert`] does.
#[verifier::external_body]
pub(crate) fn client_index_insert(index: &mut DashMap<ClientId, usize>, client: ClientId, slot: usize)
    ensures
        client_slots(*final(index)) == client_slots(*old(index)).insert(client, slot),
{
    index.insert(client, slot);
}

/// The slot of `client`, if the index holds one for it.
///
/// Trusted: calls `DashMap::get`, as [`symbol_index_get`] does.
#[verifier::external_body]
pub(crate) fn client_index_get(index: &DashMap<ClientId, usize>, client: ClientId) -> (slot: Option<
    usize,
>)
    ensures
        slot == if client_slots(*index).dom().contains(client) {
            Some(client_slots(*index)[client])
        } else {
            None
        },
{
    index.get(&client).map(|entry| *entry.value())
}

/// Takes the entry of `client` out of the index, if there is one.
///
/// Trusted: calls `DashMap::remove`, which removes the entry whose key is
/// equal to the one given and leaves the others.
#[verifier::external_body]
pub(crate) fn client_index_remove(index: &mut DashMap<ClientId, usize>, client: ClientId)
    ensures
        client_slots(*final(index)) == client_slots(*old(index)).remove(client),
{
    index.remove(&client);
}

} // verus!
