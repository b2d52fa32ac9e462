//! The hashed collections of the `ahash` crate, as far as this library uses
//! them.
//!
//! Nothing in this file is proved. Each type is declared opaque, what a
//! collection holds is given a name ([`ids_in`], [`pairs_in`],
//! [`holders_by_chunk`], [`claims_by_ticket`], [`chunks_by_pair`]), and each
//! function states, over those names, what the one call in its body does. Keys
//! are integers and pairs of integers, whose hashing and equality are those of
//! the standard library.

use super::chunk::Chunk;
use super::sets::{CoordSet, TicketSet};
use ahash::{AHashMap, AHashSet, RandomState};
use vstd::prelude::*;

verus! {

/// `ahash::RandomState`, the hasher of every collection here.
#[verifier::external_type_specification]
#[verifier::external_body]
pub struct ExRandomState(RandomState);

/// `ahash::AHashSet`.
#[verifier::external_type_specification]
#[verifier::external_body]
#[verifier::reject_recursive_types(T)]
#[verifier::reject_recursive_types(S)]
pub struct ExAHashSet<T, S>(AHashSet<T, S>);

/// `ahash::AHashMap`.
#[verifier::external_type_specification]
#[verifier::external_body]
#[verifier::reject_recursive_types(K)]
#[verifier::reject_recursive_types(V)]
#[verifier::reject_recursive_types(S)]
pub struct ExAHashMap<K, V, S>(AHashMap<K, V, S>);

/// The numbers that a set of numbers holds.
pub uninterp spec fn ids_in(s: AHashSet<usize>) -> Set<usize>;

/// The pairs that a set of pairs holds.
pub uninterp spec fn pairs_in(s: AHashSet<(usize, usize)>) -> Set<(usize, usize)>;

/// The entries of a map from pairs to sets of tickets.
pub uninterp spec fn holders_by_chunk(m: AHashMap<(usize, usize), TicketSet>) -> Map<
    (usize, usize),
    TicketSet,
>;

/// The entries of a map from numbers to sets of coordinates.
pub uninterp spec fn claims_by_ticket(m: AHashMap<usize, CoordSet>) -> Map<usize, CoordSet>;

/// The entries of a map from pairs to chunks.
pub uninterp spec fn chunks_by_pair(m: AHashMap<(usize, usize), Chunk>) -> Map<
    (usize, usize),
    Chunk,
>;

/// Whether `items` is a set of exactly `n` items, no more and no fewer.
pub open spec fn holds_exactly<A>(items: Set<A>, n: usize) -> bool {
    items.finite() && items.len() == n
}

/// `AHashSet::default`: a set that holds nothing.
#[verifier::external_body]
pub(crate) fn ids_new() -> (s: AHashSet<usize>)
    ensures
        ids_in(s) == Set::<usize>::empty(),
{
    AHashSet::default()
}

/// `HashSet::insert`, reached through `AHashSet`: the set then holds `id` too;
/// the result says whether it was new.
#[verifier::external_body]
pub(crate) fn ids_insert(s: &mut AHashSet<usize>, id: usize) -> (fresh: bool)
    ensures
        ids_in(*final(s)) == ids_in(*old(s)).insert(id),
        fresh == !ids_in(*old(s)).contains(id),
{
    s.insert(id)
}

/// `HashSet::remove`, reached through `AHashSet`: the set then no longer
/// holds `id`; the result says whether it did.
#[verifier::external_body]
pub(crate) fn ids_remove(s: &mut AHashSet<usize>, id: usize) -> (found: bool)
    ensures
        ids_in(*final(s)) == ids_in(*old(s)).remove(id),
        found == ids_in(*old(s)).contains(id),
{
    s.remove(&id)
}

/// `HashSet::contains`, reached through `AHashSet`.
#[verifier::external_body]
pub(crate) fn ids_contains(s: &AHashSet<usize>, id: usize) -> (found: bool)
    ensures
        found == ids_in(*s).contains(id),
{
    s.contains(&id)
}

/// `HashSet::is_empty`, reached through `AHashSet`.
#[verifier::external_body]
pub(crate) fn ids_is_empty(s: &AHashSet<usize>) -> (empty: bool)
    ensures
        empty == ids_in(*s).is_empty(),
{
    s.is_empty()
}

/// `HashSet::len`, reached through `AHashSet`: the set holds as many items
/// as the result says, which are finitely many.
#[verifier::external_body]
pub(crate) fn ids_len(s: &AHashSet<usize>) -> (n: usize)
    ensures
        holds_exactly(ids_in(*s), n),
{
    s.len()
}

/// `AHashSet::default`: a set that holds nothing.
#[verifier::external_body]
pub(crate) fn pairs_new() -> (s: AHashSet<(usize, usize)>)
    ensures
        pairs_in(s) == (Set::<(usize, usize)>::empty()),
{
    AHashSet::default()
}

/// `HashSet::insert`, reached through `AHashSet`: the set then holds `pair`
/// too; the result says whether it was new.
#[verifier::external_body]
pub(crate) fn pairs_insert(s: &mut AHashSet<(usize, usize)>, pair: (usize, usize)) -> (fresh: bool)
    ensures
        pairs_in(*final(s)) == pairs_in(*old(s)).insert(pair),
        fresh == !pairs_in(*old(s)).contains(pair),
{
    s.insert(pair)
}

/// `HashSet::remove`, reached through `AHashSet`: the set then no longer
/// holds `pair`; the result says whether it did.
#[verifier::external_body]
pub(crate) fn pairs_remove(s: &mut AHashSet<(usize, usize)>, pair: (usize, usize)) -> (found: bool)
    ensures
        pairs_in(*final(s)) == pairs_in(*old(s)).remove(pair),
        found == pairs_in(*old(s)).contains(pair),
{
    s.remove(&pair)
}

/// `HashSet::contains`, reached through `AHashSet`.
#[verifier::external_body]
pub(crate) fn pairs_contains(s: &AHashSet<(usize, usize)>, pair: (usize, usize)) -> (found: bool)
    ensures
        found == pairs_in(*s).contains(pair),
{
    s.contains(&pair)
}

/// `HashSet::is_empty`, reached through `AHashSet`.
#[verifier::external_body]
pub(crate) fn pairs_is_empty(s: &AHashSet<(usize, usize)>) -> (empty: bool)
    ensures
        empty == pairs_in(*s).is_empty(),
{
    s.is_empty()
}

/// `HashSet::len`, reached through `AHashSet`: the set holds as many items
/// as the result says, which are finitely many.
#[verifier::external_body]
pub(crate) fn pairs_len(s: &AHashSet<(usize, usize)>) -> (n: usize)
    ensures
        holds_exactly(pairs_in(*s), n),
{
    s.len()
}

/// `HashSet::difference`, reached through `AHashSet`, with what it visits
/// gathered in a vector: each pair that `a` holds and `b` does not, once, in
/// no stated order.
#[verifier::external_body]
pub(crate) fn pairs_difference(a: &AHashSet<(usize, usize)>, b: &AHashSet<(usize, usize)>) -> (v:
    Vec<(usize, usize)>)
    ensures
        v@.no_duplicates(),
        v@.to_set() == pairs_in(*a).difference(pairs_in(*b)),
{
    a.difference(b).cloned().collect()
}

/// `AHashMap::default`: a map without entries.
#[verifier::external_body]
pub(crate) fn holders_new() -> (m: AHashMap<(usize, usize), TicketSet>)
    ensures
        holders_by_chunk(m) == (Map::<(usize, usize), TicketSet>::empty()),
{
    AHashMap::default()
}

/// `AHashMap::get`: the value under `key`, if the map has that key.
#[verifier::external_body]
pub(crate) fn holders_get(m: &AHashMap<(usize, usize), TicketSet>, key: (usize, usize)) -> (value:
    Option<&TicketSet>)
    ensures
        value == (if holders_by_chunk(*m).contains_key(key) {
            Some(&holders_by_chunk(*m)[key])
        } else {
            None
        }),
{
    m.get(&key)
}

/// `AHashMap::get_mut`: the value under `key`, if the map has that key, to be
/// changed in place; what the caller leaves there is what the map then holds
/// under `key`, and no other entry changes.
#[verifier::external_body]
pub(crate) fn holders_get_mut(
    m: &mut AHashMap<(usize, usize), TicketSet>,
    key: (usize, usize),
) -> (value: Option<&mut TicketSet>)
    ensures
        match value {
            Some(v) => holders_by_chunk(*old(m)).contains_key(key) && *v == holders_by_chunk(
                *old(m),
            )[key] && holders_by_chunk(*final(m)) == holders_by_chunk(*old(m)).insert(
                key,
                *final(v),
            ),
            None => !holders_by_chunk(*old(m)).contains_key(key) && holders_by_chunk(*final(m))
                == holders_by_chunk(*old(m)),
        },
{
    m.get_mut(&key)
}

/// `AHashMap::insert`: the map then holds `value` under `key`; the result is
/// what it held there before.
#[verifier::external_body]
pub(crate) fn holders_insert(
    m: &mut AHashMap<(usize, usize), TicketSet>,
    key: (usize, usize),
    value: TicketSet,
) -> (before: Option<TicketSet>)
    ensures
        holders_by_chunk(*final(m)) == holders_by_chunk(*old(m)).insert(key, value),
        before == (if holders_by_chunk(*old(m)).contains_key(key) {
            Some(holders_by_chunk(*old(m))[key])
        } else {
            None
        }),
{
    m.insert(key, value)
}

/// `AHashMap::remove`: the map then has no entry under `key`; the result is
/// what it held there.
#[verifier::external_body]
pub(crate) fn holders_remove(
    m: &mut AHashMap<(usize, usize), TicketSet>,
    key: (usize, usize),
) -> (before: Option<TicketSet>)
    ensures
        holders_by_chunk(*final(m)) == holders_by_chunk(*old(m)).remove(key),
        before == (if holders_by_chunk(*old(m)).contains_key(key) {
            Some(holders_by_chunk(*old(m))[key])
        } else {
            None
        }),
{
    m.remove(&key)
}

/// `AHashMap::default`: a map without entries.
#[verifier::external_body]
pub(crate) fn claims_new() -> (m: AHashMap<usize, CoordSet>)
    ensures
        claims_by_ticket(m) == (Map::<usize, CoordSet>::empty()),
{
    AHashMap::default()
}

/// `AHashMap::get`: the value under `key`, if the map has that key.
#[verifier::external_body]
pub(crate) fn claims_get(m: &AHashMap<usize, CoordSet>, key: usize) -> (value: Option<&CoordSet>)
    ensures
        value == (if claims_by_ticket(*m).contains_key(key) {
            Some(&claims_by_ticket(*m)[key])
        } else {
            None
        }),
{
    m.get(&key)
}

/// `AHashMap::get_mut`: the value under `key`, if the map has that key, to be
/// changed in place; what the caller leaves there is what the map then holds
/// under `key`, and no other entry changes.
#[verifier::external_body]
pub(crate) fn claims_get_mut(
    m: &mut AHashMap<usize, CoordSet>,
    key: usize,
) -> (value: Option<&mut CoordSet>)
    ensures
        match value {
            Some(v) => claims_by_ticket(*old(m)).contains_key(key) && *v == claims_by_ticket(
                *old(m),
            )[key] && claims_by_ticket(*final(m)) == claims_by_ticket(*old(m)).insert(
                key,
                *final(v),
            ),
            None => !claims_by_ticket(*old(m)).contains_key(key) && claims_by_ticket(*final(m))
                == claims_by_ticket(*old(m)),
        },
{
    m.get_mut(&key)
}

/// `AHashMap::insert`: the map then holds `value` under `key`; the result is
/// what it held there before.
#[verifier::external_body]
pub(crate) fn claims_insert(
    m: &mut AHashMap<usize, CoordSet>,
    key: usize,
    value: CoordSet,
) -> (before: Option<CoordSet>)
    ensures
        claims_by_ticket(*final(m)) == claims_by_ticket(*old(m)).insert(key, value),
        before == (if claims_by_ticket(*old(m)).contains_key(key) {
            Some(claims_by_ticket(*old(m))[key])
        } else {
            None
        }),
{
    m.insert(key, value)
}

/// `AHashMap::default`: a map without entries.
#[verifier::external_body]
pub(crate) fn chunks_new() -> (m: AHashMap<(usize, usize), Chunk>)
    ensures
        chunks_by_pair(m) == (Map::<(usize, usize), Chunk>::empty()),
{
    AHashMap::default()
}

/// `HashMap::contains_key`, reached through `AHashMap`.
#[verifier::external_body]
pub(crate) fn chunks_contains_key(
    m: &AHashMap<(usize, usize), Chunk>,
    key: (usize, usize),
) -> (found: bool)
    ensures
        found == chunks_by_pair(*m).contains_key(key),
{
    m.contains_key(&key)
}

/// `AHashMap::get`: the value under `key`, if the map has that key.
#[verifier::external_body]
pub(crate) fn chunks_get(m: &AHashMap<(usize, usize), Chunk>, key: (usize, usize)) -> (value:
    Option<&Chunk>)
    ensures
        value == (if chunks_by_pair(*m).contains_key(key) {
            Some(&chunks_by_pair(*m)[key])
        } else {
            None
        }),
{
    m.get(&key)
}

/// `AHashMap::insert`: the map then holds `value` under `key`; the result is
/// what it held there before.
#[verifier::external_body]
pub(crate) fn chunks_insert(
    m: &mut AHashMap<(usize, usize), Chunk>,
    key: (usize, usize),
    value: Chunk,
) -> (before: Option<Chunk>)
    ensures
        chunks_by_pair(*final(m)) == chunks_by_pair(*old(m)).insert(key, value),
        before == (if chunks_by_pair(*old(m)).contains_key(key) {
            Some(chunks_by_pair(*old(m))[key])
        } else {
            None
        }),
{
    m.insert(key, value)
}

/// `AHashMap::remove`: the map then has no entry under `key`; the result is
/// what it held there.
#[verifier::external_body]
pub(crate) fn chunks_remove(
    m: &mut AHashMap<(usize, usize), Chunk>,
    key: (usize, usize),
) -> (before: Option<Chunk>)
    ensures
        chunks_by_pair(*final(m)) == chunks_by_pair(*old(m)).remove(key),
        before == (if chunks_by_pair(*old(m)).contains_key(key) {
            Some(chunks_by_pair(*old(m))[key])
        } else {
            None
        }),
{
    m.remove(&key)
}

/// `HashMap::len`, reached through `AHashMap`: the map has as many entries
/// as the result says, which are finitely many.
#[verifier::external_body]
pub(crate) fn chunks_len(m: &AHashMap<(usize, usize), Chunk>) -> (n: usize)
    ensures
        holds_exactly(chunks_by_pair(*m).dom(), n),
{
    m.len()
}

} // verus!
