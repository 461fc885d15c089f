//! The `lru` crate's least-recently-used map, as the cache uses it: keys are
//! a kind tag and a hash, values are slots.
use vstd::prelude::*;

use crate::capacity::CacheCapacityReservation;

verus! {

/// What a slot holds once filled: a cached file, or a hash read upstream.
#[derive(Clone, Copy, Debug, PartialEq, Eq)]
pub enum CacheEntry {
    /// A file on disk, named by the ticket of the request that wrote it.
    File { id: u128, size: u64, reservation: CacheCapacityReservation },
    /// A record that is a single hash.
    Value { hash: [u8; 32] },
}

/// One key's place in the cache.
#[derive(Clone, Copy, Debug, PartialEq, Eq)]
pub enum CacheSlot {
    /// Nothing is cached and no request is fetching it.
    Vacant,
    /// The request with this ticket is fetching it.
    Filling { ticket: u128 },
    /// It is cached.
    Filled { entry: CacheEntry },
}

#[verifier::external_type_specification]
#[verifier::external_body]
#[verifier::reject_recursive_types(K)]
#[verifier::reject_recursive_types(V)]
#[verifier::reject_recursive_types(S)]
pub struct ExLruCache<K, V, S>(lru::LruCache<K, V, S>);

#[verifier::external_type_specification]
#[verifier::external_body]
pub struct ExDefaultHasher(lru::DefaultHasher);

/// The entries of an LRU cache, least recently used first.
pub uninterp spec fn lru_entries(cache: lru::LruCache<(u8, [u8; 32]), CacheSlot>) -> Seq<
    ((u8, [u8; 32]), CacheSlot),
>;

/// The number of entries an LRU cache was made to hold.
pub uninterp spec fn lru_capacity(cache: lru::LruCache<(u8, [u8; 32]), CacheSlot>) -> nat;

/// The position of `key` among `entries` (the last one, scanning from the
/// most recently used end), or `-1`.
pub open spec fn key_position(entries: Seq<((u8, [u8; 32]), CacheSlot)>, key: (u8, [u8; 32])) -> int
    decreases entries.len(),
{
    if entries.len() == 0 {
        -1
    } else if entries.last().0 == key {
        entries.len() - 1
    } else {
        key_position(entries.drop_last(), key)
    }
}

/// No key occurs twice.
pub open spec fn distinct_keys(entries: Seq<((u8, [u8; 32]), CacheSlot)>) -> bool {
    forall|i: int, j: int|
        0 <= i < entries.len() && 0 <= j < entries.len() && i != j ==> #[trigger] entries[i].0
            != #[trigger] entries[j].0
}

/// What every LRU cache is: distinct keys, at most `capacity` of them, and a
/// capacity of at least one.
pub open spec fn lru_wf(entries: Seq<((u8, [u8; 32]), CacheSlot)>, capacity: nat) -> bool {
    &&& distinct_keys(entries)
    &&& entries.len() <= capacity
    &&& capacity > 0
}

/// `entries` with the entry at `pos` moved to the most recently used end.
pub open spec fn promote(entries: Seq<((u8, [u8; 32]), CacheSlot)>, pos: int) -> Seq<
    ((u8, [u8; 32]), CacheSlot),
> {
    entries.remove(pos).push(entries[pos])
}

/// Where `key_position` finds a key, and that it finds every key present.
pub proof fn lemma_key_position(entries: Seq<((u8, [u8; 32]), CacheSlot)>, key: (u8, [u8; 32]))
    requires
        distinct_keys(entries),
    ensures
        -1 <= key_position(entries, key) < entries.len(),
        key_position(entries, key) >= 0 ==> entries[key_position(entries, key)].0 == key,
        key_position(entries, key) < 0 ==> forall|i: int|
            0 <= i < entries.len() ==> #[trigger] entries[i].0 != key,
        forall|i: int| 0 <= i < entries.len() && #[trigger] entries[i].0 == key ==> key_position(
            entries,
            key,
        ) == i,
    decreases entries.len(),
{
    if entries.len() > 0 {
        let rest = entries.drop_last();
        assert(distinct_keys(rest)) by {
            assert forall|i: int, j: int|
                0 <= i < rest.len() && 0 <= j < rest.len() && i != j implies #[trigger] rest[i].0
                != #[trigger] rest[j].0 by {
                assert(rest[i] == entries[i] && rest[j] == entries[j]);
            }
        }
        lemma_key_position(rest, key);
        assert forall|i: int| 0 <= i < entries.len() && #[trigger] entries[i].0 == key implies key_position(
            entries,
            key,
        ) == i by {
            if i < entries.len() - 1 {
                assert(rest[i] == entries[i]);
                if entries.last().0 == key {
                    assert(entries[entries.len() - 1].0 == entries[i].0);
                }
            }
        }
        assert forall|i: int| 0 <= i < entries.len() && key_position(entries, key) < 0 implies #[trigger] entries[i].0
            != key by {
            if i < entries.len() - 1 {
                assert(rest[i] == entries[i]);
            }
        }
    }
}

/// Calls `LruCache::new`. Its source makes an empty cache that holds at most
/// `cap` entries.
#[verifier::external_body]
pub(crate) fn lru_new(cap: usize) -> (cache: lru::LruCache<(u8, [u8; 32]), CacheSlot>)
    requires
        cap > 0,
    ensures
        lru_entries(cache) == Seq::<((u8, [u8; 32]), CacheSlot)>::empty(),
        lru_capacity(cache) == cap,
{
    lru::LruCache::new(std::num::NonZeroUsize::new(cap).unwrap())
}

/// Calls `LruCache::get`. Its source hands out (here: copies) the value of a
/// present key and moves that key to the most recently used end; an absent
/// key changes nothing.
#[verifier::external_body]
pub(crate) fn lru_get(cache: &mut lru::LruCache<(u8, [u8; 32]), CacheSlot>, key: &(u8, [u8; 32])) -> (r:
    Option<CacheSlot>)
    requires
        lru_wf(lru_entries(*old(cache)), lru_capacity(*old(cache))),
    ensures
        lru_capacity(*final(cache)) == lru_capacity(*old(cache)),
        key_position(lru_entries(*old(cache)), *key) < 0 ==> (r is None && lru_entries(
            *final(cache),
        ) == lru_entries(*old(cache))),
        key_position(lru_entries(*old(cache)), *key) >= 0 ==> (r == Some(
            lru_entries(*old(cache))[key_position(lru_entries(*old(cache)), *key)].1,
        ) && lru_entries(*final(cache)) == promote(
            lru_entries(*old(cache)),
            key_position(lru_entries(*old(cache)), *key),
        )),
{
    cache.get(key).copied()
}

/// Calls `LruCache::push`. Its source replaces the value of a present key,
/// moves it to the most recently used end and hands back the key with the old
/// value; it adds an absent key at that end, first taking out and handing
/// back the least recently used entry when the cache is full.
#[verifier::external_body]
pub(crate) fn lru_push(
    cache: &mut lru::LruCache<(u8, [u8; 32]), CacheSlot>,
    key: (u8, [u8; 32]),
    value: CacheSlot,
) -> (r: Option<((u8, [u8; 32]), CacheSlot)>)
    requires
        lru_wf(lru_entries(*old(cache)), lru_capacity(*old(cache))),
    ensures
        lru_capacity(*final(cache)) == lru_capacity(*old(cache)),
        key_position(lru_entries(*old(cache)), key) >= 0 ==> (r == Some(
            (key, lru_entries(*old(cache))[key_position(lru_entries(*old(cache)), key)].1),
        ) && lru_entries(*final(cache)) == lru_entries(*old(cache)).remove(
            key_position(lru_entries(*old(cache)), key),
        ).push((key, value))),
        key_position(lru_entries(*old(cache)), key) < 0 && lru_entries(*old(cache)).len()
            == lru_capacity(*old(cache)) ==> (r == Some(lru_entries(*old(cache))[0])
            && lru_entries(*final(cache)) == lru_entries(*old(cache)).drop_first().push(
            (key, value),
        )),
        key_position(lru_entries(*old(cache)), key) < 0 && lru_entries(*old(cache)).len()
            < lru_capacity(*old(cache)) ==> (r is None && lru_entries(*final(cache)) == lru_entries(
            *old(cache),
        ).push((key, value))),
{
    cache.push(key, value)
}

/// Calls `LruCache::pop_lru`. Its source takes out and hands back the least
/// recently used entry, or nothing from an empty cache.
#[verifier::external_body]
pub(crate) fn lru_pop_lru(cache: &mut lru::LruCache<(u8, [u8; 32]), CacheSlot>) -> (r: Option<
    ((u8, [u8; 32]), CacheSlot),
>)
    requires
        lru_wf(lru_entries(*old(cache)), lru_capacity(*old(cache))),
    ensures
        lru_capacity(*final(cache)) == lru_capacity(*old(cache)),
        lru_entries(*old(cache)).len() == 0 ==> (r is None && lru_entries(*final(cache))
            == lru_entries(*old(cache))),
        lru_entries(*old(cache)).len() > 0 ==> (r == Some(lru_entries(*old(cache))[0])
            && lru_entries(*final(cache)) == lru_entries(*old(cache)).drop_first()),
{
    cache.pop_lru()
}

/// Calls `LruCache::peek_mut`. Its source lends out the value of a present
/// key without moving the key; whatever is written through the loan becomes
/// that key's value. An absent key gives nothing.
#[verifier::external_body]
pub(crate) fn lru_peek_mut<'a>(
    cache: &'a mut lru::LruCache<(u8, [u8; 32]), CacheSlot>,
    key: &(u8, [u8; 32]),
) -> (r: Option<&'a mut CacheSlot>)
    requires
        lru_wf(lru_entries(*old(cache)), lru_capacity(*old(cache))),
    ensures
        key_position(lru_entries(*old(cache)), *key) < 0 ==> (r is None && *final(cache) == *old(
            cache,
        )),
        key_position(lru_entries(*old(cache)), *key) >= 0 ==> r is Some,
        r matches Some(v) ==> ({
            let pos = key_position(lru_entries(*old(cache)), *key);
            &&& *v == lru_entries(*old(cache))[pos].1
            &&& lru_entries(*final(cache)) == lru_entries(*old(cache)).update(pos, (*key, *final(v)))
            &&& lru_capacity(*final(cache)) == lru_capacity(*old(cache))
        }),
{
    cache.peek_mut(key)
}

} // verus!
