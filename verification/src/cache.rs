//! The cache's decisions, as a state machine over plain values: which slot a
//! request finds, which requests wait on a fetch and are handed its result,
//! which entries are evicted to make room on disk, how a finished or failed
//! fetch changes the cache, and when a file's disk space is given back.
use vstd::prelude::*;

use crate::capacity::{CacheCapacityPool, CacheCapacityReservation};
use crate::lru_cache::{
    distinct_keys, key_position, lemma_key_position, lru_capacity, lru_entries, lru_get, lru_new,
    lru_peek_mut, lru_pop_lru, lru_push, lru_wf, promote, CacheEntry, CacheSlot,
};

verus! {

/// What a request finds when it asks the cache for a key.
#[derive(Clone, Copy, Debug, PartialEq, Eq)]
pub enum Lookup {
    /// The entry is cached. A request that finds a file holds it until it
    /// ends its hold with `ResourceCache::release`.
    Hit { entry: CacheEntry },
    /// Another request is fetching it: this request now waits on that fetch,
    /// and is handed its result when it is done (or asks again if it fails).
    Wait,
    /// Nobody is fetching it: this request now is, under its ticket.
    Fetch,
}

/// The disk space that a slot holds reserved.
pub open spec fn slot_reserved(slot: CacheSlot) -> nat {
    match slot {
        CacheSlot::Filled { entry: CacheEntry::File { reservation, .. } } => reservation.reserved as nat,
        _ => 0,
    }
}

/// The disk space that all of `entries` hold reserved.
pub open spec fn reserved_total(entries: Seq<((u8, [u8; 32]), CacheSlot)>) -> nat
    decreases entries.len(),
{
    if entries.len() == 0 {
        0
    } else {
        reserved_total(entries.drop_last()) + slot_reserved(entries.last().1)
    }
}

/// A kept file holds its whole size reserved.
pub open spec fn slot_fully_reserved(slot: CacheSlot) -> bool {
    match slot {
        CacheSlot::Filled { entry: CacheEntry::File { size, reservation, .. } } => reservation.reserved
            == size,
        _ => true,
    }
}

/// Every kept file among `entries` holds its whole size reserved.
pub open spec fn files_fully_reserved(entries: Seq<((u8, [u8; 32]), CacheSlot)>) -> bool {
    forall|i: int| 0 <= i < entries.len() ==> slot_fully_reserved(#[trigger] entries[i].1)
}

/// The size of the file that a slot keeps, if any.
pub open spec fn kept_size(slot: CacheSlot) -> nat {
    match slot {
        CacheSlot::Filled { entry: CacheEntry::File { size, .. } } => size as nat,
        _ => 0,
    }
}

/// The sizes of all files kept among `entries`.
pub open spec fn kept_size_total(entries: Seq<((u8, [u8; 32]), CacheSlot)>) -> nat
    decreases entries.len(),
{
    if entries.len() == 0 {
        0
    } else {
        kept_size_total(entries.drop_last()) + kept_size(entries.last().1)
    }
}

/// A file that the cache let go of while requests still held it: its id,
/// its size, and the space it keeps reserved until the last hold ends.
pub type Detached = (u128, u64, CacheCapacityReservation);

/// Some request holds the file with this id: it is being served from it.
pub open spec fn is_held(holders: Seq<(u128, u128)>, id: u128) -> bool {
    exists|i: int| 0 <= i < holders.len() && #[trigger] holders[i].0 == id
}

/// What letting go of an evicted slot leaves on disk: a held file stays,
/// with its reservation, until its last hold ends; anything else goes.
pub open spec fn detach(holders: Seq<(u128, u128)>, slot: CacheSlot) -> Seq<Detached> {
    match slot {
        CacheSlot::Filled { entry: CacheEntry::File { id, size, reservation } } => if is_held(
            holders,
            id,
        ) {
            seq![(id, size, reservation)]
        } else {
            Seq::empty()
        },
        _ => Seq::empty(),
    }
}

/// The disk space that letting go of an evicted slot frees at once: that of
/// a file nobody holds.
pub open spec fn freed_space(holders: Seq<(u128, u128)>, slot: CacheSlot) -> nat {
    match slot {
        CacheSlot::Filled { entry: CacheEntry::File { id, reservation, .. } } => if is_held(
            holders,
            id,
        ) {
            0
        } else {
            reservation.reserved as nat
        },
        _ => 0,
    }
}

/// The disk space that all of `detached` hold reserved.
pub open spec fn detached_total(detached: Seq<Detached>) -> nat
    decreases detached.len(),
{
    if detached.len() == 0 {
        0
    } else {
        detached_total(detached.drop_last()) + detached.last().2.reserved as nat
    }
}

/// The sizes of all of `detached`.
pub open spec fn detached_size_total(detached: Seq<Detached>) -> nat
    decreases detached.len(),
{
    if detached.len() == 0 {
        0
    } else {
        detached_size_total(detached.drop_last()) + detached.last().1 as nat
    }
}

/// Every one of `detached` holds its whole size reserved.
pub open spec fn detached_fully_reserved(detached: Seq<Detached>) -> bool {
    forall|i: int| 0 <= i < detached.len() ==> (#[trigger] detached[i]).2.reserved == detached[i].1
}

/// The files that stay on disk after letting go of `evicted`, in order.
pub open spec fn detached_of(holders: Seq<(u128, u128)>, evicted: Seq<
    ((u8, [u8; 32]), CacheSlot),
>) -> Seq<Detached>
    decreases evicted.len(),
{
    if evicted.len() == 0 {
        Seq::empty()
    } else {
        detached_of(holders, evicted.drop_last()) + detach(holders, evicted.last().1)
    }
}

/// The disk space that letting go of all of `entries` frees at once.
pub open spec fn freed_total(holders: Seq<(u128, u128)>, entries: Seq<
    ((u8, [u8; 32]), CacheSlot),
>) -> nat
    decreases entries.len(),
{
    if entries.len() == 0 {
        0
    } else {
        freed_total(holders, entries.drop_last()) + freed_space(holders, entries.last().1)
    }
}

/// The position of the first hold `h` among `holders`, or `-1`.
pub open spec fn first_holder(holders: Seq<(u128, u128)>, h: (u128, u128)) -> int
    decreases holders.len(),
{
    if holders.len() == 0 {
        -1
    } else if holders[0] == h {
        0
    } else {
        let r = first_holder(holders.drop_first(), h);
        if r < 0 {
            -1
        } else {
            r + 1
        }
    }
}

/// The position of the first detached file with `id`, or `-1`.
pub open spec fn first_detached(detached: Seq<Detached>, id: u128) -> int
    decreases detached.len(),
{
    if detached.len() == 0 {
        -1
    } else if detached[0].0 == id {
        0
    } else {
        let r = first_detached(detached.drop_first(), id);
        if r < 0 {
            -1
        } else {
            r + 1
        }
    }
}

/// A request with `ticket` asks for `key` in a cache of `slots` entries:
/// the entries after, what it finds, and the entry evicted to make place.
/// A present key moves to the most recently used end; a vacant or absent
/// key becomes the request's to fetch.
pub open spec fn lookup_spec(
    entries: Seq<((u8, [u8; 32]), CacheSlot)>,
    slots: nat,
    key: (u8, [u8; 32]),
    ticket: u128,
) -> (Seq<((u8, [u8; 32]), CacheSlot)>, Lookup, Option<((u8, [u8; 32]), CacheSlot)>) {
    let pos = key_position(entries, key);
    if pos >= 0 {
        let promoted = promote(entries, pos);
        match entries[pos].1 {
            CacheSlot::Filled { entry } => (promoted, Lookup::Hit { entry }, None),
            CacheSlot::Filling { .. } => (promoted, Lookup::Wait, None),
            CacheSlot::Vacant => (
                promoted.update(promoted.len() - 1, (key, CacheSlot::Filling { ticket })),
                Lookup::Fetch,
                None,
            ),
        }
    } else if entries.len() >= slots {
        (
            entries.drop_first().push((key, CacheSlot::Filling { ticket })),
            Lookup::Fetch,
            Some(entries[0]),
        )
    } else {
        (entries.push((key, CacheSlot::Filling { ticket })), Lookup::Fetch, None)
    }
}

/// Sets `key`'s slot to `slot` when the request with `ticket` is the one
/// fetching it; otherwise changes nothing. Also tells which happened.
pub open spec fn settle_spec(
    entries: Seq<((u8, [u8; 32]), CacheSlot)>,
    key: (u8, [u8; 32]),
    ticket: u128,
    slot: CacheSlot,
) -> (Seq<((u8, [u8; 32]), CacheSlot)>, bool) {
    let pos = key_position(entries, key);
    if pos >= 0 && entries[pos].1 == (CacheSlot::Filling { ticket }) {
        (entries.update(pos, (key, slot)), true)
    } else {
        (entries, false)
    }
}

/// Making room for `size` bytes with `available` free: while the pool cannot
/// give `size`, evict the least recently used entry and take back the space
/// of its file unless a request holds that file; once nothing is left to
/// evict, take what there is. Gives the entries left, the space left free,
/// the space reserved and the entries evicted.
pub open spec fn make_room_spec(
    entries: Seq<((u8, [u8; 32]), CacheSlot)>,
    holders: Seq<(u128, u128)>,
    available: nat,
    size: nat,
) -> (Seq<((u8, [u8; 32]), CacheSlot)>, nat, nat, Seq<((u8, [u8; 32]), CacheSlot)>)
    decreases entries.len(),
{
    if size <= available {
        (entries, (available - size) as nat, size, Seq::empty())
    } else if entries.len() == 0 {
        (entries, 0, available, Seq::empty())
    } else {
        let rest = make_room_spec(
            entries.drop_first(),
            holders,
            available + freed_space(holders, entries[0].1),
            size,
        );
        (rest.0, rest.1, rest.2, seq![entries[0]] + rest.3)
    }
}

/// The ticket of the request fetching `key`, where one is.
pub open spec fn filler_of(entries: Seq<((u8, [u8; 32]), CacheSlot)>, key: (u8, [u8; 32])) -> u128 {
    let pos = key_position(entries, key);
    if pos >= 0 {
        match entries[pos].1 {
            CacheSlot::Filling { ticket } => ticket,
            _ => 0,
        }
    } else {
        0
    }
}

/// The requests waiting on the fetch of the request with `filler`, in the
/// order they came, each as the filler's and the waiter's ticket.
pub open spec fn waiting_on(waiting: Seq<(u128, u128)>, filler: u128) -> Seq<(u128, u128)>
    decreases waiting.len(),
{
    if waiting.len() == 0 {
        Seq::empty()
    } else if waiting.last().0 == filler {
        waiting_on(waiting.drop_last(), filler).push(waiting.last())
    } else {
        waiting_on(waiting.drop_last(), filler)
    }
}

/// The requests waiting on any other fetch, in the order they came.
pub open spec fn waiting_on_others(waiting: Seq<(u128, u128)>, filler: u128) -> Seq<(u128, u128)>
    decreases waiting.len(),
{
    if waiting.len() == 0 {
        Seq::empty()
    } else if waiting.last().0 == filler {
        waiting_on_others(waiting.drop_last(), filler)
    } else {
        waiting_on_others(waiting.drop_last(), filler).push(waiting.last())
    }
}

/// Requests with `tickets` waiting on the fetch of `filler`.
pub open spec fn waits_for(filler: u128, tickets: Seq<u128>) -> Seq<(u128, u128)> {
    Seq::new(tickets.len(), |i: int| (filler, tickets[i]))
}

pub proof fn lemma_waiting_on_concat(a: Seq<(u128, u128)>, b: Seq<(u128, u128)>, filler: u128)
    ensures
        waiting_on(a + b, filler) == waiting_on(a, filler) + waiting_on(b, filler),
    decreases b.len(),
{
    if b.len() == 0 {
        assert(a + b =~= a);
        assert(waiting_on(a, filler) + waiting_on(b, filler) =~= waiting_on(a, filler));
    } else {
        lemma_waiting_on_concat(a, b.drop_last(), filler);
        assert((a + b).drop_last() =~= a + b.drop_last());
        assert(waiting_on(a + b, filler) =~= waiting_on(a, filler) + waiting_on(b, filler));
    }
}

/// Those waiting on other fetches: over two lists, and none at all when all
/// wait on `filler`, all when none does.
pub proof fn lemma_waiting_on_others(a: Seq<(u128, u128)>, b: Seq<(u128, u128)>, filler: u128)
    ensures
        waiting_on_others(a + b, filler) == waiting_on_others(a, filler) + waiting_on_others(
            b,
            filler,
        ),
        (forall|i: int| 0 <= i < b.len() ==> (#[trigger] b[i]).0 == filler) ==> waiting_on_others(
            b,
            filler,
        ) == Seq::<(u128, u128)>::empty(),
        (forall|i: int| 0 <= i < a.len() ==> (#[trigger] a[i]).0 != filler) ==> waiting_on_others(
            a,
            filler,
        ) == a,
    decreases a.len() + b.len(),
{
    if b.len() == 0 {
        assert(a + b =~= a);
        assert(waiting_on_others(a, filler) + waiting_on_others(b, filler) =~= waiting_on_others(
            a,
            filler,
        ));
    } else {
        lemma_waiting_on_others(a, b.drop_last(), filler);
        assert((a + b).drop_last() =~= a + b.drop_last());
        assert(waiting_on_others(a + b, filler) =~= waiting_on_others(a, filler)
            + waiting_on_others(b, filler));
        if forall|i: int| 0 <= i < b.len() ==> (#[trigger] b[i]).0 == filler {
            assert(b[b.len() - 1] == b.last());
            assert forall|i: int| 0 <= i < b.drop_last().len() implies (#[trigger] b.drop_last()[i]).0
                == filler by {
                assert(b.drop_last()[i] == b[i]);
            }
        }
    }
    if a.len() > 0 {
        let rest = a.drop_last();
        lemma_waiting_on_others(rest, Seq::empty(), filler);
        if forall|i: int| 0 <= i < a.len() ==> (#[trigger] a[i]).0 != filler {
            assert forall|i: int| 0 <= i < rest.len() implies (#[trigger] rest[i]).0 != filler by {
                assert(rest[i] == a[i]);
            }
            assert(a[a.len() - 1] == a.last());
            assert(rest.push(a.last()) =~= a);
        }
    }
}

/// Waiting on `filler` only, they all wait on it; waiting on others only,
/// none does.
pub proof fn lemma_waiting_on_all_or_none(waiting: Seq<(u128, u128)>, filler: u128)
    ensures
        (forall|i: int| 0 <= i < waiting.len() ==> (#[trigger] waiting[i]).0 == filler)
            ==> waiting_on(waiting, filler) == waiting,
        (forall|i: int| 0 <= i < waiting.len() ==> (#[trigger] waiting[i]).0 != filler)
            ==> waiting_on(waiting, filler) == Seq::<(u128, u128)>::empty(),
    decreases waiting.len(),
{
    if waiting.len() > 0 {
        let rest = waiting.drop_last();
        lemma_waiting_on_all_or_none(rest, filler);
        if forall|i: int| 0 <= i < waiting.len() ==> (#[trigger] waiting[i]).0 == filler {
            assert forall|i: int| 0 <= i < rest.len() implies (#[trigger] rest[i]).0 == filler by {
                assert(rest[i] == waiting[i]);
            }
            assert(waiting[waiting.len() - 1] == waiting.last());
            assert(rest.push(waiting.last()) =~= waiting);
        }
        if forall|i: int| 0 <= i < waiting.len() ==> (#[trigger] waiting[i]).0 != filler {
            assert forall|i: int| 0 <= i < rest.len() implies (#[trigger] rest[i]).0 != filler by {
                assert(rest[i] == waiting[i]);
            }
            assert(waiting[waiting.len() - 1] == waiting.last());
        }
    }
}

/// Adds all of `src` at the end of `dst`.
fn push_all(dst: &mut Vec<(u128, u128)>, src: &Vec<(u128, u128)>)
    ensures
        final(dst)@ == old(dst)@ + src@,
{
    let ghost start = dst@;
    let mut i: usize = 0;
    while i < src.len()
        invariant
            0 <= i <= src.len(),
            dst@ == start + src@.take(i as int),
        decreases src.len() - i,
    {
        dst.push(src[i]);
        proof {
            assert(start + src@.take(i + 1) =~= (start + src@.take(i as int)).push(src@[i as int]));
        }
        i = i + 1;
    }
    proof {
        assert(src@.take(i as int) =~= src@);
    }
}

/// Splits the requests waiting on the fetch of `filler` from the others:
/// hands them out and leaves the others, each in the order they came.
fn take_waiting(waiting: &mut Vec<(u128, u128)>, filler: u128) -> (handed: Vec<(u128, u128)>)
    ensures
        handed@ == waiting_on(old(waiting)@, filler),
        final(waiting)@ == waiting_on_others(old(waiting)@, filler),
{
    let mut handed: Vec<(u128, u128)> = Vec::new();
    let mut others: Vec<(u128, u128)> = Vec::new();
    let mut i: usize = 0;
    while i < waiting.len()
        invariant
            0 <= i <= waiting.len(),
            handed@ == waiting_on(waiting@.take(i as int), filler),
            others@ == waiting_on_others(waiting@.take(i as int), filler),
        decreases waiting.len() - i,
    {
        let w = waiting[i];
        proof {
            assert(waiting@.take(i + 1).drop_last() =~= waiting@.take(i as int));
            assert(waiting@.take(i + 1).last() == w);
        }
        if w.0 == filler {
            handed.push(w);
        } else {
            others.push(w);
        }
        i = i + 1;
    }
    proof {
        assert(waiting@.take(i as int) =~= waiting@);
    }
    *waiting = others;
    handed
}

pub proof fn lemma_total_concat(
    a: Seq<((u8, [u8; 32]), CacheSlot)>,
    b: Seq<((u8, [u8; 32]), CacheSlot)>,
)
    ensures
        reserved_total(a + b) == reserved_total(a) + reserved_total(b),
    decreases b.len(),
{
    if b.len() == 0 {
        assert(a + b =~= a);
    } else {
        lemma_total_concat(a, b.drop_last());
        assert((a + b).drop_last() =~= a + b.drop_last());
    }
}

pub proof fn lemma_total_split(entries: Seq<((u8, [u8; 32]), CacheSlot)>, i: int)
    requires
        0 <= i < entries.len(),
    ensures
        reserved_total(entries) == reserved_total(entries.take(i)) + slot_reserved(entries[i].1)
            + reserved_total(entries.skip(i + 1)),
        reserved_total(entries.remove(i)) == reserved_total(entries.take(i)) + reserved_total(
            entries.skip(i + 1),
        ),
{
    let single = seq![entries[i]];
    assert(reserved_total(single) == slot_reserved(entries[i].1)) by {
        assert(single.drop_last() =~= Seq::<((u8, [u8; 32]), CacheSlot)>::empty());
        assert(reserved_total(single.drop_last()) == 0);
        assert(single.last() == entries[i]);
    }
    assert(entries =~= entries.take(i) + single + entries.skip(i + 1));
    lemma_total_concat(entries.take(i) + single, entries.skip(i + 1));
    lemma_total_concat(entries.take(i), single);
    assert(entries.remove(i) =~= entries.take(i) + entries.skip(i + 1));
    lemma_total_concat(entries.take(i), entries.skip(i + 1));
}

/// How the total changes when one entry is replaced, removed, or added.
pub proof fn lemma_total_changes(
    entries: Seq<((u8, [u8; 32]), CacheSlot)>,
    i: int,
    item: ((u8, [u8; 32]), CacheSlot),
)
    requires
        0 <= i < entries.len(),
    ensures
        reserved_total(entries.update(i, item)) == reserved_total(entries) - slot_reserved(
            entries[i].1,
        ) + slot_reserved(item.1),
        reserved_total(entries.remove(i)) == reserved_total(entries) - slot_reserved(
            entries[i].1,
        ),
        reserved_total(entries.remove(i).push(item)) == reserved_total(entries) - slot_reserved(
            entries[i].1,
        ) + slot_reserved(item.1),
        reserved_total(entries.drop_first()) == reserved_total(entries) - slot_reserved(
            entries[0].1,
        ),
        reserved_total(entries.push(item)) == reserved_total(entries) + slot_reserved(item.1),
{
    lemma_total_split(entries, i);
    let updated = entries.update(i, item);
    lemma_total_split(updated, i);
    assert(updated.take(i) =~= entries.take(i));
    assert(updated.skip(i + 1) =~= entries.skip(i + 1));
    assert(entries.remove(i).push(item).drop_last() =~= entries.remove(i));
    lemma_total_split(entries, 0);
    assert(entries.drop_first() =~= entries.remove(0));
    assert(entries.push(item).drop_last() =~= entries);
}

pub proof fn lemma_total_push(
    entries: Seq<((u8, [u8; 32]), CacheSlot)>,
    item: ((u8, [u8; 32]), CacheSlot),
)
    ensures
        reserved_total(entries.push(item)) == reserved_total(entries) + slot_reserved(item.1),
{
    assert(entries.push(item).drop_last() =~= entries);
}

pub proof fn lemma_distinct_subrange(entries: Seq<((u8, [u8; 32]), CacheSlot)>, lo: int, hi: int)
    requires
        distinct_keys(entries),
        0 <= lo <= hi <= entries.len(),
    ensures
        distinct_keys(entries.subrange(lo, hi)),
{
    let s = entries.subrange(lo, hi);
    assert forall|i: int, j: int|
        0 <= i < s.len() && 0 <= j < s.len() && i != j implies #[trigger] s[i].0 != #[trigger] s[j].0 by {
        assert(s[i] == entries[lo + i] && s[j] == entries[lo + j]);
    }
}

/// Keys stay distinct when an absent key is added, when a present key moves
/// to the end, and when a present key's value changes.
pub proof fn lemma_distinct_changes(
    entries: Seq<((u8, [u8; 32]), CacheSlot)>,
    key: (u8, [u8; 32]),
    slot: CacheSlot,
)
    requires
        distinct_keys(entries),
    ensures
        key_position(entries, key) < 0 ==> distinct_keys(entries.push((key, slot))),
        key_position(entries, key) < 0 && entries.len() > 0 ==> distinct_keys(
            entries.drop_first().push((key, slot)),
        ),
        key_position(entries, key) >= 0 ==> distinct_keys(
            entries.remove(key_position(entries, key)).push((key, slot)),
        ),
        key_position(entries, key) >= 0 ==> distinct_keys(
            entries.update(key_position(entries, key), (key, slot)),
        ),
        entries.len() > 0 ==> distinct_keys(entries.drop_first()),
{
    lemma_key_position(entries, key);
    let pos = key_position(entries, key);
    if entries.len() > 0 {
        lemma_distinct_subrange(entries, 1, entries.len() as int);
        assert(entries.drop_first() =~= entries.subrange(1, entries.len() as int));
    }
    if pos < 0 {
        let s = entries.push((key, slot));
        assert forall|i: int, j: int|
            0 <= i < s.len() && 0 <= j < s.len() && i != j implies #[trigger] s[i].0
            != #[trigger] s[j].0 by {
            if i < entries.len() {
                assert(s[i] == entries[i]);
            }
            if j < entries.len() {
                assert(s[j] == entries[j]);
            }
        }
        if entries.len() > 0 {
            let t = entries.drop_first().push((key, slot));
            assert forall|i: int, j: int|
                0 <= i < t.len() && 0 <= j < t.len() && i != j implies #[trigger] t[i].0
                != #[trigger] t[j].0 by {
                if i < t.len() - 1 {
                    assert(t[i] == entries[i + 1]);
                }
                if j < t.len() - 1 {
                    assert(t[j] == entries[j + 1]);
                }
            }
        }
    } else {
        let r = entries.remove(pos).push((key, slot));
        assert forall|i: int, j: int|
            0 <= i < r.len() && 0 <= j < r.len() && i != j implies #[trigger] r[i].0
            != #[trigger] r[j].0 by {
            if i < r.len() - 1 {
                if i < pos {
                    assert(r[i] == entries[i]);
                } else {
                    assert(r[i] == entries[i + 1]);
                }
            }
            if j < r.len() - 1 {
                if j < pos {
                    assert(r[j] == entries[j]);
                } else {
                    assert(r[j] == entries[j + 1]);
                }
            }
        }
        let u = entries.update(pos, (key, slot));
        assert forall|i: int, j: int|
            0 <= i < u.len() && 0 <= j < u.len() && i != j implies #[trigger] u[i].0
            != #[trigger] u[j].0 by {
            assert(u[i].0 == entries[i].0);
            assert(u[j].0 == entries[j].0);
        }
    }
}

pub proof fn lemma_detached_total_concat(a: Seq<Detached>, b: Seq<Detached>)
    ensures
        detached_total(a + b) == detached_total(a) + detached_total(b),
        detached_size_total(a + b) == detached_size_total(a) + detached_size_total(b),
    decreases b.len(),
{
    if b.len() == 0 {
        assert(a + b =~= a);
    } else {
        lemma_detached_total_concat(a, b.drop_last());
        assert((a + b).drop_last() =~= a + b.drop_last());
    }
}

/// Taking one file out of `detached` takes its reservation and its size out
/// of the totals.
pub proof fn lemma_detached_total_remove(detached: Seq<Detached>, i: int)
    requires
        0 <= i < detached.len(),
    ensures
        detached_total(detached.remove(i)) + detached[i].2.reserved == detached_total(detached),
        detached_size_total(detached.remove(i)) + detached[i].1 == detached_size_total(detached),
{
    let single = seq![detached[i]];
    assert(single.drop_last() =~= Seq::<Detached>::empty());
    assert(single.last() == detached[i]);
    assert(detached_total(single.drop_last()) == 0);
    assert(detached_size_total(single.drop_last()) == 0);
    assert(detached_total(single) == detached[i].2.reserved);
    assert(detached_size_total(single) == detached[i].1);
    assert(detached =~= detached.take(i) + single + detached.skip(i + 1));
    lemma_detached_total_concat(detached.take(i) + single, detached.skip(i + 1));
    lemma_detached_total_concat(detached.take(i), single);
    assert(detached.remove(i) =~= detached.take(i) + detached.skip(i + 1));
    lemma_detached_total_concat(detached.take(i), detached.skip(i + 1));
}

/// Letting go of one slot: its reservation is either freed or kept by the
/// file that stays on disk.
pub proof fn lemma_detach_splits(holders: Seq<(u128, u128)>, slot: CacheSlot)
    ensures
        slot_reserved(slot) == freed_space(holders, slot) + detached_total(detach(holders, slot)),
        detach(holders, slot).len() <= 1,
        slot_fully_reserved(slot) ==> detached_fully_reserved(detach(holders, slot)),
{
    let d = detach(holders, slot);
    if d.len() == 1 {
        assert(d.drop_last() =~= Seq::<Detached>::empty());
        assert(detached_total(d.drop_last()) == 0);
        assert(detached_total(d) == d[0].2.reserved);
    }
}

pub proof fn lemma_detached_of_concat(
    holders: Seq<(u128, u128)>,
    a: Seq<((u8, [u8; 32]), CacheSlot)>,
    b: Seq<((u8, [u8; 32]), CacheSlot)>,
)
    ensures
        detached_of(holders, a + b) == detached_of(holders, a) + detached_of(holders, b),
        freed_total(holders, a + b) == freed_total(holders, a) + freed_total(holders, b),
    decreases b.len(),
{
    if b.len() == 0 {
        assert(a + b =~= a);
        assert(detached_of(holders, a) + detached_of(holders, b) =~= detached_of(holders, a));
    } else {
        lemma_detached_of_concat(holders, a, b.drop_last());
        assert((a + b).drop_last() =~= a + b.drop_last());
        assert(detached_of(holders, a + b) =~= detached_of(holders, a) + detached_of(
            holders,
            b,
        ));
    }
}

pub proof fn lemma_detached_of_single(
    holders: Seq<(u128, u128)>,
    item: ((u8, [u8; 32]), CacheSlot),
)
    ensures
        detached_of(holders, seq![item]) == detach(holders, item.1),
        freed_total(holders, seq![item]) == freed_space(holders, item.1),
{
    let s = seq![item];
    assert(s.drop_last() =~= Seq::<((u8, [u8; 32]), CacheSlot)>::empty());
    assert(s.last() == item);
    assert(detached_of(holders, s.drop_last()) == Seq::<Detached>::empty());
    assert(freed_total(holders, s.drop_last()) == 0);
    assert(Seq::<Detached>::empty() + detach(holders, item.1) =~= detach(holders, item.1));
}

/// `first_holder` finds the first position that holds `h`.
pub proof fn lemma_first_holder(holders: Seq<(u128, u128)>, h: (u128, u128), i: int)
    requires
        0 <= i <= holders.len(),
        forall|j: int| 0 <= j < i ==> holders[j] != h,
    ensures
        i < holders.len() && holders[i] == h ==> first_holder(holders, h) == i,
        i == holders.len() ==> first_holder(holders, h) == -1,
    decreases i,
{
    if holders.len() > 0 && i > 0 {
        let rest = holders.drop_first();
        assert forall|j: int| 0 <= j < i - 1 implies rest[j] != h by {
            assert(rest[j] == holders[j + 1]);
        }
        lemma_first_holder(rest, h, i - 1);
        if i < holders.len() {
            assert(rest[i - 1] == holders[i]);
        }
    }
}

/// `first_detached` finds the first detached file with `id`.
pub proof fn lemma_first_detached(detached: Seq<Detached>, id: u128, i: int)
    requires
        0 <= i <= detached.len(),
        forall|j: int| 0 <= j < i ==> detached[j].0 != id,
    ensures
        i < detached.len() && detached[i].0 == id ==> first_detached(detached, id) == i,
        i == detached.len() ==> first_detached(detached, id) == -1,
    decreases i,
{
    if detached.len() > 0 && i > 0 {
        let rest = detached.drop_first();
        assert forall|j: int| 0 <= j < i - 1 implies rest[j].0 != id by {
            assert(rest[j] == detached[j + 1]);
        }
        lemma_first_detached(rest, id, i - 1);
        if i < detached.len() {
            assert(rest[i - 1] == detached[i]);
        }
    }
}

/// Where `first_holder` and `first_detached` point.
pub proof fn lemma_first_bounds(holders: Seq<(u128, u128)>, h: (u128, u128), detached: Seq<Detached>, id: u128)
    ensures
        -1 <= first_holder(holders, h) < holders.len(),
        first_holder(holders, h) >= 0 ==> holders[first_holder(holders, h)] == h,
        first_holder(holders, h) < 0 ==> forall|j: int| 0 <= j < holders.len() ==> holders[j] != h,
        -1 <= first_detached(detached, id) < detached.len(),
        first_detached(detached, id) >= 0 ==> detached[first_detached(detached, id)].0 == id,
        first_detached(detached, id) < 0 ==> forall|j: int|
            0 <= j < detached.len() ==> #[trigger] detached[j].0 != id,
    decreases holders.len() + detached.len(),
{
    if holders.len() > 0 {
        lemma_first_bounds(holders.drop_first(), h, detached, id);
        assert forall|j: int| 0 <= j < holders.len() && first_holder(holders, h) < 0 implies holders[j] != h by {
            if j > 0 {
                assert(holders.drop_first()[j - 1] == holders[j]);
            }
        }
    }
    if detached.len() > 0 {
        lemma_first_bounds(holders, h, detached.drop_first(), id);
        assert forall|j: int| 0 <= j < detached.len() && first_detached(detached, id) < 0 implies #[trigger] detached[j].0 != id by {
            if j > 0 {
                assert(detached.drop_first()[j - 1] == detached[j]);
            }
        }
    }
}

/// Making room evicts a least-recently-used prefix of the entries and keeps
/// the rest in order; the space of each evicted file is either freed or kept
/// by the file that stays on disk, so no space is created or lost.
pub proof fn lemma_make_room(
    entries: Seq<((u8, [u8; 32]), CacheSlot)>,
    holders: Seq<(u128, u128)>,
    available: nat,
    size: nat,
)
    ensures
        ({
            let r = make_room_spec(entries, holders, available, size);
            &&& r.3.len() <= entries.len()
            &&& r.3 == entries.take(r.3.len() as int)
            &&& r.0 == entries.skip(r.3.len() as int)
            &&& r.1 + reserved_total(r.0) + r.2 + detached_total(detached_of(holders, r.3))
                == available + reserved_total(entries)
            &&& r.2 <= size
            &&& (r.2 == size || r.0.len() == 0)
        }),
    decreases entries.len(),
{
    if size <= available {
        assert(entries.take(0) =~= Seq::<((u8, [u8; 32]), CacheSlot)>::empty());
        assert(entries.skip(0) =~= entries);
    } else if entries.len() == 0 {
        assert(entries.take(0) =~= entries);
        assert(entries.skip(0) =~= entries);
    } else {
        let rest_entries = entries.drop_first();
        let freed = available + freed_space(holders, entries[0].1);
        lemma_make_room(rest_entries, holders, freed, size);
        let rest = make_room_spec(rest_entries, holders, freed, size);
        let n = rest.3.len() as int;
        assert(seq![entries[0]] + rest.3 =~= entries.take(n + 1));
        assert(rest.0 =~= entries.skip(n + 1));
        lemma_total_changes(entries, 0, entries[0]);
        lemma_detached_of_concat(holders, seq![entries[0]], rest.3);
        lemma_detached_of_single(holders, entries[0]);
        lemma_detach_splits(holders, entries[0].1);
        lemma_detached_total_concat(detach(holders, entries[0].1), detached_of(holders, rest.3));
    }
}

/// The state of a cache of files: its entries, least recently used first, how
/// many entries it may hold, the disk space free, the disk space it was made
/// with, the holds on files (each a file's id and the ticket of the request
/// being served from it), the files it let go of that are still held, and
/// the requests waiting on a fetch (each the fetching request's ticket and
/// the waiting request's).
pub struct ResourceCacheView {
    pub entries: Seq<((u8, [u8; 32]), CacheSlot)>,
    pub slots: nat,
    pub available: nat,
    pub disk_capacity: nat,
    pub holders: Seq<(u128, u128)>,
    pub detached: Seq<Detached>,
    pub waiting: Seq<(u128, u128)>,
}

impl ResourceCacheView {
    /// Every cache of files: a well-formed LRU map whose kept files hold their
    /// whole size reserved, and the free space plus the space that kept and
    /// still-held files hold is the space it was made with.
    pub open spec fn wf(self) -> bool {
        &&& lru_wf(self.entries, self.slots)
        &&& self.available + reserved_total(self.entries) + detached_total(self.detached)
            == self.disk_capacity
        &&& self.disk_capacity <= u64::MAX
        &&& files_fully_reserved(self.entries)
    }

    /// A request asks for `key`: the cache after, what it finds, and the entry
    /// evicted to make place. A file that the request finds is now held by it;
    /// a request that finds the key being fetched waits on that fetch; an
    /// evicted file's space goes back to the pool unless a request holds the
    /// file, which then stays on disk until its last hold ends.
    pub open spec fn lookup(self, key: (u8, [u8; 32]), ticket: u128) -> (
        ResourceCacheView,
        Lookup,
        Option<((u8, [u8; 32]), CacheSlot)>,
    ) {
        let r = lookup_spec(self.entries, self.slots, key, ticket);
        let (freed, kept) = match r.2 {
            Some(e) => (freed_space(self.holders, e.1), detach(self.holders, e.1)),
            None => (0, Seq::empty()),
        };
        let holders = match r.1 {
            Lookup::Hit { entry: CacheEntry::File { id, .. } } => self.holders.push((id, ticket)),
            _ => self.holders,
        };
        let waiting = if r.1 is Wait {
            self.waiting.push((filler_of(self.entries, key), ticket))
        } else {
            self.waiting
        };
        (
            ResourceCacheView {
                entries: r.0,
                available: self.available + freed,
                holders: holders,
                detached: self.detached + kept,
                waiting: waiting,
                ..self
            },
            r.1,
            r.2,
        )
    }

    /// The request with `ticket` has written `size` bytes for `key`: room is
    /// made, the file (named by the ticket) gets the space reserved, and the
    /// request and every request waiting on its fetch hold it (the waiters are
    /// handed the file, and wait no more). It is cached when the request still
    /// holds `key`'s slot; otherwise it stays on disk, its space reserved,
    /// until its last hold ends. Gives the cache after, the entry, whether it
    /// was cached, and the entries evicted.
    pub open spec fn complete_file(self, key: (u8, [u8; 32]), ticket: u128, size: u64) -> (
        ResourceCacheView,
        CacheEntry,
        bool,
        Seq<((u8, [u8; 32]), CacheSlot)>,
    ) {
        let room = make_room_spec(self.entries, self.holders, self.available, size as nat);
        let reservation = CacheCapacityReservation { reserved: room.2 as u64 };
        let entry = CacheEntry::File { id: ticket, size, reservation };
        let settled = settle_spec(room.0, key, ticket, CacheSlot::Filled { entry });
        let detached = self.detached + detached_of(self.holders, room.3);
        (
            ResourceCacheView {
                entries: settled.0,
                available: room.1,
                holders: self.holders.push((ticket, ticket)) + waiting_on(self.waiting, ticket),
                waiting: waiting_on_others(self.waiting, ticket),
                detached: if settled.1 {
                    detached
                } else {
                    detached.push((ticket, size, reservation))
                },
                ..self
            },
            entry,
            settled.1,
            room.3,
        )
    }

    /// The request with `ticket` found nothing upstream, or failed: its slot,
    /// if it still holds it, becomes vacant, so a later request fetches again;
    /// the requests waiting on its fetch wait no more (they ask again).
    pub open spec fn abort(self, key: (u8, [u8; 32]), ticket: u128) -> (ResourceCacheView, bool) {
        let settled = settle_spec(self.entries, key, ticket, CacheSlot::Vacant);
        (
            ResourceCacheView {
                entries: settled.0,
                waiting: waiting_on_others(self.waiting, ticket),
                ..self
            },
            settled.1,
        )
    }

    /// The request with `ticket` is done with the file `id`: its hold ends.
    /// When that was the file's last hold and the cache had let go of the
    /// file, the file goes and its space returns to the pool. Also tells
    /// whether the request held the file.
    pub open spec fn release(self, id: u128, ticket: u128) -> (ResourceCacheView, bool) {
        let pos = first_holder(self.holders, (id, ticket));
        if pos < 0 {
            (self, false)
        } else {
            let holders = self.holders.remove(pos);
            let d = first_detached(self.detached, id);
            if !is_held(holders, id) && d >= 0 {
                (
                    ResourceCacheView {
                        holders: holders,
                        detached: self.detached.remove(d),
                        available: self.available + self.detached[d].2.reserved as nat,
                        ..self
                    },
                    true,
                )
            } else {
                (ResourceCacheView { holders: holders, ..self }, true)
            }
        }
    }
}

/// A cache of files kept on disk, with the disk space they may take.
pub struct ResourceCache {
    lru: lru::LruCache<(u8, [u8; 32]), CacheSlot>,
    pool: CacheCapacityPool,
    disk_capacity: Ghost<nat>,
    holders: Vec<(u128, u128)>,
    detached: Vec<Detached>,
    waiting: Vec<(u128, u128)>,
}

impl View for ResourceCache {
    type V = ResourceCacheView;

    closed spec fn view(&self) -> ResourceCacheView {
        ResourceCacheView {
            entries: lru_entries(self.lru),
            slots: lru_capacity(self.lru),
            available: self.pool.available_capacity as nat,
            disk_capacity: self.disk_capacity@,
            holders: self.holders@,
            detached: self.detached@,
            waiting: self.waiting@,
        }
    }
}

/// What became of a file that a request finished writing.
pub struct FileFill {
    /// The cached file's entry, with the space reserved for it.
    pub entry: CacheEntry,
    /// Whether it was cached (otherwise it stays on disk, its space reserved,
    /// until its last hold ends).
    pub stored: bool,
    /// The entries evicted to make room, least recently used first.
    pub evicted: Vec<((u8, [u8; 32]), CacheSlot)>,
    /// The requests that waited on this fetch and are handed the file (each
    /// the fetching request's ticket and the waiter's), in the order they came.
    pub waiters: Vec<(u128, u128)>,
}

/// Looks `key` up for the request with `ticket`, as `lookup_spec` says; also
/// gives the ticket of the request fetching it, where one is.
fn lookup_slot(
    lru: &mut lru::LruCache<(u8, [u8; 32]), CacheSlot>,
    key: (u8, [u8; 32]),
    ticket: u128,
) -> (r: (Lookup, Option<((u8, [u8; 32]), CacheSlot)>, u128))
    requires
        lru_wf(lru_entries(*old(lru)), lru_capacity(*old(lru))),
    ensures
        lru_capacity(*final(lru)) == lru_capacity(*old(lru)),
        lru_wf(lru_entries(*final(lru)), lru_capacity(*final(lru))),
        ({
            let s = lookup_spec(lru_entries(*old(lru)), lru_capacity(*old(lru)), key, ticket);
            &&& lru_entries(*final(lru)) == s.0
            &&& r.0 == s.1
            &&& r.1 == s.2
            &&& r.2 == filler_of(lru_entries(*old(lru)), key)
        }),
{
    let ghost before = lru_entries(*lru);
    proof {
        lemma_key_position(before, key);
        lemma_distinct_changes(before, key, CacheSlot::Filling { ticket });
    }
    match lru_get(lru, &key) {
        Some(CacheSlot::Filled { entry }) => {
            proof {
                lemma_distinct_changes(before, key, before[key_position(before, key)].1);
            }
            (Lookup::Hit { entry }, None, 0)
        },
        Some(CacheSlot::Filling { ticket: filler }) => {
            proof {
                lemma_distinct_changes(before, key, before[key_position(before, key)].1);
            }
            (Lookup::Wait, None, filler)
        },
        Some(CacheSlot::Vacant) => {
            let ghost promoted = lru_entries(*lru);
            proof {
                lemma_distinct_changes(before, key, before[key_position(before, key)].1);
                assert(promoted.last().0 == key);
                assert(key_position(promoted, key) == promoted.len() - 1);
                lemma_distinct_changes(promoted, key, CacheSlot::Filling { ticket });
            }
            match lru_peek_mut(lru, &key) {
                Some(slot) => {
                    *slot = CacheSlot::Filling { ticket };
                },
                None => {},
            }
            (Lookup::Fetch, None, 0)
        },
        None => {
            let evicted = lru_push(lru, key, CacheSlot::Filling { ticket });
            (Lookup::Fetch, evicted, 0)
        },
    }
}

/// Sets `key`'s slot to `slot` if the request with `ticket` holds it, as
/// `settle_spec` says.
fn settle_slot(
    lru: &mut lru::LruCache<(u8, [u8; 32]), CacheSlot>,
    key: (u8, [u8; 32]),
    ticket: u128,
    new_slot: CacheSlot,
) -> (settled: bool)
    requires
        lru_wf(lru_entries(*old(lru)), lru_capacity(*old(lru))),
    ensures
        lru_capacity(*final(lru)) == lru_capacity(*old(lru)),
        lru_wf(lru_entries(*final(lru)), lru_capacity(*final(lru))),
        ({
            let s = settle_spec(lru_entries(*old(lru)), key, ticket, new_slot);
            &&& lru_entries(*final(lru)) == s.0
            &&& settled == s.1
        }),
{
    let ghost before = lru_entries(*lru);
    proof {
        lemma_key_position(before, key);
        lemma_distinct_changes(before, key, new_slot);
    }
    match lru_peek_mut(lru, &key) {
        Some(slot) => {
            let holds = match *slot {
                CacheSlot::Filling { ticket: t } => t == ticket,
                _ => false,
            };
            if holds {
                *slot = new_slot;
            }
            holds
        },
        None => false,
    }
}

/// Whether some request holds the file `id`.
fn holds_file(holders: &Vec<(u128, u128)>, id: u128) -> (held: bool)
    ensures
        held == is_held(holders@, id),
{
    let mut i: usize = 0;
    while i < holders.len()
        invariant
            0 <= i <= holders.len(),
            forall|j: int| 0 <= j < i ==> (#[trigger] holders@[j]).0 != id,
        decreases holders.len() - i,
    {
        if holders[i].0 == id {
            return true;
        }
        i = i + 1;
    }
    false
}

/// The first position of the hold `h`, as `first_holder` says.
fn find_holder(holders: &Vec<(u128, u128)>, h: (u128, u128)) -> (pos: Option<usize>)
    ensures
        match pos {
            Some(i) => first_holder(holders@, h) == i,
            None => first_holder(holders@, h) == -1,
        },
{
    let mut i: usize = 0;
    while i < holders.len()
        invariant
            0 <= i <= holders.len(),
            forall|j: int| 0 <= j < i ==> holders@[j] != h,
        decreases holders.len() - i,
    {
        if holders[i].0 == h.0 && holders[i].1 == h.1 {
            proof {
                lemma_first_holder(holders@, h, i as int);
            }
            return Some(i);
        }
        i = i + 1;
    }
    proof {
        lemma_first_holder(holders@, h, i as int);
    }
    None
}

/// The first position of a detached file with `id`, as `first_detached` says.
fn find_detached(detached: &Vec<Detached>, id: u128) -> (pos: Option<usize>)
    ensures
        match pos {
            Some(i) => first_detached(detached@, id) == i,
            None => first_detached(detached@, id) == -1,
        },
{
    let mut i: usize = 0;
    while i < detached.len()
        invariant
            0 <= i <= detached.len(),
            forall|j: int| 0 <= j < i ==> (#[trigger] detached@[j]).0 != id,
        decreases detached.len() - i,
    {
        if detached[i].0 == id {
            proof {
                lemma_first_detached(detached@, id, i as int);
            }
            return Some(i);
        }
        i = i + 1;
    }
    proof {
        lemma_first_detached(detached@, id, i as int);
    }
    None
}

/// Lets go of an evicted slot: a held file stays on disk with its
/// reservation; the space of any other file goes back to the pool.
fn let_go(
    pool: &mut CacheCapacityPool,
    detached: &mut Vec<Detached>,
    holders: &Vec<(u128, u128)>,
    slot: CacheSlot,
)
    requires
        old(pool).available_capacity + slot_reserved(slot) <= u64::MAX,
    ensures
        final(pool).available_capacity == old(pool).available_capacity + freed_space(
            holders@,
            slot,
        ),
        final(detached)@ == old(detached)@ + detach(holders@, slot),
{
    match slot {
        CacheSlot::Filled { entry: CacheEntry::File { id, size, reservation } } => {
            if holds_file(holders, id) {
                detached.push((id, size, reservation));
                proof {
                    assert(detached@ =~= old(detached)@ + detach(holders@, slot));
                }
            } else {
                let mut reservation = reservation;
                reservation.return_to_pool(pool);
                proof {
                    assert(detached@ =~= old(detached)@ + detach(holders@, slot));
                }
            }
        },
        _ => {
            proof {
                assert(detached@ =~= old(detached)@ + detach(holders@, slot));
            }
        },
    }
}

impl ResourceCache {
    /// An empty cache of at most `max_files` files and `disk_capacity` bytes.
    pub fn new(max_files: usize, disk_capacity: u64) -> (cache: ResourceCache)
        requires
            max_files > 0,
        ensures
            cache@.wf(),
            cache@.entries == Seq::<((u8, [u8; 32]), CacheSlot)>::empty(),
            cache@.slots == max_files,
            cache@.available == disk_capacity,
            cache@.disk_capacity == disk_capacity,
            cache@.holders == Seq::<(u128, u128)>::empty(),
            cache@.detached == Seq::<Detached>::empty(),
            cache@.waiting == Seq::<(u128, u128)>::empty(),
    {
        ResourceCache {
            lru: lru_new(max_files),
            pool: CacheCapacityPool::new(disk_capacity),
            disk_capacity: Ghost(disk_capacity as nat),
            holders: Vec::new(),
            detached: Vec::new(),
            waiting: Vec::new(),
        }
    }

    /// The disk space free.
    pub fn available(&self) -> (n: u64)
        ensures
            n == self@.available,
    {
        self.pool.available_capacity
    }

    /// The request with `ticket` asks for `key` (see `ResourceCacheView::lookup`).
    pub fn lookup(&mut self, key: (u8, [u8; 32]), ticket: u128) -> (r: (
        Lookup,
        Option<((u8, [u8; 32]), CacheSlot)>,
    ))
        requires
            old(self)@.wf(),
        ensures
            final(self)@.wf(),
            ({
                let s = old(self)@.lookup(key, ticket);
                &&& final(self)@ == s.0
                &&& r.0 == s.1
                &&& r.1 == s.2
            }),
    {
        let ghost before = self@;
        let (found, evicted, filler) = lookup_slot(&mut self.lru, key, ticket);
        let r = (found, evicted);
        proof {
            lemma_lookup_wf(before, key, ticket);
            lemma_key_position(before.entries, key);
            if r.1 is Some {
                lemma_total_changes(before.entries, 0, before.entries[0]);
            }
        }
        match r.1 {
            Some(evicted) => let_go(&mut self.pool, &mut self.detached, &self.holders, evicted.1),
            None => {
                proof {
                    assert(self.detached@ =~= before.detached + Seq::<Detached>::empty());
                }
            },
        }
        match r.0 {
            Lookup::Hit { entry: CacheEntry::File { id, .. } } => {
                self.holders.push((id, ticket));
            },
            Lookup::Wait => {
                self.waiting.push((filler, ticket));
            },
            _ => {},
        }
        proof {
            assert(self@ == before.lookup(key, ticket).0);
        }
        r
    }

    /// Evicts least recently used entries until `size` bytes can be reserved,
    /// or reserves what is free once nothing is left to evict.
    fn make_room(&mut self, size: u64) -> (r: (
        CacheCapacityReservation,
        Vec<((u8, [u8; 32]), CacheSlot)>,
    ))
        requires
            old(self)@.wf(),
        ensures
            ({
                let s = make_room_spec(
                    old(self)@.entries,
                    old(self)@.holders,
                    old(self)@.available,
                    size as nat,
                );
                &&& final(self)@.entries == s.0
                &&& final(self)@.available == s.1
                &&& r.0.reserved == s.2
                &&& r.1@ == s.3
                &&& final(self)@.detached == old(self)@.detached + detached_of(
                    old(self)@.holders,
                    s.3,
                )
            }),
            final(self)@.slots == old(self)@.slots,
            final(self)@.disk_capacity == old(self)@.disk_capacity,
            final(self)@.holders == old(self)@.holders,
            final(self)@.waiting == old(self)@.waiting,
            lru_wf(final(self)@.entries, final(self)@.slots),
            final(self)@.available + reserved_total(final(self)@.entries) + detached_total(
                final(self)@.detached,
            ) + r.0.reserved == old(self)@.disk_capacity,
    {
        let ghost orig = self@;
        let mut evicted: Vec<((u8, [u8; 32]), CacheSlot)> = Vec::new();
        proof {
            lemma_make_room(orig.entries, orig.holders, orig.available, size as nat);
            assert(evicted@ + make_room_spec(orig.entries, orig.holders, orig.available, size as nat).3
                =~= make_room_spec(orig.entries, orig.holders, orig.available, size as nat).3);
            assert(orig.detached + detached_of(orig.holders, evicted@) =~= orig.detached);
        }
        loop
            invariant
                orig == old(self)@,
                lru_wf(self@.entries, self@.slots),
                self@.slots == orig.slots,
                self@.disk_capacity == orig.disk_capacity,
                self@.holders == orig.holders,
                self@.waiting == orig.waiting,
                orig.disk_capacity <= u64::MAX,
                self@.available + reserved_total(self@.entries) + detached_total(self@.detached)
                    == orig.disk_capacity,
                self@.detached == orig.detached + detached_of(orig.holders, evicted@),
                ({
                    let now = make_room_spec(self@.entries, orig.holders, self@.available, size as nat);
                    let all = make_room_spec(orig.entries, orig.holders, orig.available, size as nat);
                    &&& all.0 == now.0
                    &&& all.1 == now.1
                    &&& all.2 == now.2
                    &&& all.3 == evicted@ + now.3
                }),
            decreases self@.entries.len(),
        {
            let ghost here = self@;
            proof {
                lemma_make_room(here.entries, orig.holders, here.available, size as nat);
            }
            match self.pool.reserve(size) {
                Some(reservation) => {
                    proof {
                        assert(evicted@ + Seq::<((u8, [u8; 32]), CacheSlot)>::empty() =~= evicted@);
                    }
                    return (reservation, evicted);
                },
                None => {},
            }
            match lru_pop_lru(&mut self.lru) {
                Some(entry) => {
                    proof {
                        lemma_total_changes(here.entries, 0, here.entries[0]);
                        lemma_distinct_changes(here.entries, entry.0, entry.1);
                        let rest = make_room_spec(
                            here.entries.drop_first(),
                            orig.holders,
                            here.available + freed_space(orig.holders, here.entries[0].1),
                            size as nat,
                        );
                        assert(evicted@.push(entry) + rest.3 =~= evicted@ + (seq![here.entries[0]]
                            + rest.3));
                        lemma_detach_splits(orig.holders, entry.1);
                        assert(evicted@.push(entry).drop_last() =~= evicted@);
                        lemma_detached_total_concat(here.detached, detach(orig.holders, entry.1));
                        assert(here.detached + detach(orig.holders, entry.1) =~= orig.detached
                            + detached_of(orig.holders, evicted@.push(entry)));
                    }
                    let_go(&mut self.pool, &mut self.detached, &self.holders, entry.1);
                    evicted.push(entry);
                },
                None => {
                    let reservation = self.pool.reserve_up_to(size);
                    proof {
                        assert(evicted@ + Seq::<((u8, [u8; 32]), CacheSlot)>::empty() =~= evicted@);
                    }
                    return (reservation, evicted);
                },
            }
        }
    }

    /// The request with `ticket` has written `size` bytes for `key` (see
    /// `ResourceCacheView::complete_file`).
    pub fn complete_file(&mut self, key: (u8, [u8; 32]), ticket: u128, size: u64) -> (r: FileFill)
        requires
            old(self)@.wf(),
        ensures
            final(self)@.wf(),
            ({
                let s = old(self)@.complete_file(key, ticket, size);
                &&& final(self)@ == s.0
                &&& r.entry == s.1
                &&& r.stored == s.2
                &&& r.evicted@ == s.3
            }),
            r.waiters@ == waiting_on(old(self)@.waiting, ticket),
    {
        let ghost before = self@;
        let (reservation, evicted) = self.make_room(size);
        let ghost room = self@;
        let entry = CacheEntry::File { id: ticket, size, reservation };
        let stored = settle_slot(&mut self.lru, key, ticket, CacheSlot::Filled { entry });
        self.holders.push((ticket, ticket));
        if !stored {
            self.detached.push((ticket, size, reservation));
        }
        let waiters = take_waiting(&mut self.waiting, ticket);
        push_all(&mut self.holders, &waiters);
        proof {
            law_kept_file_fully_reserved(before, key, ticket, size);
            assert(self@ == before.complete_file(key, ticket, size).0);
        }
        FileFill { entry, stored, evicted, waiters }
    }

    /// The request with `ticket` gives up on `key` (see `ResourceCacheView::abort`);
    /// also hands out the requests that waited on its fetch.
    pub fn abort(&mut self, key: (u8, [u8; 32]), ticket: u128) -> (r: (bool, Vec<(u128, u128)>))
        requires
            old(self)@.wf(),
        ensures
            final(self)@.wf(),
            ({
                let s = old(self)@.abort(key, ticket);
                &&& final(self)@ == s.0
                &&& r.0 == s.1
            }),
            r.1@ == waiting_on(old(self)@.waiting, ticket),
    {
        let ghost before = self@;
        proof {
            lemma_key_position(before.entries, key);
            let pos = key_position(before.entries, key);
            if pos >= 0 {
                lemma_total_changes(before.entries, pos, (key, CacheSlot::Vacant));
                lemma_fully_reserved_update(before.entries, pos, (key, CacheSlot::Vacant));
            }
        }
        let reset = settle_slot(&mut self.lru, key, ticket, CacheSlot::Vacant);
        let waiters = take_waiting(&mut self.waiting, ticket);
        (reset, waiters)
    }

    /// The request with `ticket` is done with the file `id` (see
    /// `ResourceCacheView::release`).
    pub fn release(&mut self, id: u128, ticket: u128) -> (held: bool)
        requires
            old(self)@.wf(),
        ensures
            final(self)@.wf(),
            ({
                let s = old(self)@.release(id, ticket);
                &&& final(self)@ == s.0
                &&& held == s.1
            }),
    {
        let ghost before = self@;
        proof {
            lemma_first_bounds(before.holders, (id, ticket), before.detached, id);
        }
        match find_holder(&self.holders, (id, ticket)) {
            None => false,
            Some(pos) => {
                self.holders.remove(pos);
                if !holds_file(&self.holders, id) {
                    match find_detached(&self.detached, id) {
                        Some(d) => {
                            let file = self.detached.remove(d);
                            proof {
                                lemma_detached_total_remove(before.detached, d as int);
                            }
                            let mut reservation = file.2;
                            reservation.return_to_pool(&mut self.pool);
                        },
                        None => {},
                    }
                }
                proof {
                    assert(self@ == before.release(id, ticket).0);
                }
                true
            },
        }
    }
}

} // verus!

verus! {

/// The state of a cache of records: its entries, least recently used first,
/// how many entries it may hold, and the requests waiting on a fetch (each
/// the fetching request's ticket and the waiting request's).
pub struct ValueCacheView {
    pub entries: Seq<((u8, [u8; 32]), CacheSlot)>,
    pub slots: nat,
    pub waiting: Seq<(u128, u128)>,
}

impl ValueCacheView {
    /// Every cache of records is a well-formed LRU map.
    pub open spec fn wf(self) -> bool {
        lru_wf(self.entries, self.slots)
    }

    /// A request asks for `key`: the cache after, what it finds, and the entry
    /// evicted to make place. A request that finds the key being fetched
    /// waits on that fetch.
    pub open spec fn lookup(self, key: (u8, [u8; 32]), ticket: u128) -> (
        ValueCacheView,
        Lookup,
        Option<((u8, [u8; 32]), CacheSlot)>,
    ) {
        let r = lookup_spec(self.entries, self.slots, key, ticket);
        let waiting = if r.1 is Wait {
            self.waiting.push((filler_of(self.entries, key), ticket))
        } else {
            self.waiting
        };
        (ValueCacheView { entries: r.0, waiting: waiting, ..self }, r.1, r.2)
    }

    /// The request with `ticket` read `hash` upstream for `key`: it is cached
    /// when the request still holds `key`'s slot; either way the requests
    /// waiting on its fetch are handed the record and wait no more.
    pub open spec fn complete_value(self, key: (u8, [u8; 32]), ticket: u128, hash: [u8; 32]) -> (
        ValueCacheView,
        bool,
    ) {
        let settled = settle_spec(
            self.entries,
            key,
            ticket,
            CacheSlot::Filled { entry: CacheEntry::Value { hash } },
        );
        (
            ValueCacheView {
                entries: settled.0,
                waiting: waiting_on_others(self.waiting, ticket),
                ..self
            },
            settled.1,
        )
    }

    /// The request with `ticket` found nothing upstream, or failed: its slot,
    /// if it still holds it, becomes vacant; the requests waiting on its
    /// fetch wait no more (they ask again).
    pub open spec fn abort(self, key: (u8, [u8; 32]), ticket: u128) -> (ValueCacheView, bool) {
        let settled = settle_spec(self.entries, key, ticket, CacheSlot::Vacant);
        (
            ValueCacheView {
                entries: settled.0,
                waiting: waiting_on_others(self.waiting, ticket),
                ..self
            },
            settled.1,
        )
    }
}

/// A cache of records read upstream, each a single hash.
pub struct ValueCache {
    lru: lru::LruCache<(u8, [u8; 32]), CacheSlot>,
    waiting: Vec<(u128, u128)>,
}

impl View for ValueCache {
    type V = ValueCacheView;

    closed spec fn view(&self) -> ValueCacheView {
        ValueCacheView {
            entries: lru_entries(self.lru),
            slots: lru_capacity(self.lru),
            waiting: self.waiting@,
        }
    }
}

impl ValueCache {
    /// An empty cache of at most `max_entries` records.
    pub fn new(max_entries: usize) -> (cache: ValueCache)
        requires
            max_entries > 0,
        ensures
            cache@.wf(),
            cache@.entries == Seq::<((u8, [u8; 32]), CacheSlot)>::empty(),
            cache@.slots == max_entries,
            cache@.waiting == Seq::<(u128, u128)>::empty(),
    {
        ValueCache { lru: lru_new(max_entries), waiting: Vec::new() }
    }

    /// The request with `ticket` asks for `key` (see `ValueCacheView::lookup`).
    pub fn lookup(&mut self, key: (u8, [u8; 32]), ticket: u128) -> (r: (
        Lookup,
        Option<((u8, [u8; 32]), CacheSlot)>,
    ))
        requires
            old(self)@.wf(),
        ensures
            final(self)@.wf(),
            ({
                let s = old(self)@.lookup(key, ticket);
                &&& final(self)@ == s.0
                &&& r.0 == s.1
                &&& r.1 == s.2
            }),
    {
        let (found, evicted, filler) = lookup_slot(&mut self.lru, key, ticket);
        match found {
            Lookup::Wait => {
                self.waiting.push((filler, ticket));
            },
            _ => {},
        }
        (found, evicted)
    }

    /// The request with `ticket` read `hash` for `key` (see
    /// `ValueCacheView::complete_value`); also hands out the requests that
    /// waited on its fetch.
    pub fn complete_value(&mut self, key: (u8, [u8; 32]), ticket: u128, hash: [u8; 32]) -> (r: (
        bool,
        Vec<(u128, u128)>,
    ))
        requires
            old(self)@.wf(),
        ensures
            final(self)@.wf(),
            ({
                let s = old(self)@.complete_value(key, ticket, hash);
                &&& final(self)@ == s.0
                &&& r.0 == s.1
            }),
            r.1@ == waiting_on(old(self)@.waiting, ticket),
    {
        let stored = settle_slot(
            &mut self.lru,
            key,
            ticket,
            CacheSlot::Filled { entry: CacheEntry::Value { hash } },
        );
        let waiters = take_waiting(&mut self.waiting, ticket);
        (stored, waiters)
    }

    /// The request with `ticket` gives up on `key` (see `ValueCacheView::abort`);
    /// also hands out the requests that waited on its fetch.
    pub fn abort(&mut self, key: (u8, [u8; 32]), ticket: u128) -> (r: (bool, Vec<(u128, u128)>))
        requires
            old(self)@.wf(),
        ensures
            final(self)@.wf(),
            ({
                let s = old(self)@.abort(key, ticket);
                &&& final(self)@ == s.0
                &&& r.0 == s.1
            }),
            r.1@ == waiting_on(old(self)@.waiting, ticket),
    {
        let reset = settle_slot(&mut self.lru, key, ticket, CacheSlot::Vacant);
        let waiters = take_waiting(&mut self.waiting, ticket);
        (reset, waiters)
    }
}

} // verus!

verus! {

/// The slot that `key` has among `entries`, if it is present.
pub open spec fn slot_of(entries: Seq<((u8, [u8; 32]), CacheSlot)>, key: (u8, [u8; 32])) -> Option<
    CacheSlot,
> {
    let pos = key_position(entries, key);
    if pos >= 0 {
        Some(entries[pos].1)
    } else {
        None
    }
}

/// After `lookup_spec`, the key is present, at the most recently used end,
/// and the keys are still distinct and within the capacity.
pub proof fn lemma_lookup_places_key(
    entries: Seq<((u8, [u8; 32]), CacheSlot)>,
    slots: nat,
    key: (u8, [u8; 32]),
    ticket: u128,
)
    requires
        lru_wf(entries, slots),
    ensures
        ({
            let r = lookup_spec(entries, slots, key, ticket);
            &&& lru_wf(r.0, slots)
            &&& r.0.len() > 0
            &&& r.0.last().0 == key
            &&& key_position(r.0, key) == r.0.len() - 1
            &&& slot_of(entries, key) matches Some(s) ==> (s matches CacheSlot::Filling { .. } ==> r.0.last().1 == s)
            &&& slot_of(entries, key) matches Some(s) ==> (s matches CacheSlot::Filled { .. } ==> r.0.last().1 == s)
            &&& (slot_of(entries, key) is None || slot_of(entries, key) == Some(CacheSlot::Vacant))
                ==> r.0.last().1 == (CacheSlot::Filling { ticket })
        }),
{
    lemma_key_position(entries, key);
    lemma_distinct_changes(entries, key, CacheSlot::Filling { ticket });
    let pos = key_position(entries, key);
    if pos >= 0 {
        lemma_distinct_changes(entries, key, entries[pos].1);
        let promoted = promote(entries, pos);
        assert(promoted.last().0 == key);
        assert(key_position(promoted, key) == promoted.len() - 1);
        lemma_distinct_changes(promoted, key, CacheSlot::Filling { ticket });
    }
}

/// Read after write: once a request's file is cached, the next request for
/// the same key is served that file from the cache, without fetching.
pub proof fn law_cached_file_is_served(
    v: ResourceCacheView,
    key: (u8, [u8; 32]),
    ticket: u128,
    size: u64,
    next_ticket: u128,
)
    requires
        v.wf(),
    ensures
        ({
            let (after, entry, stored, _) = v.complete_file(key, ticket, size);
            stored ==> after.lookup(key, next_ticket).1 == (Lookup::Hit { entry })
        }),
{
    lemma_make_room(v.entries, v.holders, v.available, size as nat);
    let room = make_room_spec(v.entries, v.holders, v.available, size as nat);
    lemma_distinct_subrange(v.entries, room.3.len() as int, v.entries.len() as int);
    assert(room.0 =~= v.entries.subrange(room.3.len() as int, v.entries.len() as int));
    let (after, entry, stored, _) = v.complete_file(key, ticket, size);
    if stored {
        lemma_key_position(room.0, key);
        let pos = key_position(room.0, key);
        lemma_distinct_changes(room.0, key, CacheSlot::Filled { entry });
        lemma_key_position(after.entries, key);
        assert(after.entries[pos].0 == key);
    }
}

/// A request that holds a key's slot and whose file fits in the free disk
/// space gets it cached.
pub proof fn law_file_that_fits_is_stored(
    v: ResourceCacheView,
    key: (u8, [u8; 32]),
    ticket: u128,
    size: u64,
)
    requires
        v.wf(),
        slot_of(v.entries, key) == Some(CacheSlot::Filling { ticket }),
        size <= v.available,
    ensures
        v.complete_file(key, ticket, size).2,
        v.complete_file(key, ticket, size).3.len() == 0,
        v.complete_file(key, ticket, size).0.available == v.available - size,
{
}

/// The first request for a key that is not cached fetches it; a second
/// request while the first is fetching waits for it.
pub proof fn law_second_request_waits(
    v: ResourceCacheView,
    key: (u8, [u8; 32]),
    first: u128,
    second: u128,
)
    requires
        v.wf(),
        slot_of(v.entries, key) is None || slot_of(v.entries, key) == Some(CacheSlot::Vacant),
    ensures
        v.lookup(key, first).1 == Lookup::Fetch,
        v.lookup(key, first).0.lookup(key, second).1 == Lookup::Wait,
{
    lemma_lookup_places_key(v.entries, v.slots, key, first);
}

/// Misses are not cached: after the fetching request gives up (nothing
/// upstream, or an error), the next request fetches again.
pub proof fn law_failed_fetch_is_retried(
    v: ResourceCacheView,
    key: (u8, [u8; 32]),
    ticket: u128,
    next_ticket: u128,
)
    requires
        v.wf(),
        slot_of(v.entries, key) == Some(CacheSlot::Filling { ticket }),
    ensures
        v.abort(key, ticket).1,
        v.abort(key, ticket).0.wf(),
        v.abort(key, ticket).0.lookup(key, next_ticket).1 == Lookup::Fetch,
{
    lemma_key_position(v.entries, key);
    let pos = key_position(v.entries, key);
    lemma_distinct_changes(v.entries, key, CacheSlot::Vacant);
    lemma_total_changes(v.entries, pos, (key, CacheSlot::Vacant));
    let after = v.abort(key, ticket).0;
    lemma_key_position(after.entries, key);
    assert(after.entries[pos].0 == key);
}

/// A hit evicts nothing, frees no space, and leaves every key with the slot
/// it had; only the order of use changes.
pub proof fn law_hit_keeps_contents(
    v: ResourceCacheView,
    key: (u8, [u8; 32]),
    ticket: u128,
    other: (u8, [u8; 32]),
)
    requires
        v.wf(),
        slot_of(v.entries, key) matches Some(s) && s is Filled,
    ensures
        v.lookup(key, ticket).1 == (Lookup::Hit { entry: slot_of(v.entries, key)->Some_0->entry }),
        v.lookup(key, ticket).2 is None,
        v.lookup(key, ticket).0.available == v.available,
        slot_of(v.lookup(key, ticket).0.entries, other) == slot_of(v.entries, other),
{
    lemma_key_position(v.entries, key);
    lemma_key_position(v.entries, other);
    let pos = key_position(v.entries, key);
    lemma_distinct_changes(v.entries, key, v.entries[pos].1);
    let after = promote(v.entries, pos);
    lemma_key_position(after, other);
    let opos = key_position(v.entries, other);
    if opos >= 0 {
        if other == key {
            assert(after[after.len() - 1].0 == other);
        } else if opos < pos {
            assert(after[opos] == v.entries[opos]);
        } else {
            assert(after[opos - 1] == v.entries[opos]);
        }
    } else {
        assert forall|i: int| 0 <= i < after.len() implies #[trigger] after[i].0 != other by {
            if i < after.len() - 1 {
                if i < pos {
                    assert(after[i] == v.entries[i]);
                } else {
                    assert(after[i] == v.entries[i + 1]);
                }
            }
        }
    }
}

/// Read after write for records: a record read by the request that holds
/// the key's slot is cached, and the next request is served it.
pub proof fn law_cached_value_is_served(
    v: ValueCacheView,
    key: (u8, [u8; 32]),
    ticket: u128,
    hash: [u8; 32],
    next_ticket: u128,
)
    requires
        v.wf(),
        slot_of(v.entries, key) == Some(CacheSlot::Filling { ticket }),
    ensures
        v.complete_value(key, ticket, hash).1,
        v.complete_value(key, ticket, hash).0.lookup(key, next_ticket).1 == (Lookup::Hit {
            entry: CacheEntry::Value { hash },
        }),
{
    lemma_key_position(v.entries, key);
    let pos = key_position(v.entries, key);
    let slot = CacheSlot::Filled { entry: CacheEntry::Value { hash } };
    lemma_distinct_changes(v.entries, key, slot);
    let after = v.complete_value(key, ticket, hash).0;
    lemma_key_position(after.entries, key);
    assert(after.entries[pos].0 == key);
}

} // verus!

verus! {

/// Making room keeps the slot of a key at position `pos` exactly when `size`
/// fits in the free space plus what letting go of the entries used less
/// recently than it frees; a kept key keeps its slot.
pub proof fn lemma_make_room_keeps_key(
    entries: Seq<((u8, [u8; 32]), CacheSlot)>,
    holders: Seq<(u128, u128)>,
    available: nat,
    size: nat,
    pos: int,
)
    requires
        distinct_keys(entries),
        0 <= pos < entries.len(),
    ensures
        ({
            let r = make_room_spec(entries, holders, available, size);
            &&& slot_of(r.0, entries[pos].0) is Some <==> size <= available + freed_total(
                holders,
                entries.take(pos),
            )
            &&& slot_of(r.0, entries[pos].0) is Some ==> slot_of(r.0, entries[pos].0) == Some(
                entries[pos].1,
            )
        }),
    decreases entries.len(),
{
    let key = entries[pos].0;
    let r = make_room_spec(entries, holders, available, size);
    lemma_make_room(entries, holders, available, size);
    lemma_distinct_subrange(entries, r.3.len() as int, entries.len() as int);
    assert(r.0 =~= entries.subrange(r.3.len() as int, entries.len() as int));
    lemma_key_position(r.0, key);
    lemma_key_position(entries, key);
    if size <= available {
        assert(r.0 == entries);
    } else {
        let rest = entries.drop_first();
        let freed = available + freed_space(holders, entries[0].1);
        assert(entries.take(1) =~= seq![entries[0]]);
        lemma_detached_of_single(holders, entries[0]);
        if pos == 0 {
            assert(entries.take(0) =~= Seq::<((u8, [u8; 32]), CacheSlot)>::empty());
            assert forall|i: int| 0 <= i < r.0.len() implies #[trigger] r.0[i].0 != key by {
                assert(r.0[i] == entries[r.3.len() + i]);
            }
        } else {
            lemma_distinct_changes(entries, key, entries[0].1);
            lemma_make_room_keeps_key(rest, holders, freed, size, pos - 1);
            assert(entries.take(pos) =~= entries.take(1) + rest.take(pos - 1));
            lemma_detached_of_concat(holders, entries.take(1), rest.take(pos - 1));
            assert(rest[pos - 1] == entries[pos]);
        }
    }
}

/// Nobody holding a file, letting go of entries frees all they hold.
pub proof fn lemma_freed_all(entries: Seq<((u8, [u8; 32]), CacheSlot)>)
    ensures
        freed_total(Seq::empty(), entries) == reserved_total(entries),
    decreases entries.len(),
{
    if entries.len() > 0 {
        lemma_freed_all(entries.drop_last());
    }
}

/// A fetched file is cached exactly when its size fits in the free disk
/// space plus what letting go of the entries used less recently than its
/// key frees (a file that a request still holds frees nothing until that
/// request is done with it). In particular, right after its lookup (its key
/// the most recently used) and with no file held, it is cached whenever it
/// fits in the whole disk space.
pub proof fn law_file_cached_iff_it_fits(
    v: ResourceCacheView,
    key: (u8, [u8; 32]),
    ticket: u128,
    size: u64,
)
    requires
        v.wf(),
        slot_of(v.entries, key) == Some(CacheSlot::Filling { ticket }),
    ensures
        v.complete_file(key, ticket, size).2 <==> size <= v.available + freed_total(
            v.holders,
            v.entries.take(key_position(v.entries, key)),
        ),
        key_position(v.entries, key) == v.entries.len() - 1 && v.holders.len() == 0 ==> (
        v.complete_file(key, ticket, size).2 <==> size + detached_total(v.detached)
            <= v.disk_capacity),
{
    lemma_key_position(v.entries, key);
    let pos = key_position(v.entries, key);
    lemma_make_room_keeps_key(v.entries, v.holders, v.available, size as nat, pos);
    let room = make_room_spec(v.entries, v.holders, v.available, size as nat);
    lemma_make_room(v.entries, v.holders, v.available, size as nat);
    lemma_distinct_subrange(v.entries, room.3.len() as int, v.entries.len() as int);
    assert(room.0 =~= v.entries.subrange(room.3.len() as int, v.entries.len() as int));
    lemma_key_position(room.0, key);
    if pos == v.entries.len() - 1 && v.holders.len() == 0 {
        lemma_total_split(v.entries, pos);
        assert(v.entries.skip(pos + 1) =~= Seq::<((u8, [u8; 32]), CacheSlot)>::empty());
        assert(v.holders =~= Seq::<(u128, u128)>::empty());
        lemma_freed_all(v.entries.take(pos));
    }
}

} // verus!

verus! {

/// For records too, a second request waits while the first fetches.
pub proof fn law_value_second_request_waits(
    v: ValueCacheView,
    key: (u8, [u8; 32]),
    first: u128,
    second: u128,
)
    requires
        v.wf(),
        slot_of(v.entries, key) is None || slot_of(v.entries, key) == Some(CacheSlot::Vacant),
    ensures
        v.lookup(key, first).1 == Lookup::Fetch,
        v.lookup(key, first).0.lookup(key, second).1 == Lookup::Wait,
{
    lemma_lookup_places_key(v.entries, v.slots, key, first);
}

/// For records too, a missing or failed record is fetched again by the next
/// request.
pub proof fn law_value_failed_fetch_is_retried(
    v: ValueCacheView,
    key: (u8, [u8; 32]),
    ticket: u128,
    next_ticket: u128,
)
    requires
        v.wf(),
        slot_of(v.entries, key) == Some(CacheSlot::Filling { ticket }),
    ensures
        v.abort(key, ticket).1,
        v.abort(key, ticket).0.wf(),
        v.abort(key, ticket).0.lookup(key, next_ticket).1 == Lookup::Fetch,
{
    lemma_key_position(v.entries, key);
    let pos = key_position(v.entries, key);
    lemma_distinct_changes(v.entries, key, CacheSlot::Vacant);
    let after = v.abort(key, ticket).0;
    lemma_key_position(after.entries, key);
    assert(after.entries[pos].0 == key);
}

/// Requests for one record, with these tickets, one after another: the
/// cache after, and what each found.
pub open spec fn value_lookup_all(v: ValueCacheView, key: (u8, [u8; 32]), tickets: Seq<u128>) -> (
    ValueCacheView,
    Seq<Lookup>,
)
    decreases tickets.len(),
{
    if tickets.len() == 0 {
        (v, Seq::empty())
    } else {
        let (v1, found, _) = v.lookup(key, tickets[0]);
        let (v2, rest) = value_lookup_all(v1, key, tickets.drop_first());
        (v2, seq![found] + rest)
    }
}

/// Requests for a record that the request with `filler` is fetching, and
/// that is the most recently used, all wait on that fetch.
pub proof fn lemma_value_lookup_all_waits(
    v: ValueCacheView,
    key: (u8, [u8; 32]),
    filler: u128,
    tickets: Seq<u128>,
)
    requires
        v.entries.len() > 0,
        v.entries.last() == (key, CacheSlot::Filling { ticket: filler }),
    ensures
        value_lookup_all(v, key, tickets).0 == (ValueCacheView {
            waiting: v.waiting + waits_for(filler, tickets),
            ..v
        }),
        value_lookup_all(v, key, tickets).1.len() == tickets.len(),
        forall|i: int|
            0 <= i < tickets.len() ==> #[trigger] value_lookup_all(v, key, tickets).1[i]
                == Lookup::Wait,
    decreases tickets.len(),
{
    if tickets.len() == 0 {
        assert(v.waiting + waits_for(filler, tickets) =~= v.waiting);
    } else {
        lemma_lookup_most_recent(v.entries, v.slots, key, tickets[0]);
        let (v1, found, _) = v.lookup(key, tickets[0]);
        assert(key_position(v.entries, key) == v.entries.len() - 1);
        assert(v1 == ValueCacheView { waiting: v.waiting.push((filler, tickets[0])), ..v });
        lemma_value_lookup_all_waits(v1, key, filler, tickets.drop_first());
        assert(v.waiting.push((filler, tickets[0])) + waits_for(filler, tickets.drop_first())
            =~= v.waiting + waits_for(filler, tickets));
        let rest = value_lookup_all(v1, key, tickets.drop_first()).1;
        assert forall|i: int| 0 <= i < tickets.len() implies #[trigger] (seq![found] + rest)[i]
            == Lookup::Wait by {
            if i > 0 {
                assert((seq![found] + rest)[i] == rest[i - 1]);
            }
        }
    }
}

/// Concurrent requests for a record that is not cached fetch it once: the
/// first fetches, every other one waits on that fetch and is handed the
/// record it read, whether or not the record is kept, and none is left
/// waiting on it.
pub proof fn law_value_waiters_share_the_fetch(
    v: ValueCacheView,
    key: (u8, [u8; 32]),
    first: u128,
    waiters: Seq<u128>,
    hash: [u8; 32],
)
    requires
        v.wf(),
        slot_of(v.entries, key) is None || slot_of(v.entries, key) == Some(CacheSlot::Vacant),
        forall|i: int| 0 <= i < v.waiting.len() ==> (#[trigger] v.waiting[i]).0 != first,
    ensures
        ({
            let (fetching, found, _) = v.lookup(key, first);
            let (waited, waits) = value_lookup_all(fetching, key, waiters);
            let (filled, stored) = waited.complete_value(key, first, hash);
            &&& found == Lookup::Fetch
            &&& waits.len() == waiters.len()
            &&& forall|i: int| 0 <= i < waiters.len() ==> #[trigger] waits[i] == Lookup::Wait
            &&& waiting_on(waited.waiting, first) == waits_for(first, waiters)
            &&& filled.waiting == v.waiting
            &&& stored
        }),
{
    lemma_lookup_places_key(v.entries, v.slots, key, first);
    let (fetching, found, _) = v.lookup(key, first);
    assert(fetching.waiting == v.waiting);
    lemma_value_lookup_all_waits(fetching, key, first, waiters);
    let (waited, waits) = value_lookup_all(fetching, key, waiters);
    let mine = waits_for(first, waiters);
    lemma_waiting_on_concat(v.waiting, mine, first);
    lemma_waiting_on_all_or_none(v.waiting, first);
    lemma_waiting_on_all_or_none(mine, first);
    lemma_waiting_on_others(v.waiting, mine, first);
    assert(waiting_on(waited.waiting, first) =~= mine);
    assert(waiting_on_others(waited.waiting, first) =~= v.waiting);
    assert(key_position(waited.entries, key) == waited.entries.len() - 1);
}

} // verus!

verus! {

/// Every lookup keeps a cache of files well formed.
pub proof fn lemma_lookup_wf(v: ResourceCacheView, key: (u8, [u8; 32]), ticket: u128)
    requires
        v.wf(),
    ensures
        v.lookup(key, ticket).0.wf(),
{
    lemma_lookup_places_key(v.entries, v.slots, key, ticket);
    lemma_fully_reserved_lookup(v.entries, v.slots, key, ticket);
    lemma_key_position(v.entries, key);
    let pos = key_position(v.entries, key);
    if pos >= 0 {
        let promoted = promote(v.entries, pos);
        lemma_total_changes(v.entries, pos, v.entries[pos]);
        if v.entries[pos].1 is Vacant {
            lemma_total_changes(promoted, promoted.len() - 1, (key, CacheSlot::Filling { ticket }));
        }
        assert(v.detached + Seq::<Detached>::empty() =~= v.detached);
    } else if v.entries.len() >= v.slots {
        lemma_total_changes(v.entries, 0, v.entries[0]);
        lemma_total_push(v.entries.drop_first(), (key, CacheSlot::Filling { ticket }));
        lemma_detach_splits(v.holders, v.entries[0].1);
        lemma_detached_total_concat(v.detached, detach(v.holders, v.entries[0].1));
    } else {
        lemma_total_push(v.entries, (key, CacheSlot::Filling { ticket }));
        assert(v.detached + Seq::<Detached>::empty() =~= v.detached);
    }
}

/// A key that is the most recently used and is being fetched or is cached
/// is found as such, and the lookup changes nothing.
pub proof fn lemma_lookup_most_recent(
    entries: Seq<((u8, [u8; 32]), CacheSlot)>,
    slots: nat,
    key: (u8, [u8; 32]),
    ticket: u128,
)
    requires
        entries.len() > 0,
        entries.last().0 == key,
        entries.last().1 is Filling || entries.last().1 is Filled,
    ensures
        lookup_spec(entries, slots, key, ticket).0 == entries,
        lookup_spec(entries, slots, key, ticket).2 is None,
        entries.last().1 is Filling ==> lookup_spec(entries, slots, key, ticket).1 == Lookup::Wait,
        entries.last().1 matches CacheSlot::Filled { entry } ==> lookup_spec(
            entries,
            slots,
            key,
            ticket,
        ).1 == (Lookup::Hit { entry }),
{
    let pos = entries.len() - 1;
    assert(key_position(entries, key) == pos);
    assert(promote(entries, pos) =~= entries);
}

/// Requests for one key, with these tickets, one after another: the cache
/// after, and what each found.
pub open spec fn lookup_all(v: ResourceCacheView, key: (u8, [u8; 32]), tickets: Seq<u128>) -> (
    ResourceCacheView,
    Seq<Lookup>,
)
    decreases tickets.len(),
{
    if tickets.len() == 0 {
        (v, Seq::empty())
    } else {
        let (v1, found, _) = v.lookup(key, tickets[0]);
        let (v2, rest) = lookup_all(v1, key, tickets.drop_first());
        (v2, seq![found] + rest)
    }
}

/// Requests for a key that is the most recently used and is being fetched
/// or cached all find it so, and change no entry, no free space and no
/// detached file; while it is being fetched they only join the requests
/// waiting on that fetch.
pub proof fn lemma_lookup_all_most_recent(
    v: ResourceCacheView,
    key: (u8, [u8; 32]),
    tickets: Seq<u128>,
)
    requires
        v.entries.len() > 0,
        v.entries.last().0 == key,
        v.entries.last().1 is Filling || v.entries.last().1 is Filled,
    ensures
        lookup_all(v, key, tickets).0.entries == v.entries,
        lookup_all(v, key, tickets).0.available == v.available,
        lookup_all(v, key, tickets).0.detached == v.detached,
        lookup_all(v, key, tickets).0.slots == v.slots,
        lookup_all(v, key, tickets).0.disk_capacity == v.disk_capacity,
        v.entries.last().1 matches CacheSlot::Filling { ticket } ==> lookup_all(v, key, tickets).0
            == (ResourceCacheView { waiting: v.waiting + waits_for(ticket, tickets), ..v }),
        lookup_all(v, key, tickets).1.len() == tickets.len(),
        v.entries.last().1 is Filling ==> forall|i: int|
            0 <= i < tickets.len() ==> #[trigger] lookup_all(v, key, tickets).1[i] == Lookup::Wait,
        v.entries.last().1 matches CacheSlot::Filled { entry } ==> forall|i: int|
            0 <= i < tickets.len() ==> #[trigger] lookup_all(v, key, tickets).1[i] == (Lookup::Hit {
                entry,
            }),
    decreases tickets.len(),
{
    if tickets.len() == 0 {
        if v.entries.last().1 is Filling {
            let f = v.entries.last().1->Filling_ticket;
            assert(v.waiting + waits_for(f, tickets) =~= v.waiting);
        }
    } else {
        lemma_lookup_most_recent(v.entries, v.slots, key, tickets[0]);
        let (v1, found, _) = v.lookup(key, tickets[0]);
        assert(v.detached + Seq::<Detached>::empty() =~= v.detached);
        assert(v1.entries == v.entries);
        lemma_lookup_all_most_recent(v1, key, tickets.drop_first());
        if v.entries.last().1 is Filling {
            let f = v.entries.last().1->Filling_ticket;
            assert(key_position(v.entries, key) == v.entries.len() - 1);
            assert(filler_of(v.entries, key) == f);
            assert(v1 == ResourceCacheView { waiting: v.waiting.push((f, tickets[0])), ..v });
            assert(v.waiting.push((f, tickets[0])) + waits_for(f, tickets.drop_first()) =~= v.waiting
                + waits_for(f, tickets));
        }
        let rest = lookup_all(v1, key, tickets.drop_first()).1;
        assert forall|i: int| 0 <= i < tickets.len() implies #[trigger] (seq![found] + rest)[i]
            == (if i == 0 {
            found
        } else {
            rest[i - 1]
        }) by {}
    }
}

/// Concurrent requests for a key that is not cached fetch it once: the first
/// fetches, every other one waits on that fetch and is handed its file
/// whether or not the file is kept, and once the file is kept (which it is
/// whenever it fits in the disk space that no file in use holds, and no
/// file is held) every later request is served that file.
pub proof fn law_concurrent_requests_fetch_once(
    v: ResourceCacheView,
    key: (u8, [u8; 32]),
    first: u128,
    waiters: Seq<u128>,
    size: u64,
    later: Seq<u128>,
)
    requires
        v.wf(),
        slot_of(v.entries, key) is None || slot_of(v.entries, key) == Some(CacheSlot::Vacant),
        forall|i: int| 0 <= i < v.waiting.len() ==> (#[trigger] v.waiting[i]).0 != first,
    ensures
        ({
            let (fetching, found, _) = v.lookup(key, first);
            let (waited, waits) = lookup_all(fetching, key, waiters);
            let (filled, entry, stored, _) = waited.complete_file(key, first, size);
            &&& found == Lookup::Fetch
            &&& waits.len() == waiters.len()
            &&& forall|i: int| 0 <= i < waiters.len() ==> #[trigger] waits[i] == Lookup::Wait
            &&& waiting_on(waited.waiting, first) == waits_for(first, waiters)
            &&& filled.holders == waited.holders.push((first, first)) + waits_for(first, waiters)
            &&& filled.waiting == v.waiting
            &&& v.holders.len() == 0 && size + detached_total(v.detached) <= v.disk_capacity
                ==> stored
            &&& stored ==> forall|i: int|
                0 <= i < later.len() ==> #[trigger] lookup_all(filled, key, later).1[i]
                    == (Lookup::Hit { entry })
        }),
{
    lemma_lookup_places_key(v.entries, v.slots, key, first);
    lemma_lookup_wf(v, key, first);
    let (fetching, found, _) = v.lookup(key, first);
    assert(fetching.waiting == v.waiting);
    lemma_lookup_all_most_recent(fetching, key, waiters);
    let (waited, waits) = lookup_all(fetching, key, waiters);
    let mine = waits_for(first, waiters);
    assert(waited == ResourceCacheView { waiting: v.waiting + mine, ..fetching });
    lemma_waiting_on_concat(v.waiting, mine, first);
    lemma_waiting_on_all_or_none(v.waiting, first);
    lemma_waiting_on_all_or_none(mine, first);
    assert(v.waiting + mine =~= v.waiting + mine);
    lemma_waiting_on_others(v.waiting, mine, first);
    assert(waiting_on(waited.waiting, first) =~= mine);
    assert(slot_of(waited.entries, key) == Some(CacheSlot::Filling { ticket: first }));
    law_file_cached_iff_it_fits(waited, key, first, size);
    if v.holders.len() == 0 {
        let r = lookup_spec(v.entries, v.slots, key, first);
        if r.2 is Some {
            assert(detach(v.holders, r.2->Some_0.1) =~= Seq::<Detached>::empty());
        }
        assert(waited.detached =~= v.detached);
    }
    let (filled, entry, stored, _) = waited.complete_file(key, first, size);
    if stored {
        let room = make_room_spec(waited.entries, waited.holders, waited.available, size as nat);
        lemma_make_room(waited.entries, waited.holders, waited.available, size as nat);
        lemma_distinct_subrange(waited.entries, room.3.len() as int, waited.entries.len() as int);
        assert(room.0 =~= waited.entries.subrange(
            room.3.len() as int,
            waited.entries.len() as int,
        ));
        lemma_key_position(room.0, key);
        let pos = key_position(room.0, key);
        assert(room.0.len() > 0);
        assert(room.0.last() == waited.entries.last());
        assert(pos == room.0.len() - 1);
        assert(filled.entries.last() == (key, CacheSlot::Filled { entry }));
        lemma_lookup_all_most_recent(filled, key, later);
    }
}

} // verus!

verus! {

/// A request with `ticket` for `key` looks it up, and may then settle its
/// slot to `settled` (a fetched entry, or vacant after a failed fetch).
pub open spec fn request_step(
    entries: Seq<((u8, [u8; 32]), CacheSlot)>,
    slots: nat,
    key: (u8, [u8; 32]),
    ticket: u128,
    settled: CacheSlot,
) -> Seq<((u8, [u8; 32]), CacheSlot)> {
    settle_spec(lookup_spec(entries, slots, key, ticket).0, key, ticket, settled).0
}

/// The entries after requests for `keys`, one after another, with these
/// tickets and settlements.
pub open spec fn requests(
    entries: Seq<((u8, [u8; 32]), CacheSlot)>,
    slots: nat,
    keys: Seq<(u8, [u8; 32])>,
    tickets: Seq<u128>,
    settled: Seq<CacheSlot>,
) -> Seq<((u8, [u8; 32]), CacheSlot)>
    decreases keys.len(),
{
    if keys.len() == 0 || tickets.len() == 0 || settled.len() == 0 {
        entries
    } else {
        requests(
            request_step(entries, slots, keys[0], tickets[0], settled[0]),
            slots,
            keys.drop_first(),
            tickets.drop_first(),
            settled.drop_first(),
        )
    }
}

/// Settling the most recently used key changes only the last entry's slot.
pub proof fn lemma_settle_last(
    entries: Seq<((u8, [u8; 32]), CacheSlot)>,
    key: (u8, [u8; 32]),
    ticket: u128,
    settled: CacheSlot,
)
    requires
        entries.len() > 0,
        entries.last().0 == key,
        distinct_keys(entries),
    ensures
        ({
            let s = settle_spec(entries, key, ticket, settled).0;
            &&& s.len() == entries.len()
            &&& s.last().0 == key
            &&& forall|i: int| 0 <= i < entries.len() - 1 ==> #[trigger] s[i] == entries[i]
            &&& distinct_keys(s)
        }),
{
    assert(key_position(entries, key) == entries.len() - 1);
    lemma_distinct_changes(entries, key, settled);
}

/// A request for another key keeps a lookup's entries well formed, puts
/// that key last, and leaves every other entry's key where it was relative
/// to the others.
proof fn lemma_request_step_wf(
    entries: Seq<((u8, [u8; 32]), CacheSlot)>,
    slots: nat,
    key: (u8, [u8; 32]),
    ticket: u128,
    settled: CacheSlot,
)
    requires
        lru_wf(entries, slots),
    ensures
        ({
            let looked = lookup_spec(entries, slots, key, ticket).0;
            let s = request_step(entries, slots, key, ticket, settled);
            &&& lru_wf(s, slots)
            &&& s.len() == looked.len()
            &&& s.last().0 == key
            &&& forall|i: int| 0 <= i < looked.len() - 1 ==> #[trigger] s[i] == looked[i]
        }),
{
    lemma_lookup_places_key(entries, slots, key, ticket);
    let looked = lookup_spec(entries, slots, key, ticket).0;
    lemma_settle_last(looked, key, ticket, settled);
}

/// Once a key is gone, requests for other keys do not bring it back.
pub proof fn lemma_stays_absent(
    entries: Seq<((u8, [u8; 32]), CacheSlot)>,
    slots: nat,
    k: (u8, [u8; 32]),
    keys: Seq<(u8, [u8; 32])>,
    tickets: Seq<u128>,
    settled: Seq<CacheSlot>,
)
    requires
        lru_wf(entries, slots),
        forall|i: int| 0 <= i < entries.len() ==> #[trigger] entries[i].0 != k,
        forall|i: int| 0 <= i < keys.len() ==> #[trigger] keys[i] != k,
    ensures
        slot_of(requests(entries, slots, keys, tickets, settled), k) is None,
    decreases keys.len(),
{
    if keys.len() == 0 || tickets.len() == 0 || settled.len() == 0 {
        lemma_key_position(entries, k);
    } else {
        let q = keys[0];
        lemma_key_position(entries, q);
        lemma_request_step_wf(entries, slots, q, tickets[0], settled[0]);
        let looked = lookup_spec(entries, slots, q, tickets[0]).0;
        let s = request_step(entries, slots, q, tickets[0], settled[0]);
        let pos = key_position(entries, q);
        assert forall|i: int| 0 <= i < s.len() implies #[trigger] s[i].0 != k by {
            if i < s.len() - 1 {
                assert(s[i] == looked[i]);
                if pos >= 0 {
                    if i < pos {
                        assert(looked[i] == entries[i]);
                    } else {
                        assert(looked[i] == entries[i + 1]);
                    }
                } else if entries.len() >= slots {
                    assert(looked[i] == entries[i + 1]);
                } else {
                    assert(looked[i] == entries[i]);
                }
            }
        }
        assert forall|i: int| 0 <= i < keys.drop_first().len() implies #[trigger] keys.drop_first()[i]
            != k by {
            assert(keys.drop_first()[i] == keys[i + 1]);
        }
        lemma_stays_absent(
            s,
            slots,
            k,
            keys.drop_first(),
            tickets.drop_first(),
            settled.drop_first(),
        );
    }
}

/// The keys of the entries used more recently than the one at `pos`.
pub open spec fn keys_after(entries: Seq<((u8, [u8; 32]), CacheSlot)>, pos: int) -> Set<
    (u8, [u8; 32]),
> {
    Set::new(|x: (u8, [u8; 32])| exists|j: int| pos < j < entries.len() && entries[j].0 == x)
}

/// With distinct keys, there are as many keys after `pos` as entries.
pub proof fn lemma_keys_after_len(entries: Seq<((u8, [u8; 32]), CacheSlot)>, pos: int)
    requires
        distinct_keys(entries),
        -1 <= pos < entries.len(),
    ensures
        keys_after(entries, pos).finite(),
        keys_after(entries, pos).len() == entries.len() - 1 - pos,
    decreases entries.len() - pos,
{
    broadcast use vstd::set::group_set_axioms;

    if pos == entries.len() - 1 {
        assert(keys_after(entries, pos) =~= Set::<(u8, [u8; 32])>::empty());
    } else {
        lemma_keys_after_len(entries, pos + 1);
        let next = entries[pos + 1].0;
        assert(!keys_after(entries, pos + 1).contains(next)) by {
            if keys_after(entries, pos + 1).contains(next) {
                let j = choose|j: int| pos + 1 < j < entries.len() && entries[j].0 == next;
                assert(entries[j].0 == entries[pos + 1].0);
            }
        }
        assert(keys_after(entries, pos) =~= keys_after(entries, pos + 1).insert(next)) by {
            assert forall|x: (u8, [u8; 32])| keys_after(entries, pos).contains(x) implies keys_after(
                entries,
                pos + 1,
            ).insert(next).contains(x) by {
                let j = choose|j: int| pos < j < entries.len() && entries[j].0 == x;
                if j > pos + 1 {
                    assert(keys_after(entries, pos + 1).contains(x));
                }
            }
            assert forall|x: (u8, [u8; 32])| keys_after(entries, pos + 1).insert(next).contains(
                x,
            ) implies keys_after(entries, pos).contains(x) by {
                if x == next {
                    assert(pos < pos + 1 < entries.len() && entries[pos + 1].0 == x);
                } else {
                    let j = choose|j: int| pos + 1 < j < entries.len() && entries[j].0 == x;
                    assert(pos < j < entries.len() && entries[j].0 == x);
                }
            }
        }
    }
}

/// A key keeps its slot while fewer than `slots` distinct keys in all, counting
/// those used more recently than it and the other keys requested next (each
/// once, however often it is requested), are used after it, and is evicted
/// as soon as that many are.
pub proof fn lemma_survival(
    entries: Seq<((u8, [u8; 32]), CacheSlot)>,
    slots: nat,
    k: (u8, [u8; 32]),
    keys: Seq<(u8, [u8; 32])>,
    tickets: Seq<u128>,
    settled: Seq<CacheSlot>,
)
    requires
        lru_wf(entries, slots),
        key_position(entries, k) >= 0,
        keys.len() == tickets.len(),
        keys.len() == settled.len(),
        forall|i: int| 0 <= i < keys.len() ==> #[trigger] keys[i] != k,
    ensures
        ({
            let used = keys_after(entries, key_position(entries, k)) + keys.to_set();
            let fin = requests(entries, slots, keys, tickets, settled);
            &&& used.finite()
            &&& used.len() < slots ==> slot_of(fin, k) == slot_of(entries, k)
            &&& used.len() >= slots ==> slot_of(fin, k) is None
        }),
    decreases keys.len(),
{
    broadcast use vstd::set::group_set_axioms;
    broadcast use vstd::seq_lib::seq_to_set_is_finite;

    lemma_key_position(entries, k);
    let pos = key_position(entries, k);
    lemma_keys_after_len(entries, pos);
    let after = keys_after(entries, pos);
    if keys.len() == 0 {
        assert(keys.to_set() =~= Set::<(u8, [u8; 32])>::empty());
        assert(after + keys.to_set() =~= after);
        return;
    }
    let q = keys[0];
    let t = tickets[0];
    let rest_keys = keys.drop_first();
    assert(keys.to_set() =~= rest_keys.to_set().insert(q)) by {
        assert forall|x: (u8, [u8; 32])| keys.to_set().contains(x) implies rest_keys.to_set().insert(
            q,
        ).contains(x) by {
            let i = choose|i: int| 0 <= i < keys.len() && keys[i] == x;
            if i > 0 {
                assert(rest_keys[i - 1] == x);
            }
        }
        assert forall|x: (u8, [u8; 32])| rest_keys.to_set().insert(q).contains(x) implies keys.to_set().contains(
            x,
        ) by {
            if x == q {
                assert(keys[0] == x);
            } else {
                let i = choose|i: int| 0 <= i < rest_keys.len() && rest_keys[i] == x;
                assert(keys[i + 1] == x);
            }
        }
    }
    let used = after + keys.to_set();
    assert(used =~= after.insert(q) + rest_keys.to_set());
    lemma_key_position(entries, q);
    let qp = key_position(entries, q);
    lemma_request_step_wf(entries, slots, q, t, settled[0]);
    let looked = lookup_spec(entries, slots, q, t).0;
    let s = request_step(entries, slots, q, t, settled[0]);
    assert forall|i: int| 0 <= i < rest_keys.len() implies #[trigger] rest_keys[i] != k by {
        assert(rest_keys[i] == keys[i + 1]);
    }
    if qp < 0 && entries.len() >= slots && pos == 0 {
        // `k` is the least recently used and the cache is full: it goes.
        assert(!after.contains(q));
        assert(after.insert(q).subset_of(used));
        vstd::set_lib::lemma_len_subset(after.insert(q), used);
        assert forall|i: int| 0 <= i < s.len() implies #[trigger] s[i].0 != k by {
            if i < s.len() - 1 {
                assert(s[i] == looked[i]);
                assert(looked[i] == entries[i + 1]);
            }
        }
        lemma_stays_absent(s, slots, k, rest_keys, tickets.drop_first(), settled.drop_first());
        return;
    }
    // Otherwise `k` stays, one place nearer the front or where it was, and
    // `q` joins the keys used after it.
    let npos: int = if qp >= 0 {
        if qp < pos {
            pos - 1
        } else {
            pos
        }
    } else if entries.len() >= slots {
        pos - 1
    } else {
        pos
    };
    assert(qp != pos);
    assert(0 <= npos < s.len() - 1);
    assert(s[npos] == entries[pos]) by {
        assert(s[npos] == looked[npos]);
    }
    lemma_key_position(s, k);
    assert(key_position(s, k) == npos);
    assert(keys_after(s, npos) =~= after.insert(q)) by {
        assert forall|x: (u8, [u8; 32])| keys_after(s, npos).contains(x) implies after.insert(
            q,
        ).contains(x) by {
            let j = choose|j: int| npos < j < s.len() && s[j].0 == x;
            if j < s.len() - 1 {
                assert(s[j] == looked[j]);
                let oj: int = if qp >= 0 {
                    if j < qp {
                        j
                    } else {
                        j + 1
                    }
                } else if entries.len() >= slots {
                    j + 1
                } else {
                    j
                };
                assert(looked[j] == entries[oj]);
                assert(pos < oj < entries.len() && entries[oj].0 == x);
            }
        }
        assert forall|x: (u8, [u8; 32])| after.insert(q).contains(x) implies keys_after(
            s,
            npos,
        ).contains(x) by {
            if x == q {
                assert(npos < s.len() - 1 && s[s.len() - 1].0 == x);
            } else {
                let j = choose|j: int| pos < j < entries.len() && entries[j].0 == x;
                assert(j != qp);
                let ij: int = if qp >= 0 {
                    if j < qp {
                        j
                    } else {
                        j - 1
                    }
                } else if entries.len() >= slots {
                    j - 1
                } else {
                    j
                };
                assert(looked[ij] == entries[j]);
                assert(s[ij] == looked[ij]);
                assert(npos < ij < s.len() && s[ij].0 == x);
            }
        }
    }
    lemma_survival(s, slots, k, rest_keys, tickets.drop_first(), settled.drop_first());
}

/// A record stays cached until as many other distinct records as the cache
/// holds have been asked for since, each counted once however often it was
/// asked for: with fewer, the next request for it is served from the cache;
/// with that many, it has been evicted and is fetched again. (It counts from
/// its own last request, which left it the most recently used.)
pub proof fn law_record_survives_fewer_than_capacity(
    v: ValueCacheView,
    k: (u8, [u8; 32]),
    entry: CacheEntry,
    keys: Seq<(u8, [u8; 32])>,
    tickets: Seq<u128>,
    settled: Seq<CacheSlot>,
    ticket: u128,
)
    requires
        v.wf(),
        v.entries.len() > 0,
        v.entries.last() == (k, CacheSlot::Filled { entry }),
        keys.len() == tickets.len(),
        keys.len() == settled.len(),
        forall|i: int| 0 <= i < keys.len() ==> #[trigger] keys[i] != k,
    ensures
        ({
            let fin = ValueCacheView {
                entries: requests(v.entries, v.slots, keys, tickets, settled),
                ..v
            };
            &&& keys.to_set().len() < v.slots ==> fin.lookup(k, ticket).1 == (Lookup::Hit { entry })
            &&& keys.to_set().len() >= v.slots ==> fin.lookup(k, ticket).1 == Lookup::Fetch
        }),
{
    let pos = v.entries.len() - 1;
    assert(key_position(v.entries, k) == pos);
    assert(keys_after(v.entries, pos) =~= Set::<(u8, [u8; 32])>::empty());
    assert(keys_after(v.entries, pos) + keys.to_set() =~= keys.to_set());
    lemma_survival(v.entries, v.slots, k, keys, tickets, settled);
}

} // verus!

verus! {

/// A lookup keeps every kept file fully reserved: its entries are old ones
/// or the looked-up key being fetched.
pub proof fn lemma_fully_reserved_lookup(
    entries: Seq<((u8, [u8; 32]), CacheSlot)>,
    slots: nat,
    key: (u8, [u8; 32]),
    ticket: u128,
)
    requires
        lru_wf(entries, slots),
        files_fully_reserved(entries),
    ensures
        files_fully_reserved(lookup_spec(entries, slots, key, ticket).0),
{
    lemma_key_position(entries, key);
    let pos = key_position(entries, key);
    let looked = lookup_spec(entries, slots, key, ticket).0;
    assert forall|i: int| 0 <= i < looked.len() implies slot_fully_reserved(#[trigger] looked[i].1) by {
        if pos >= 0 {
            let promoted = promote(entries, pos);
            if i == looked.len() - 1 {
                assert(promoted[i] == entries[pos]);
            } else if i < pos {
                assert(promoted[i] == entries[i]);
            } else {
                assert(promoted[i] == entries[i + 1]);
            }
        } else if entries.len() >= slots {
            if i < looked.len() - 1 {
                assert(looked[i] == entries[i + 1]);
            }
        } else {
            if i < looked.len() - 1 {
                assert(looked[i] == entries[i]);
            }
        }
    }
}

/// Dropping least recently used entries keeps the rest fully reserved.
pub proof fn lemma_fully_reserved_skip(entries: Seq<((u8, [u8; 32]), CacheSlot)>, n: int)
    requires
        files_fully_reserved(entries),
        0 <= n <= entries.len(),
    ensures
        files_fully_reserved(entries.skip(n)),
{
    assert forall|i: int| 0 <= i < entries.skip(n).len() implies slot_fully_reserved(
        #[trigger] entries.skip(n)[i].1,
    ) by {
        assert(entries.skip(n)[i] == entries[n + i]);
    }
}

/// Replacing one slot by a fully reserved one keeps all fully reserved.
pub proof fn lemma_fully_reserved_update(
    entries: Seq<((u8, [u8; 32]), CacheSlot)>,
    pos: int,
    item: ((u8, [u8; 32]), CacheSlot),
)
    requires
        files_fully_reserved(entries),
        0 <= pos < entries.len(),
        slot_fully_reserved(item.1),
    ensures
        files_fully_reserved(entries.update(pos, item)),
{
    assert forall|i: int| 0 <= i < entries.len() implies slot_fully_reserved(
        #[trigger] entries.update(pos, item)[i].1,
    ) by {
        if i != pos {
            assert(entries.update(pos, item)[i] == entries[i]);
        }
    }
}

/// A file that gets kept has its whole size reserved: room is made in full
/// whenever the requesting key survives the evictions. Completing a file
/// keeps the cache well formed.
pub proof fn law_kept_file_fully_reserved(
    v: ResourceCacheView,
    key: (u8, [u8; 32]),
    ticket: u128,
    size: u64,
)
    requires
        v.wf(),
    ensures
        ({
            let (after, entry, stored, _) = v.complete_file(key, ticket, size);
            &&& stored ==> slot_fully_reserved(CacheSlot::Filled { entry })
            &&& entry matches CacheEntry::File { reservation, .. } && (reservation.reserved == size
                || after.entries.len() == 0)
            &&& after.wf()
        }),
{
    let room = make_room_spec(v.entries, v.holders, v.available, size as nat);
    lemma_make_room(v.entries, v.holders, v.available, size as nat);
    lemma_distinct_subrange(v.entries, room.3.len() as int, v.entries.len() as int);
    assert(room.0 =~= v.entries.subrange(room.3.len() as int, v.entries.len() as int));
    assert(room.0 == v.entries.skip(room.3.len() as int));
    lemma_fully_reserved_skip(v.entries, room.3.len() as int);
    let (after, entry, stored, _) = v.complete_file(key, ticket, size);
    let detached = v.detached + detached_of(v.holders, room.3);
    lemma_detached_total_concat(v.detached, detached_of(v.holders, room.3));
    lemma_key_position(room.0, key);
    let pos = key_position(room.0, key);
    if stored {
        assert(room.0.len() > 0);
        assert(room.2 == size);
        lemma_total_changes(room.0, pos, (key, CacheSlot::Filled { entry }));
        lemma_distinct_changes(room.0, key, CacheSlot::Filled { entry });
        lemma_fully_reserved_update(room.0, pos, (key, CacheSlot::Filled { entry }));
    } else {
        let file: Detached = (ticket, size, CacheCapacityReservation { reserved: room.2 as u64 });
        assert(detached.push(file).drop_last() =~= detached);
    }
}

pub proof fn lemma_kept_equals_reserved(entries: Seq<((u8, [u8; 32]), CacheSlot)>)
    requires
        files_fully_reserved(entries),
    ensures
        kept_size_total(entries) == reserved_total(entries),
    decreases entries.len(),
{
    if entries.len() > 0 {
        let rest = entries.drop_last();
        assert forall|i: int| 0 <= i < rest.len() implies slot_fully_reserved(#[trigger] rest[i].1) by {
            assert(rest[i] == entries[i]);
        }
        lemma_kept_equals_reserved(rest);
        assert(slot_fully_reserved(entries[entries.len() - 1].1));
    }
}

pub proof fn lemma_detached_size_equals_reserved(detached: Seq<Detached>)
    requires
        detached_fully_reserved(detached),
    ensures
        detached_size_total(detached) == detached_total(detached),
    decreases detached.len(),
{
    if detached.len() > 0 {
        let rest = detached.drop_last();
        assert forall|i: int| 0 <= i < rest.len() implies (#[trigger] rest[i]).2.reserved
            == rest[i].1 by {
            assert(rest[i] == detached[i]);
        }
        lemma_detached_size_equals_reserved(rest);
        assert(detached[detached.len() - 1] == detached.last());
    }
}

/// The files on disk stay within the disk space the cache was given: the
/// kept files, each with its whole size reserved, the files it let go of
/// that requests still hold, with their reservations, and the free space
/// make up that disk space. So whenever each file still held has its whole
/// size reserved (a file gets less only where making room for it evicted
/// every entry and still fell short), the sizes of all files on disk add up to at most that space.
pub proof fn law_kept_files_within_budget(v: ResourceCacheView)
    requires
        v.wf(),
    ensures
        kept_size_total(v.entries) == reserved_total(v.entries),
        kept_size_total(v.entries) + detached_total(v.detached) + v.available == v.disk_capacity,
        kept_size_total(v.entries) <= v.disk_capacity,
        detached_fully_reserved(v.detached) ==> kept_size_total(v.entries) + detached_size_total(
            v.detached,
        ) <= v.disk_capacity,
{
    lemma_kept_equals_reserved(v.entries);
    if detached_fully_reserved(v.detached) {
        lemma_detached_size_equals_reserved(v.detached);
    }
}

/// The free space, the space the kept files hold and the space the held
/// files it let go of keep always make up the disk space the cache was
/// given, so giving any of these back can never take the free space past
/// it.
pub proof fn law_file_cache_space_conserved(v: ResourceCacheView, i: int, j: int)
    requires
        v.wf(),
    ensures
        v.available + reserved_total(v.entries) + detached_total(v.detached) == v.disk_capacity,
        0 <= i < v.entries.len() ==> v.available + slot_reserved(v.entries[i].1) <= v.disk_capacity,
        0 <= j < v.detached.len() ==> v.available + v.detached[j].2.reserved <= v.disk_capacity,
        v.disk_capacity <= u64::MAX,
{
    if 0 <= i < v.entries.len() {
        lemma_total_split(v.entries, i);
    }
    if 0 <= j < v.detached.len() {
        lemma_detached_total_remove(v.detached, j);
    }
}

/// A file's space stays reserved while a request holds it: ending a hold
/// that is not the file's last, or one on a file the cache has not let go
/// of, frees nothing; ending the last hold on a file the cache let go of
/// returns its whole reservation to the pool. Only a request that holds the
/// file can end a hold, and ending one keeps the cache well formed.
pub proof fn law_space_returns_with_last_hold(v: ResourceCacheView, id: u128, ticket: u128)
    requires
        v.wf(),
    ensures
        ({
            let (after, held) = v.release(id, ticket);
            let d = first_detached(v.detached, id);
            &&& after.wf()
            &&& held <==> exists|i: int| 0 <= i < v.holders.len() && v.holders[i] == (id, ticket)
            &&& held && !is_held(after.holders, id) && d >= 0 ==> after.available == v.available
                + v.detached[d].2.reserved && after.detached == v.detached.remove(d)
            &&& is_held(after.holders, id) || d < 0 ==> after.available == v.available
                && after.detached == v.detached
            &&& held && d >= 0 && (forall|i: int|
                0 <= i < after.holders.len() ==> (#[trigger] after.holders[i]).0 != id)
                ==> after.available == v.available + v.detached[d].2.reserved
            &&& (exists|i: int| 0 <= i < after.holders.len() && (#[trigger] after.holders[i]).0 == id)
                ==> after.available == v.available
            &&& after.entries == v.entries
        }),
{
    lemma_first_bounds(v.holders, (id, ticket), v.detached, id);
    let d = first_detached(v.detached, id);
    if d >= 0 {
        lemma_detached_total_remove(v.detached, d);
    }
    let pos = first_holder(v.holders, (id, ticket));
    let (after, held) = v.release(id, ticket);
    if pos < 0 {
        assert(after.holders == v.holders);
        assert forall|i: int| 0 <= i < v.holders.len() implies v.holders[i] != (id, ticket) by {}
    }
}

/// Nobody holding any file, letting go of evicted entries keeps none of them
/// on disk.
proof fn lemma_nothing_detached_unheld(
    holders: Seq<(u128, u128)>,
    evicted: Seq<((u8, [u8; 32]), CacheSlot)>,
)
    requires
        holders.len() == 0,
    ensures
        detached_of(holders, evicted) == Seq::<Detached>::empty(),
    decreases evicted.len(),
{
    if evicted.len() > 0 {
        lemma_nothing_detached_unheld(holders, evicted.drop_last());
        assert(detach(holders, evicted.last().1) =~= Seq::<Detached>::empty());
        assert(Seq::<Detached>::empty() + Seq::<Detached>::empty() =~= Seq::<Detached>::empty());
    }
}

/// A file that a lookup evicts goes at once, its whole reservation back to
/// the pool, when no request holds it (no hold names its id); a file that
/// some request holds stays on disk with its reservation, and nothing is
/// freed until its last hold ends.
pub proof fn law_evicted_file_freed_unless_held(
    v: ResourceCacheView,
    key: (u8, [u8; 32]),
    ticket: u128,
)
    requires
        v.wf(),
    ensures
        ({
            let (after, _, evicted) = v.lookup(key, ticket);
            &&& evicted matches Some(
                (_, CacheSlot::Filled { entry: CacheEntry::File { id, size, reservation } }),
            ) ==> {
                &&& (forall|i: int| 0 <= i < v.holders.len() ==> (#[trigger] v.holders[i]).0 != id)
                    ==> after.available == v.available + reservation.reserved && after.detached
                    == v.detached
                &&& (exists|i: int| 0 <= i < v.holders.len() && (#[trigger] v.holders[i]).0 == id)
                    ==> after.available == v.available && after.detached == v.detached.push(
                    (id, size, reservation),
                )
            }
            &&& evicted is None ==> after.available == v.available && after.detached == v.detached
        }),
{
    let (after, _, evicted) = v.lookup(key, ticket);
    assert(v.detached + Seq::<Detached>::empty() =~= v.detached);
    match evicted {
        Some((_, CacheSlot::Filled { entry: CacheEntry::File { id, size, reservation } })) => {
            assert(v.detached + seq![(id, size, reservation)] =~= v.detached.push(
                (id, size, reservation),
            ));
        },
        _ => {},
    }
}

/// When no request holds any file, making room for a fetched file frees the
/// whole reservation of every file it evicts: only the fetched file itself,
/// when it is not kept, stays on disk outside the cache.
pub proof fn law_unheld_evictions_free_everything(
    v: ResourceCacheView,
    key: (u8, [u8; 32]),
    ticket: u128,
    size: u64,
)
    requires
        v.wf(),
        v.holders.len() == 0,
    ensures
        ({
            let (after, entry, stored, _) = v.complete_file(key, ticket, size);
            &&& stored ==> after.detached == v.detached
            &&& !stored ==> (entry matches CacheEntry::File { reservation, .. }
                && after.detached == v.detached.push((ticket, size, reservation)))
        }),
{
    let room = make_room_spec(v.entries, v.holders, v.available, size as nat);
    lemma_nothing_detached_unheld(v.holders, room.3);
    assert(v.detached + detached_of(v.holders, room.3) =~= v.detached);
}

} // verus!
