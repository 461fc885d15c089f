//! Accounting of the disk space that cached files may use.
use vstd::prelude::*;

verus! {

/// The disk space, in bytes, still free for cached files.
#[derive(Debug)]
pub struct CacheCapacityPool {
    pub available_capacity: u64,
}

/// Disk space taken from a pool; it goes back with `return_to_pool`.
#[derive(Clone, Copy, Debug, PartialEq, Eq)]
pub struct CacheCapacityReservation {
    pub reserved: u64,
}

/// Reserving `size` bytes out of `available`: the bytes left free and the
/// bytes reserved, or nothing when `size` is more than is free.
pub open spec fn reserve_spec(available: nat, size: nat) -> Option<(nat, nat)> {
    if size <= available {
        Some(((available - size) as nat, size))
    } else {
        None
    }
}

/// Reserving up to `size` bytes out of `available`: the bytes left free and
/// the bytes reserved, all that is free when `size` is more.
pub open spec fn reserve_up_to_spec(available: nat, size: nat) -> (nat, nat) {
    let reserved = if size <= available {
        size
    } else {
        available
    };
    ((available - reserved) as nat, reserved)
}

impl CacheCapacityPool {
    /// A pool with `capacity` bytes free.
    pub fn new(capacity: u64) -> (pool: Self)
        ensures
            pool.available_capacity == capacity,
    {
        CacheCapacityPool { available_capacity: capacity }
    }

    /// Takes exactly `size` bytes when that much is free (an empty
    /// reservation always succeeds); otherwise takes nothing.
    pub fn reserve(&mut self, size: u64) -> (r: Option<CacheCapacityReservation>)
        ensures
            match reserve_spec(old(self).available_capacity as nat, size as nat) {
                Some((left, reserved)) => r matches Some(res) && res.reserved == reserved
                    && final(self).available_capacity == left,
                None => r is None && final(self).available_capacity == old(
                    self,
                ).available_capacity,
            },
    {
        if size == 0 {
            return Some(CacheCapacityReservation { reserved: 0 });
        }
        match self.available_capacity.checked_sub(size) {
            Some(remaining) => {
                self.available_capacity = remaining;
                Some(CacheCapacityReservation { reserved: size })
            },
            None => None,
        }
    }

    /// Takes `size` bytes, or all that is free where that is less.
    pub fn reserve_up_to(&mut self, size: u64) -> (r: CacheCapacityReservation)
        ensures
            ({
                let (left, reserved) = reserve_up_to_spec(
                    old(self).available_capacity as nat,
                    size as nat,
                );
                &&& r.reserved == reserved
                &&& final(self).available_capacity == left
            }),
    {
        if size == 0 {
            return CacheCapacityReservation { reserved: size };
        }
        let available = self.available_capacity;
        let remaining = available.saturating_sub(size);
        self.available_capacity = remaining;
        let reserved = available - remaining;
        CacheCapacityReservation { reserved }
    }
}

impl CacheCapacityReservation {
    /// Gives the reserved bytes back to `pool`; the reservation is then empty.
    pub fn return_to_pool(&mut self, pool: &mut CacheCapacityPool)
        requires
            old(pool).available_capacity + old(self).reserved <= u64::MAX,
        ensures
            final(pool).available_capacity == old(pool).available_capacity + old(self).reserved,
            final(self).reserved == 0,
    {
        if self.reserved == 0 {
            return;
        }
        pool.available_capacity = pool.available_capacity + self.reserved;
        self.reserved = 0;
    }
}

/// Reserving and then returning leaves the pool as it was, whichever of the
/// two ways the space was reserved; reserving up to a size that fits is
/// reserving it.
pub proof fn law_reserve_return_roundtrip(available: nat, size: nat)
    ensures
        reserve_spec(available, size) matches Some((left, reserved)) ==> left + reserved
            == available && reserved == size,
        ({
            let (left, reserved) = reserve_up_to_spec(available, size);
            &&& left + reserved == available
            &&& reserved <= size
            &&& (reserved == size || left == 0)
        }),
        size <= available ==> reserve_spec(available, size) == Some(
            reserve_up_to_spec(available, size),
        ),
{
}

} // verus!

verus! {

/// One use of a pool: reserve exactly, reserve up to, or return the live
/// reservation at `index`.
pub enum PoolOp {
    Reserve { size: nat },
    ReserveUpTo { size: nat },
    Return { index: int },
}

/// The sum of the amounts in `amounts`.
pub open spec fn sum_of(amounts: Seq<nat>) -> nat
    decreases amounts.len(),
{
    if amounts.len() == 0 {
        0
    } else {
        sum_of(amounts.drop_last()) + amounts.last()
    }
}

/// A pool with `available` bytes free and the reservations `live` after
/// `op`: a successful reservation joins the live ones, a returned one leaves
/// them and its bytes go back.
pub open spec fn pool_step(available: nat, live: Seq<nat>, op: PoolOp) -> (nat, Seq<nat>) {
    match op {
        PoolOp::Reserve { size } => match reserve_spec(available, size) {
            Some((left, reserved)) => (left, live.push(reserved)),
            None => (available, live),
        },
        PoolOp::ReserveUpTo { size } => {
            let (left, reserved) = reserve_up_to_spec(available, size);
            (left, live.push(reserved))
        },
        PoolOp::Return { index } => if 0 <= index < live.len() {
            (available + live[index], live.remove(index))
        } else {
            (available, live)
        },
    }
}

/// The pool after each of `ops` in turn.
pub open spec fn pool_run(available: nat, live: Seq<nat>, ops: Seq<PoolOp>) -> (nat, Seq<nat>)
    decreases ops.len(),
{
    if ops.len() == 0 {
        (available, live)
    } else {
        let (a, l) = pool_step(available, live, ops[0]);
        pool_run(a, l, ops.drop_first())
    }
}

pub proof fn lemma_sum_concat(a: Seq<nat>, b: Seq<nat>)
    ensures
        sum_of(a + b) == sum_of(a) + sum_of(b),
    decreases b.len(),
{
    if b.len() == 0 {
        assert(a + b =~= a);
    } else {
        lemma_sum_concat(a, b.drop_last());
        assert((a + b).drop_last() =~= a + b.drop_last());
    }
}

/// Removing one amount takes it off the sum, and no amount exceeds the sum.
pub proof fn lemma_sum_remove(s: Seq<nat>, i: int)
    requires
        0 <= i < s.len(),
    ensures
        sum_of(s.remove(i)) + s[i] == sum_of(s),
        s[i] <= sum_of(s),
{
    let single = seq![s[i]];
    assert(sum_of(single) == s[i]) by {
        assert(single.drop_last() =~= Seq::<nat>::empty());
        assert(sum_of(single.drop_last()) == 0);
    }
    assert(s =~= s.take(i) + single + s.skip(i + 1));
    lemma_sum_concat(s.take(i) + single, s.skip(i + 1));
    lemma_sum_concat(s.take(i), single);
    assert(s.remove(i) =~= s.take(i) + s.skip(i + 1));
    lemma_sum_concat(s.take(i), s.skip(i + 1));
}

/// Whatever reservations and returns are made, in whatever order, the free
/// bytes plus the bytes of the live reservations stay what the pool started
/// with; so no return can take the free bytes past that start.
pub proof fn law_pool_conserves(available: nat, live: Seq<nat>, ops: Seq<PoolOp>)
    ensures
        ({
            let (a, l) = pool_run(available, live, ops);
            &&& a + sum_of(l) == available + sum_of(live)
            &&& forall|i: int| 0 <= i < l.len() ==> a + #[trigger] l[i] <= available + sum_of(live)
        }),
    decreases ops.len(),
{
    if ops.len() == 0 {
        assert forall|i: int| 0 <= i < live.len() implies available + #[trigger] live[i]
            <= available + sum_of(live) by {
            lemma_sum_remove(live, i);
        }
    } else {
        let (a, l) = pool_step(available, live, ops[0]);
        match ops[0] {
            PoolOp::Reserve { size } => {
                if reserve_spec(available, size) is Some {
                    assert(l.drop_last() =~= live);
                }
            },
            PoolOp::ReserveUpTo { size } => {
                assert(l.drop_last() =~= live);
            },
            PoolOp::Return { index } => {
                if 0 <= index < live.len() {
                    lemma_sum_remove(live, index);
                }
            },
        }
        law_pool_conserves(a, l, ops.drop_first());
    }
}

/// Reservations alone, from an unused pool of `capacity` bytes: what they
/// were granted adds up to at most the capacity, and the pool has the rest.
pub proof fn law_reservations_within_capacity(capacity: nat, ops: Seq<PoolOp>)
    requires
        forall|i: int| 0 <= i < ops.len() ==> !(#[trigger] ops[i] is Return),
    ensures
        ({
            let (a, l) = pool_run(capacity, Seq::empty(), ops);
            &&& sum_of(l) <= capacity
            &&& a == capacity - sum_of(l)
        }),
{
    law_pool_conserves(capacity, Seq::empty(), ops);
    assert(sum_of(Seq::<nat>::empty()) == 0);
}

} // verus!
