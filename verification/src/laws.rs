//! The laws of the cache, proved over the ghost model that the manager's
//! contracts are stated against. Each lemma speaks about the transition
//! functions that `Manager::get`, `Manager::load_forced`,
//! `Manager::load_persistent`, `Manager::release`, and
//! `Manager::release_persistent` promise in their `ensures`, so together
//! with those contracts it covers the corresponding runs of the manager.

use vstd::prelude::*;
use crate::resource::{
    Model, inv, has_room, is_hit, exposes, hit_step, fresh_step, pin_step, release_step,
    unpin_step, pin_count, lemma_pin_count_zero, lemma_pin_count_push,
};

verus! {

/// Idempotent hit: while at least one handle keeps the resource under `k`
/// alive, a lookup for `k` hits and hands out the cached identity, and a
/// second lookup right after it hits again and hands out the very same
/// identity — no second resource is constructed.
pub proof fn lemma_idempotent_hit<C, T>(m: Model<C, T>, k: Seq<u8>)
    requires
        inv(m),
        is_hit(m, k),
    ensures
        is_hit(hit_step(m, k), k),
        hit_step(m, k).table[k] == m.table[k],
        hit_step(m, k).next == m.next,
{
}

/// Eviction on drop: when the one remaining handle for the resource cached
/// under `k` is given back, the resource dies and the entry for `k` goes
/// stale, so the next lookup for `k` misses and must construct afresh.
pub proof fn lemma_eviction_on_drop<C, T>(m: Model<C, T>, k: Seq<u8>)
    requires
        inv(m),
        is_hit(m, k),
        m.live[m.table[k]].strong == 1,
        pin_count(m.pins, m.table[k]) == 0,
    ensures
        m.live[m.table[k]].strong > pin_count(m.pins, m.table[k]),
        !is_hit(release_step(m, m.table[k]), k),
        release_step(m, m.table[k]).table == m.table,
{
}

/// Replace on forced load: a forced load for `k` while a live handle from an
/// earlier lookup is still held publishes a new resource with a new identity
/// under `k`; the next lookup hits the new resource, not the old one, and
/// the old one stays alive for whoever still holds it.
pub proof fn lemma_replace_on_forced_load<C, T>(m: Model<C, T>, k: Seq<u8>, v: T)
    requires
        inv(m),
        is_hit(m, k),
    ensures
        fresh_step(m, k, v).table[k] == m.next,
        m.table[k] != m.next,
        is_hit(fresh_step(m, k, v), k),
        fresh_step(m, k, v).live.contains_key(m.table[k]),
        fresh_step(m, k, v).live[m.next].val == v,
{
}

/// Pin survives external drop: after a pinned load for `k`, the caller's own
/// handle can be given back — the pin still holds a share — and the next
/// lookup for `k` still hits the pinned resource. Once the pins are cleared
/// too, and no external handle remains, the resource is gone and the next
/// lookup for `k` misses, so it constructs afresh.
pub proof fn lemma_pin_survives_external_drop<C, T>(m: Model<C, T>, k: Seq<u8>, v: T)
    requires
        inv(m),
        has_room(m),
    ensures
        ({
            let pinned = pin_step(m, k, v);
            let dropped = release_step(pinned, m.next);
            &&& pinned.live[m.next].strong > pin_count(pinned.pins, m.next)
            &&& is_hit(dropped, k)
            &&& dropped.table[k] == m.next
            &&& !unpin_step(dropped).live.contains_key(m.next)
            &&& !is_hit(unpin_step(dropped), k)
        }),
{
    assert forall|j: int| 0 <= j < m.pins.len() implies m.pins[j] != m.next by {
        assert(m.live.contains_key(m.pins[j]));
    }
    lemma_pin_count_zero(m.pins, m.next);
    lemma_pin_count_push(m.pins, m.next, m.next);
}

/// At most one entry: the cache table never exposes two live resources under
/// one key — whatever identity a lookup for `k` can return, it is the one
/// identity the table names for `k`.
pub proof fn lemma_at_most_one_entry<C, T>(m: Model<C, T>, k: Seq<u8>, i1: nat, i2: nat)
    requires
        exposes(m, k, i1),
        exposes(m, k, i2),
    ensures
        i1 == i2,
{
}

} // verus!
