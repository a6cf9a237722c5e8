//! The resource manager: a path-keyed cache of loadable assets.
//!
//! A `Manager` owns a base location, a cache table, and a pin list. A lookup
//! resolves its relative path to a key, reuses the live resource cached under
//! that key if one exists, and otherwise asks the `Resource` capability to
//! construct one. Ownership is explicit: every constructed resource is held
//! under strong handles, and a resource is destroyed when its last handle is
//! given back. The cache table itself never keeps a resource alive: an entry
//! whose resource has lost its last handle is stale and is treated as a miss.
//!
//! The whole behaviour is specified against a ghost `Model`: a map from keys
//! to resource identities, a map from identities to live slots (owner count
//! and value), the pinned identities, and the next fresh identity.

use vstd::prelude::*;
use vstd::map::*;
use crate::key::{bytes_eq, resolve, resolve_spec};

verus! {

/// The capability to construct a resource of one asset kind. The manager
/// calls it on every miss and on every forced load; implementations are free
/// to perform I/O but must report failure instead of returning a partial
/// value, and know nothing of caching, keys, or pinning.
pub trait Resource<C>: Sized {
    /// Constructs a value from the loading context and an absolute key.
    fn load(context: &C, key: &Vec<u8>) -> Result<Self, String>;
}

/// Why a cache operation returned no handle.
#[derive(Debug)]
pub enum CacheError {
    /// The relative path was absolute or climbed above the base; nothing was
    /// constructed and the cache was not touched.
    InvalidKey,
    /// The `Resource` capability failed; its message is passed on unchanged
    /// and the cache is exactly as it was before the call.
    ConstructionFailed(String),
}

/// An owning reference to a constructed resource. A resource stays alive
/// exactly as long as at least one strong handle for it exists, the
/// manager's own pins included. Handles cannot be duplicated; a caller gives
/// one back through `Manager::release`.
#[derive(Debug)]
pub struct StrongHandle {
    id: u64,
}

impl View for StrongHandle {
    type V = nat;

    closed spec fn view(&self) -> nat {
        self.id as nat
    }
}

impl StrongHandle {
    /// The identity of the resource this handle owns a share of. Two handles
    /// refer to the identical resource exactly when their identities agree.
    pub fn id(&self) -> (r: u64)
        ensures
            r as nat == self@,
    {
        self.id
    }
}

/// A ghost slot: how many strong handles a live resource has, and its value.
#[verifier::ext_equal]
pub ghost struct SlotInfo<T> {
    pub strong: nat,
    pub val: T,
}

/// The ghost state of a manager.
#[verifier::ext_equal]
pub ghost struct Model<C, T> {
    /// The loading context, held for the `Resource` capability and never
    /// inspected or changed by the manager.
    pub context: C,
    /// The base location that every relative path is resolved against.
    pub base: Seq<u8>,
    /// The cache table: at most one entry per key, each naming the identity
    /// last published under that key. The named resource may have died since;
    /// such an entry is stale.
    pub table: Map<Seq<u8>, nat>,
    /// The live resources: identity to owner count and value.
    pub live: Map<nat, SlotInfo<T>>,
    /// The identities the manager itself keeps alive, in pin order; each pin
    /// owns one strong share of its resource.
    pub pins: Seq<nat>,
    /// The next fresh identity; every identity ever issued is below it.
    pub next: nat,
}

/// How many pins hold the identity `id`.
pub open spec fn pin_count(pins: Seq<nat>, id: nat) -> nat
    decreases pins.len(),
{
    if pins.len() == 0 {
        0
    } else {
        pin_count(pins.drop_first(), id) + (if pins.first() == id {
            1nat
        } else {
            0nat
        })
    }
}

/// The manager's invariant over its ghost state: identities are issued below
/// `next`, every live resource has at least one owner and no fewer owners
/// than pins, and every pinned identity is live.
pub open spec fn inv<C, T>(m: Model<C, T>) -> bool {
    &&& forall|k: Seq<u8>| #[trigger] m.table.contains_key(k) ==> m.table[k] < m.next
    &&& forall|i: nat| #[trigger]
        m.live.contains_key(i) ==> i < m.next && m.live[i].strong >= 1 && m.live[i].strong
            >= pin_count(m.pins, i)
    &&& forall|j: int| 0 <= j < m.pins.len() ==> m.live.contains_key(#[trigger] m.pins[j])
}

/// Whether the counters can still grow: needed before an operation that may
/// issue an identity or add an owner, so that no machine limit is hit.
pub open spec fn has_room<C, T>(m: Model<C, T>) -> bool {
    &&& m.next < u64::MAX
    &&& forall|i: nat| #[trigger] m.live.contains_key(i) ==> m.live[i].strong < u64::MAX
}

/// Whether a lookup for `k` hits: the table has an entry for `k` and the
/// resource it names is still live.
pub open spec fn is_hit<C, T>(m: Model<C, T>, k: Seq<u8>) -> bool {
    m.table.contains_key(k) && m.live.contains_key(m.table[k])
}

/// The table exposes identity `i` under key `k`: the entry for `k` names a
/// live resource `i`.
pub open spec fn exposes<C, T>(m: Model<C, T>, k: Seq<u8>, i: nat) -> bool {
    m.table.contains_key(k) && m.table[k] == i && m.live.contains_key(i)
}

/// A cache hit on `k`: the cached resource gains one owner; nothing else
/// changes, and in particular nothing is constructed.
pub open spec fn hit_step<C, T>(m: Model<C, T>, k: Seq<u8>) -> Model<C, T> {
    (Model {
        context: m.context,
        base: m.base,
        table: m.table,
        live: m.live.insert(
            m.table[k],
            SlotInfo { strong: m.live[m.table[k]].strong + 1, val: m.live[m.table[k]].val },
        ),
        pins: m.pins,
        next: m.next,
    })
}

/// A fresh construction for `k` with value `v`: a new identity is issued and
/// published under `k`, replacing whatever entry was there; the new resource
/// has its caller as single owner. A resource the old entry named keeps its
/// owners and stays live for them.
pub open spec fn fresh_step<C, T>(m: Model<C, T>, k: Seq<u8>, v: T) -> Model<C, T> {
    (Model {
        context: m.context,
        base: m.base,
        table: m.table.insert(k, m.next),
        live: m.live.insert(m.next, SlotInfo { strong: 1, val: v }),
        pins: m.pins,
        next: m.next + 1,
    })
}

/// A pinned construction for `k` with value `v`: as `fresh_step`, but the
/// manager also pins the new identity, so the resource has two owners: the
/// caller's handle and the pin.
pub open spec fn pin_step<C, T>(m: Model<C, T>, k: Seq<u8>, v: T) -> Model<C, T> {
    (Model {
        context: m.context,
        base: m.base,
        table: m.table.insert(k, m.next),
        live: m.live.insert(m.next, SlotInfo { strong: 2, val: v }),
        pins: m.pins.push(m.next),
        next: m.next + 1,
    })
}

/// Giving back one strong handle for `id`: its resource loses one owner and
/// dies when that was the last one. Stale table entries are left in place;
/// they read as misses.
pub open spec fn release_step<C, T>(m: Model<C, T>, id: nat) -> Model<C, T> {
    (Model {
        context: m.context,
        base: m.base,
        table: m.table,
        live: if m.live.contains_key(id) && m.live[id].strong > 1 {
            m.live.insert(
                id,
                SlotInfo { strong: (m.live[id].strong - 1) as nat, val: m.live[id].val },
            )
        } else {
            m.live.remove(id)
        },
        pins: m.pins,
        next: m.next,
    })
}

/// Clearing the pin list: every resource loses one owner per pin that held
/// it, and the ones left with no owner die. Their table entries become
/// stale, so the next lookup for their keys reconstructs.
pub open spec fn unpin_step<C, T>(m: Model<C, T>) -> Model<C, T> {
    (Model {
        context: m.context,
        base: m.base,
        table: m.table,
        live: Map::new(
            |i: nat| m.live.contains_key(i) && m.live[i].strong > pin_count(m.pins, i),
            |i: nat|
                SlotInfo {
                    strong: (m.live[i].strong - pin_count(m.pins, i)) as nat,
                    val: m.live[i].val,
                },
        ),
        pins: Seq::<nat>::empty(),
        next: m.next,
    })
}

/// An identity no pin holds has pin count zero.
pub proof fn lemma_pin_count_zero(pins: Seq<nat>, id: nat)
    requires
        forall|j: int| 0 <= j < pins.len() ==> pins[j] != id,
    ensures
        pin_count(pins, id) == 0,
    decreases pins.len(),
{
    if pins.len() > 0 {
        lemma_pin_count_zero(pins.drop_first(), id);
    }
}

/// An identity some pin holds has positive pin count.
pub proof fn lemma_pin_count_pos(pins: Seq<nat>, j: int)
    requires
        0 <= j < pins.len(),
    ensures
        pin_count(pins, pins[j]) >= 1,
    decreases pins.len(),
{
    if j > 0 {
        lemma_pin_count_pos(pins.drop_first(), j - 1);
    }
}

/// Appending one pin raises exactly its identity's count by one.
pub proof fn lemma_pin_count_push(pins: Seq<nat>, x: nat, id: nat)
    ensures
        pin_count(pins.push(x), id) == pin_count(pins, id) + (if x == id {
            1nat
        } else {
            0nat
        }),
    decreases pins.len(),
{
    if pins.len() == 0 {
        assert(pins.push(x).first() == x);
        assert(pins.push(x).drop_first() =~= Seq::<nat>::empty());
        assert(pin_count(Seq::<nat>::empty(), id) == 0);
        assert(pin_count(pins, id) == 0);
    } else {
        assert(pins.push(x).first() == pins.first());
        assert(pins.push(x).drop_first() =~= pins.drop_first().push(x));
        lemma_pin_count_push(pins.drop_first(), x, id);
    }
}

/// One pin given back: the resource loses one owner and dies when that was
/// the last one; an identity that is not live is left alone.
spec fn drop_pin<T>(live: Map<nat, SlotInfo<T>>, id: nat) -> Map<nat, SlotInfo<T>> {
    if live.contains_key(id) {
        if live[id].strong > 1 {
            live.insert(id, SlotInfo { strong: (live[id].strong - 1) as nat, val: live[id].val })
        } else {
            live.remove(id)
        }
    } else {
        live
    }
}

/// The pins given back one after the other, in order.
spec fn drained<T>(live: Map<nat, SlotInfo<T>>, pins: Seq<nat>) -> Map<nat, SlotInfo<T>>
    decreases pins.len(),
{
    if pins.len() == 0 {
        live
    } else {
        drained(drop_pin(live, pins.first()), pins.drop_first())
    }
}

/// Giving back all pins keeps exactly the resources with owners beyond their
/// pins, each with its pin shares subtracted.
proof fn lemma_drained<T>(live: Map<nat, SlotInfo<T>>, pins: Seq<nat>, i: nat)
    requires
        forall|x: nat| #[trigger] live.contains_key(x) ==> live[x].strong >= 1,
    ensures
        drained(live, pins).contains_key(i) <==> (live.contains_key(i) && live[i].strong
            > pin_count(pins, i)),
        drained(live, pins).contains_key(i) ==> drained(live, pins)[i] == (SlotInfo {
            strong: (live[i].strong - pin_count(pins, i)) as nat,
            val: live[i].val,
        }),
    decreases pins.len(),
{
    if pins.len() > 0 {
        let p = pins.first();
        let live2 = drop_pin(live, p);
        assert forall|x: nat| #[trigger] live2.contains_key(x) implies live2[x].strong >= 1 by {
            assert(live.contains_key(x));
        }
        lemma_drained(live2, pins.drop_first(), i);
    }
}

/// A cache table entry: the identity last published under a key. The entry
/// does not own the resource; it merely names it.
struct CacheEntry {
    key: Vec<u8>,
    id: u64,
}

/// A live resource: its identity, its current number of strong handles, and
/// its value. Dropped as soon as the count reaches zero.
struct Slot<T> {
    id: u64,
    strong: u64,
    value: T,
}

/// The cache manager for one asset kind. It reuses live resources, rebuilds
/// stale or absent ones through the `Resource` capability, and keeps pinned
/// resources alive across the loss of every external handle.
pub struct Manager<C, T> {
    context: C,
    base: Vec<u8>,
    table: Vec<CacheEntry>,
    slots: Vec<Slot<T>>,
    pins: Vec<u64>,
    next: u64,
}

spec fn table_model(s: Seq<CacheEntry>) -> Map<Seq<u8>, nat>
    decreases s.len(),
{
    if s.len() == 0 {
        Map::<Seq<u8>, nat>::empty()
    } else {
        table_model(s.drop_last()).insert(s.last().key@, s.last().id as nat)
    }
}

spec fn slots_model<T>(s: Seq<Slot<T>>) -> Map<nat, SlotInfo<T>>
    decreases s.len(),
{
    if s.len() == 0 {
        Map::<nat, SlotInfo<T>>::empty()
    } else {
        slots_model(s.drop_last()).insert(
            s.last().id as nat,
            SlotInfo { strong: s.last().strong as nat, val: s.last().value },
        )
    }
}

spec fn pins_model(s: Seq<u64>) -> Seq<nat> {
    Seq::new(s.len(), |i: int| s[i] as nat)
}

spec fn table_keys_unique(s: Seq<CacheEntry>) -> bool {
    forall|i: int, j: int| 0 <= i < j < s.len() ==> s[i].key@ != s[j].key@
}

spec fn slot_ids_unique<T>(s: Seq<Slot<T>>) -> bool {
    forall|i: int, j: int| 0 <= i < j < s.len() ==> s[i].id != s[j].id
}

proof fn lemma_table_contains(s: Seq<CacheEntry>, k: Seq<u8>)
    ensures
        table_model(s).contains_key(k) <==> exists|i: int| 0 <= i < s.len() && s[i].key@ == k,
    decreases s.len(),
{
    if s.len() > 0 {
        lemma_table_contains(s.drop_last(), k);
        if s.last().key@ == k {
            assert(s[s.len() - 1].key@ == k);
        } else if table_model(s).contains_key(k) {
            let i = choose|i: int| 0 <= i < s.drop_last().len() && s.drop_last()[i].key@ == k;
            assert(s[i].key@ == k);
        } else if exists|i: int| 0 <= i < s.len() && s[i].key@ == k {
            let i = choose|i: int| 0 <= i < s.len() && s[i].key@ == k;
            assert(s.drop_last()[i].key@ == k);
        }
    }
}

proof fn lemma_table_at(s: Seq<CacheEntry>, i: int)
    requires
        table_keys_unique(s),
        0 <= i < s.len(),
    ensures
        table_model(s).contains_key(s[i].key@),
        table_model(s)[s[i].key@] == s[i].id as nat,
    decreases s.len(),
{
    if i < s.len() - 1 {
        lemma_table_at(s.drop_last(), i);
    }
}

proof fn lemma_table_update(s: Seq<CacheEntry>, i: int, e: CacheEntry)
    requires
        table_keys_unique(s),
        0 <= i < s.len(),
        e.key@ == s[i].key@,
    ensures
        table_model(s.update(i, e)) == table_model(s).insert(e.key@, e.id as nat),
        table_keys_unique(s.update(i, e)),
    decreases s.len(),
{
    let s2 = s.update(i, e);
    if i == s.len() - 1 {
        assert(s2.drop_last() =~= s.drop_last());
        assert(table_model(s2) =~= table_model(s).insert(e.key@, e.id as nat));
    } else {
        assert(s2.drop_last() =~= s.drop_last().update(i, e));
        lemma_table_update(s.drop_last(), i, e);
        assert(s2.last() == s.last());
        assert(s.last().key@ != e.key@);
        assert(table_model(s2) =~= table_model(s).insert(e.key@, e.id as nat));
    }
}

proof fn lemma_slots_contains<T>(s: Seq<Slot<T>>, id: nat)
    ensures
        slots_model(s).contains_key(id) <==> exists|i: int| 0 <= i < s.len() && s[i].id as nat
            == id,
    decreases s.len(),
{
    if s.len() > 0 {
        lemma_slots_contains(s.drop_last(), id);
        if s.last().id as nat == id {
            assert(s[s.len() - 1].id as nat == id);
        } else if slots_model(s).contains_key(id) {
            let i = choose|i: int|
                0 <= i < s.drop_last().len() && s.drop_last()[i].id as nat == id;
            assert(s[i].id as nat == id);
        } else if exists|i: int| 0 <= i < s.len() && s[i].id as nat == id {
            let i = choose|i: int| 0 <= i < s.len() && s[i].id as nat == id;
            assert(s.drop_last()[i].id as nat == id);
        }
    }
}

proof fn lemma_slots_at<T>(s: Seq<Slot<T>>, i: int)
    requires
        slot_ids_unique(s),
        0 <= i < s.len(),
    ensures
        slots_model(s).contains_key(s[i].id as nat),
        slots_model(s)[s[i].id as nat] == (SlotInfo {
            strong: s[i].strong as nat,
            val: s[i].value,
        }),
    decreases s.len(),
{
    if i < s.len() - 1 {
        lemma_slots_at(s.drop_last(), i);
    }
}

proof fn lemma_slots_update<T>(s: Seq<Slot<T>>, i: int, e: Slot<T>)
    requires
        slot_ids_unique(s),
        0 <= i < s.len(),
        e.id == s[i].id,
    ensures
        slots_model(s.update(i, e)) == slots_model(s).insert(
            e.id as nat,
            SlotInfo { strong: e.strong as nat, val: e.value },
        ),
        slot_ids_unique(s.update(i, e)),
    decreases s.len(),
{
    let s2 = s.update(i, e);
    if i == s.len() - 1 {
        assert(s2.drop_last() =~= s.drop_last());
        assert(slots_model(s2) =~= slots_model(s).insert(
            e.id as nat,
            SlotInfo { strong: e.strong as nat, val: e.value },
        ));
    } else {
        assert(s2.drop_last() =~= s.drop_last().update(i, e));
        lemma_slots_update(s.drop_last(), i, e);
        assert(s2.last() == s.last());
        assert(s.last().id != e.id);
        assert(slots_model(s2) =~= slots_model(s).insert(
            e.id as nat,
            SlotInfo { strong: e.strong as nat, val: e.value },
        ));
    }
}

proof fn lemma_slots_remove<T>(s: Seq<Slot<T>>, i: int)
    requires
        slot_ids_unique(s),
        0 <= i < s.len(),
    ensures
        slots_model(s.remove(i)) == slots_model(s).remove(s[i].id as nat),
        slot_ids_unique(s.remove(i)),
    decreases s.len(),
{
    let s2 = s.remove(i);
    if i == s.len() - 1 {
        assert(s2 =~= s.drop_last());
        lemma_slots_contains(s.drop_last(), s[i].id as nat);
        assert(slots_model(s2) =~= slots_model(s).remove(s[i].id as nat));
    } else {
        assert(s2.drop_last() =~= s.drop_last().remove(i));
        lemma_slots_remove(s.drop_last(), i);
        assert(s2.last() == s.last());
        assert(s.last().id != s[i].id);
        assert(slots_model(s2) =~= slots_model(s).remove(s[i].id as nat));
    }
}

impl<C, T> View for Manager<C, T> {
    type V = Model<C, T>;

    closed spec fn view(&self) -> Model<C, T> {
        (Model {
            context: self.context,
            base: self.base@,
            table: table_model(self.table@),
            live: slots_model(self.slots@),
            pins: pins_model(self.pins@),
            next: self.next as nat,
        })
    }
}

impl<C, T: Resource<C>> Manager<C, T> {
    /// Whether the manager's representation is sound: table keys and slot
    /// identities are unique, and the ghost state satisfies `inv`. Every
    /// operation requires and preserves it.
    pub closed spec fn wf(&self) -> bool {
        &&& table_keys_unique(self.table@)
        &&& slot_ids_unique(self.slots@)
        &&& inv(self@)
    }

    /// A manager with an empty cache and no pins. Performs no I/O.
    pub fn new(context: C, base: Vec<u8>) -> (m: Manager<C, T>)
        ensures
            m.wf(),
            m@.context == context,
            m@.base == base@,
            m@.table == Map::<Seq<u8>, nat>::empty(),
            m@.live == Map::<nat, SlotInfo<T>>::empty(),
            m@.pins == Seq::<nat>::empty(),
            m@.next == 0,
    {
        let m = Manager {
            context,
            base,
            table: Vec::new(),
            slots: Vec::new(),
            pins: Vec::new(),
            next: 0,
        };
        proof {
            assert(m@.pins =~= Seq::<nat>::empty());
        }
        m
    }

    /// The index of the table entry for `key`, if the table has one.
    fn find_key(&self, key: &Vec<u8>) -> (r: Option<usize>)
        requires
            table_keys_unique(self.table@),
        ensures
            (r matches Some(i) ==> i < self.table@.len() && self.table@[i as int].key@ == key@
                && self@.table.contains_key(key@) && self@.table[key@] == self.table@[
                i as int
            ].id as nat),
            (r is None ==> !self@.table.contains_key(key@)),
    {
        let mut i: usize = 0;
        while i < self.table.len()
            invariant
                table_keys_unique(self.table@),
                i <= self.table@.len(),
                forall|j: int| 0 <= j < i ==> self.table@[j].key@ != key@,
            decreases self.table@.len() - i,
        {
            if bytes_eq(&self.table[i].key, key) {
                proof {
                    lemma_table_at(self.table@, i as int);
                }
                return Some(i);
            }
            i = i + 1;
        }
        proof {
            lemma_table_contains(self.table@, key@);
        }
        None
    }

    /// The index of the live slot for identity `id`, if the resource lives.
    fn find_slot(&self, id: u64) -> (r: Option<usize>)
        requires
            slot_ids_unique(self.slots@),
        ensures
            (r matches Some(i) ==> i < self.slots@.len() && self.slots@[i as int].id == id
                && self@.live.contains_key(id as nat) && self@.live[id as nat] == (SlotInfo {
                strong: self.slots@[i as int].strong as nat,
                val: self.slots@[i as int].value,
            })),
            (r is None ==> !self@.live.contains_key(id as nat)),
    {
        let mut i: usize = 0;
        while i < self.slots.len()
            invariant
                slot_ids_unique(self.slots@),
                i <= self.slots@.len(),
                forall|j: int| 0 <= j < i ==> self.slots@[j].id != id,
            decreases self.slots@.len() - i,
        {
            if self.slots[i].id == id {
                proof {
                    lemma_slots_at(self.slots@, i as int);
                }
                return Some(i);
            }
            i = i + 1;
        }
        proof {
            lemma_slots_contains(self.slots@, id as nat);
        }
        None
    }

    /// Constructs a resource for an already resolved key and publishes it
    /// under that key, replacing any previous entry. On failure the cache is
    /// exactly as before.
    fn construct(&mut self, key: Vec<u8>) -> (r: Result<StrongHandle, CacheError>)
        requires
            old(self).wf(),
            has_room(old(self)@),
        ensures
            final(self).wf(),
            (r matches Ok(h) ==> h@ == old(self)@.next && final(self)@ == fresh_step(
                old(self)@,
                key@,
                final(self)@.live[old(self)@.next].val,
            )),
            (r matches Err(e) ==> e is ConstructionFailed && final(self)@ == old(self)@),
    {
        let loaded = T::load(&self.context, &key);
        let v = match loaded {
            Err(msg) => {
                return Err(CacheError::ConstructionFailed(msg));
            },
            Ok(v) => v,
        };
        let ghost m0 = self@;
        let id = self.next;
        self.next = self.next + 1;
        let ghost t0 = self.table@;
        match self.find_key(&key) {
            Some(ti) => {
                let mut e = self.table.remove(ti);
                e.id = id;
                self.table.insert(ti, e);
                proof {
                    assert(self.table@ =~= t0.update(
                        ti as int,
                        (CacheEntry { key: t0[ti as int].key, id: id }),
                    ));
                    lemma_table_update(
                        t0,
                        ti as int,
                        (CacheEntry { key: t0[ti as int].key, id: id }),
                    );
                }
            },
            None => {
                proof {
                    lemma_table_contains(t0, key@);
                }
                self.table.push(CacheEntry { key, id });
                proof {
                    assert(self.table@.drop_last() =~= t0);
                }
            },
        }
        let ghost s0 = self.slots@;
        proof {
            assert(m0.live == slots_model(s0));
            assert forall|i: int| 0 <= i < s0.len() implies s0[i].id != id by {
                lemma_slots_at(s0, i);
                assert(m0.live.contains_key(s0[i].id as nat));
            }
        }
        self.slots.push(Slot { id, strong: 1, value: v });
        proof {
            assert(self.slots@.drop_last() =~= s0);
            assert(self@.table =~= m0.table.insert(key@, id as nat));
            assert(self@.live =~= m0.live.insert(id as nat, SlotInfo { strong: 1, val: v }));
            assert(self@.pins =~= m0.pins);
            assert(self@ =~= fresh_step(m0, key@, v));
            lemma_pin_count_zero(m0.pins, id as nat);
        }
        Ok(StrongHandle { id })
    }

    /// Looks up a relative path: resolves it to a key, returns a new handle
    /// to the live resource cached under that key if one exists (a hit:
    /// nothing is constructed), and otherwise constructs, publishes, and
    /// returns the fresh resource. A failed resolution or construction
    /// leaves the cache untouched.
    pub fn get(&mut self, rel: &Vec<u8>) -> (r: Result<StrongHandle, CacheError>)
        requires
            old(self).wf(),
            has_room(old(self)@),
        ensures
            final(self).wf(),
            (resolve_spec(old(self)@.base, rel@) is None ==> (r matches Err(e) && e is InvalidKey
                && final(self)@ == old(self)@)),
            (resolve_spec(old(self)@.base, rel@) matches Some(k) ==> ((is_hit(old(self)@, k)
                ==> (r matches Ok(h) && h@ == old(self)@.table[k] && final(self)@ == hit_step(
                old(self)@,
                k,
            ))) && (!is_hit(old(self)@, k) ==> ((r matches Ok(h) && h@ == old(self)@.next
                && final(self)@ == fresh_step(
                old(self)@,
                k,
                final(self)@.live[old(self)@.next].val,
            )) || (r matches Err(e) && e is ConstructionFailed && final(self)@ == old(
                self,
            )@))))),
    {
        let key = match resolve(&self.base, rel) {
            None => {
                return Err(CacheError::InvalidKey);
            },
            Some(key) => key,
        };
        let ghost m0 = self@;
        if let Some(ti) = self.find_key(&key) {
            let id = self.table[ti].id;
            if let Some(si) = self.find_slot(id) {
                let ghost s0 = self.slots@;
                let mut sl = self.slots.remove(si);
                sl.strong = sl.strong + 1;
                self.slots.insert(si, sl);
                proof {
                    assert(self.slots@ =~= s0.update(si as int, sl));
                    lemma_slots_update(s0, si as int, sl);
                    assert(self@ =~= hit_step(m0, key@));
                }
                return Ok(StrongHandle { id });
            }
        }
        self.construct(key)
    }

    /// Constructs a guaranteed-fresh resource for the path, even when a live
    /// one is cached: the new resource replaces the table entry, while the
    /// old one stays alive for whoever still holds it.
    pub fn load_forced(&mut self, rel: &Vec<u8>) -> (r: Result<StrongHandle, CacheError>)
        requires
            old(self).wf(),
            has_room(old(self)@),
        ensures
            final(self).wf(),
            (resolve_spec(old(self)@.base, rel@) is None ==> (r matches Err(e) && e is InvalidKey
                && final(self)@ == old(self)@)),
            (resolve_spec(old(self)@.base, rel@) matches Some(k) ==> ((r matches Ok(h) && h@ == old(
                self,
            )@.next && final(self)@ == fresh_step(
                old(self)@,
                k,
                final(self)@.live[old(self)@.next].val,
            )) || (r matches Err(e) && e is ConstructionFailed && final(self)@ == old(self)@))),
    {
        match resolve(&self.base, rel) {
            None => Err(CacheError::InvalidKey),
            Some(key) => self.construct(key),
        }
    }

    /// Constructs a fresh resource for the path exactly as `load_forced`
    /// does, and additionally pins it: the manager keeps one strong share of
    /// its own, so the resource outlives every external handle until
    /// `release_persistent`.
    pub fn load_persistent(&mut self, rel: &Vec<u8>) -> (r: Result<StrongHandle, CacheError>)
        requires
            old(self).wf(),
            has_room(old(self)@),
        ensures
            final(self).wf(),
            (resolve_spec(old(self)@.base, rel@) is None ==> (r matches Err(e) && e is InvalidKey
                && final(self)@ == old(self)@)),
            (resolve_spec(old(self)@.base, rel@) matches Some(k) ==> ((r matches Ok(h) && h@ == old(
                self,
            )@.next && final(self)@ == pin_step(
                old(self)@,
                k,
                final(self)@.live[old(self)@.next].val,
            )) || (r matches Err(e) && e is ConstructionFailed && final(self)@ == old(self)@))),
    {
        let key = match resolve(&self.base, rel) {
            None => {
                return Err(CacheError::InvalidKey);
            },
            Some(key) => key,
        };
        let ghost m0 = self@;
        let h = match self.construct(key) {
            Err(e) => {
                return Err(e);
            },
            Ok(h) => h,
        };
        let ghost m1 = self@;
        let si = match self.find_slot(h.id) {
            Some(si) => si,
            None => {
                proof {
                    assert(false);
                }
                vstd::pervasive::unreached()
            },
        };
        let ghost s1 = self.slots@;
        let mut sl = self.slots.remove(si);
        sl.strong = sl.strong + 1;
        self.slots.insert(si, sl);
        self.pins.push(h.id);
        proof {
            assert(self.slots@ =~= s1.update(si as int, sl));
            lemma_slots_update(s1, si as int, sl);
            assert(self@.pins =~= m1.pins.push(h.id as nat));
            assert(self@ =~= pin_step(m0, key@, sl.value));
            assert forall|i: nat| #[trigger]
                self@.live.contains_key(i) implies self@.live[i].strong >= 1
                && self@.live[i].strong >= pin_count(self@.pins, i) by {
                lemma_pin_count_push(m1.pins, h.id as nat, i);
            }
        }
        Ok(h)
    }

    /// Gives one strong handle back. The handle must own a share of a live
    /// resource beyond the shares the pin list owns; when it was the last
    /// share, the resource dies and its table entry, if any, goes stale.
    pub fn release(&mut self, h: StrongHandle)
        requires
            old(self).wf(),
            old(self)@.live.contains_key(h@),
            old(self)@.live[h@].strong > pin_count(old(self)@.pins, h@),
        ensures
            final(self).wf(),
            final(self)@ == release_step(old(self)@, h@),
    {
        let ghost m0 = self@;
        let si = match self.find_slot(h.id) {
            Some(si) => si,
            None => {
                proof {
                    assert(false);
                }
                vstd::pervasive::unreached()
            },
        };
        let ghost s0 = self.slots@;
        let mut sl = self.slots.remove(si);
        if sl.strong > 1 {
            sl.strong = sl.strong - 1;
            self.slots.insert(si, sl);
            proof {
                assert(self.slots@ =~= s0.update(si as int, sl));
                lemma_slots_update(s0, si as int, sl);
                assert(self@ =~= release_step(m0, h@));
            }
        } else {
            proof {
                lemma_slots_remove(s0, si as int);
                assert(self@ =~= release_step(m0, h@));
                assert forall|j: int| 0 <= j < self@.pins.len() implies self@.live.contains_key(
                    self@.pins[j],
                ) by {
                    lemma_pin_count_pos(m0.pins, j);
                }
            }
        }
    }

    /// Clears the pin list, giving back every strong share the manager
    /// holds on its own behalf. A resource whose only remaining owners were
    /// pins dies; its table entry, if any, goes stale, so the next lookup
    /// for its key constructs afresh.
    pub fn release_persistent(&mut self)
        requires
            old(self).wf(),
        ensures
            final(self).wf(),
            final(self)@ == unpin_step(old(self)@),
    {
        let ghost m0 = self@;
        proof {
            assert(m0.pins.skip(0) =~= m0.pins);
        }
        let n = self.pins.len();
        let mut j: usize = 0;
        while j < n
            invariant
                j <= n,
                n == self.pins@.len(),
                self@.context == m0.context,
                self@.base == m0.base,
                self@.table == m0.table,
                self@.next == m0.next,
                self@.pins == m0.pins,
                table_keys_unique(self.table@),
                slot_ids_unique(self.slots@),
                drained(self@.live, m0.pins.skip(j as int)) == drained(m0.live, m0.pins),
            decreases n - j,
        {
            let id = self.pins[j];
            let ghost live_j = self@.live;
            proof {
                assert(m0.pins.skip(j as int).first() == id as nat);
                assert(m0.pins.skip(j as int).drop_first() =~= m0.pins.skip(j as int + 1));
            }
            match self.find_slot(id) {
                Some(si) => {
                    let ghost s0 = self.slots@;
                    let mut sl = self.slots.remove(si);
                    if sl.strong > 1 {
                        sl.strong = sl.strong - 1;
                        self.slots.insert(si, sl);
                        proof {
                            assert(self.slots@ =~= s0.update(si as int, sl));
                            lemma_slots_update(s0, si as int, sl);
                            assert(self@.live =~= drop_pin(live_j, id as nat));
                        }
                    } else {
                        proof {
                            lemma_slots_remove(s0, si as int);
                            assert(self@.live =~= drop_pin(live_j, id as nat));
                        }
                    }
                },
                None => {
                    proof {
                        assert(self@.live =~= drop_pin(live_j, id as nat));
                    }
                },
            }
            proof {
                assert(drained(live_j, m0.pins.skip(j as int)) == drained(
                    drop_pin(live_j, id as nat),
                    m0.pins.skip(j as int + 1),
                ));
            }
            j = j + 1;
        }
        proof {
            assert(m0.pins.skip(n as int) =~= Seq::<nat>::empty());
        }
        self.pins.clear();
        proof {
            assert(pins_model(self.pins@) =~= Seq::<nat>::empty());
            assert(self@.live == drained(m0.live, m0.pins));
            assert_maps_equal!(self@.live, unpin_step(m0).live, i: nat => {
                lemma_drained(m0.live, m0.pins, i);
            });
            assert(self@ =~= unpin_step(m0));
            assert forall|i: nat| #[trigger]
                self@.live.contains_key(i) implies i < self@.next && self@.live[i].strong >= 1
                && self@.live[i].strong >= pin_count(self@.pins, i) by {
                lemma_drained(m0.live, m0.pins, i);
                assert(pin_count(Seq::<nat>::empty(), i) == 0);
            }
        }
    }

    /// The value of a live resource, read through a handle for it.
    pub fn read(&self, h: &StrongHandle) -> (r: &T)
        requires
            self.wf(),
            self@.live.contains_key(h@),
        ensures
            *r == self@.live[h@].val,
    {
        match self.find_slot(h.id) {
            Some(si) => &self.slots[si].value,
            None => {
                proof {
                    assert(false);
                }
                vstd::pervasive::unreached()
            },
        }
    }
}

} // verus!
