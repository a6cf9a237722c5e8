use std::cell::Cell;
use std::rc::Rc;

use asset_cache::resource::{CacheError, Manager, Resource};

/// A loading context whose construction count and failure switch the test
/// can observe from outside the manager.
struct Ctx {
    counter: Rc<Cell<u64>>,
    fail: Rc<Cell<bool>>,
}

/// A test asset: remembers which construction call produced it and for
/// which key.
struct Asset {
    tag: u64,
    key: Vec<u8>,
}

impl Resource<Ctx> for Asset {
    fn load(context: &Ctx, key: &Vec<u8>) -> Result<Self, String> {
        if context.fail.get() {
            return Err(String::from("backend rejected the asset"));
        }
        let n = context.counter.get() + 1;
        context.counter.set(n);
        Ok(Asset { tag: n, key: key.clone() })
    }
}

fn setup() -> (Manager<Ctx, Asset>, Rc<Cell<u64>>, Rc<Cell<bool>>) {
    let counter = Rc::new(Cell::new(0));
    let fail = Rc::new(Cell::new(false));
    let ctx = Ctx { counter: Rc::clone(&counter), fail: Rc::clone(&fail) };
    let m = Manager::new(ctx, b"/assets".to_vec());
    (m, counter, fail)
}

#[test]
fn example_scenario() {
    // base="/assets"; get("a.png") constructs R1 (count 1); get("a.png")
    // again while R1 is alive returns R1 (count stays 1); drop the handles;
    // get("a.png") constructs R2 (count 2, R2 != R1).
    let (mut m, counter, _fail) = setup();
    let h1 = m.get(&b"a.png".to_vec()).unwrap();
    assert_eq!(counter.get(), 1);
    let r1 = h1.id();
    assert_eq!(m.read(&h1).tag, 1);
    assert_eq!(m.read(&h1).key, b"/assets/a.png".to_vec());

    let h2 = m.get(&b"a.png".to_vec()).unwrap();
    assert_eq!(counter.get(), 1);
    assert_eq!(h2.id(), r1);

    m.release(h1);
    m.release(h2);
    let h3 = m.get(&b"a.png".to_vec()).unwrap();
    assert_eq!(counter.get(), 2);
    assert_ne!(h3.id(), r1);
    assert_eq!(m.read(&h3).tag, 2);
    m.release(h3);
}

#[test]
fn idempotent_hit_identity() {
    let (mut m, counter, _fail) = setup();
    let h1 = m.get(&b"tex/wall.png".to_vec()).unwrap();
    let h2 = m.get(&b"tex/wall.png".to_vec()).unwrap();
    assert_eq!(h1.id(), h2.id());
    assert_eq!(counter.get(), 1);
    // a differently written path for the same key still hits
    let h3 = m.get(&b"./tex//wall.png".to_vec()).unwrap();
    assert_eq!(h3.id(), h1.id());
    assert_eq!(counter.get(), 1);
    m.release(h1);
    m.release(h2);
    m.release(h3);
}

#[test]
fn distinct_keys_distinct_resources() {
    let (mut m, counter, _fail) = setup();
    let ha = m.get(&b"a.png".to_vec()).unwrap();
    let hb = m.get(&b"b.png".to_vec()).unwrap();
    assert_ne!(ha.id(), hb.id());
    assert_eq!(counter.get(), 2);
    m.release(ha);
    m.release(hb);
}

#[test]
fn eviction_on_drop() {
    let (mut m, counter, _fail) = setup();
    let h1 = m.get(&b"a.png".to_vec()).unwrap();
    let r1 = h1.id();
    m.release(h1);
    // the cache entry is stale now: the next get must construct
    let h2 = m.get(&b"a.png".to_vec()).unwrap();
    assert_eq!(counter.get(), 2);
    assert_ne!(h2.id(), r1);
    m.release(h2);
}

#[test]
fn replace_on_forced_load() {
    let (mut m, counter, _fail) = setup();
    let h1 = m.get(&b"a.png".to_vec()).unwrap();
    let r1 = h1.id();
    // forced load while h1 is alive: a new resource replaces the entry
    let h2 = m.load_forced(&b"a.png".to_vec()).unwrap();
    assert_eq!(counter.get(), 2);
    assert_ne!(h2.id(), r1);
    // the next get returns the new resource, not the old one
    let h3 = m.get(&b"a.png".to_vec()).unwrap();
    assert_eq!(h3.id(), h2.id());
    assert_eq!(counter.get(), 2);
    // the old resource is still alive for its holder
    assert_eq!(m.read(&h1).tag, 1);
    assert_eq!(m.read(&h2).tag, 2);
    m.release(h1);
    m.release(h2);
    m.release(h3);
}

#[test]
fn pin_survives_external_drop() {
    let (mut m, counter, _fail) = setup();
    let h = m.load_persistent(&b"a.png".to_vec()).unwrap();
    let pinned = h.id();
    assert_eq!(counter.get(), 1);
    // drop the only external handle: the pin keeps the resource alive
    m.release(h);
    let h2 = m.get(&b"a.png".to_vec()).unwrap();
    assert_eq!(counter.get(), 1);
    assert_eq!(h2.id(), pinned);
    m.release(h2);
    // clear the pins: with no handle left the resource dies
    m.release_persistent();
    let h3 = m.get(&b"a.png".to_vec()).unwrap();
    assert_eq!(counter.get(), 2);
    assert_ne!(h3.id(), pinned);
    m.release(h3);
}

#[test]
fn pin_always_constructs_fresh() {
    // pinning mirrors an explicit materialize-and-keep request: it always
    // constructs, even when a live entry exists
    let (mut m, counter, _fail) = setup();
    let h1 = m.get(&b"a.png".to_vec()).unwrap();
    let r1 = h1.id();
    let h2 = m.load_persistent(&b"a.png".to_vec()).unwrap();
    assert_eq!(counter.get(), 2);
    assert_ne!(h2.id(), r1);
    m.release(h1);
    m.release(h2);
}

#[test]
fn unpin_spares_externally_held_resources() {
    let (mut m, counter, _fail) = setup();
    let h = m.load_persistent(&b"a.png".to_vec()).unwrap();
    let pinned = h.id();
    m.release_persistent();
    // the external handle still owns a share, so the entry still hits
    let h2 = m.get(&b"a.png".to_vec()).unwrap();
    assert_eq!(counter.get(), 1);
    assert_eq!(h2.id(), pinned);
    m.release(h);
    m.release(h2);
}

#[test]
fn failure_leaves_no_trace() {
    let (mut m, counter, fail) = setup();
    fail.set(true);
    match m.get(&b"a.png".to_vec()) {
        Err(CacheError::ConstructionFailed(msg)) => {
            assert_eq!(msg, "backend rejected the asset");
        },
        _ => panic!("expected a construction failure"),
    }
    assert_eq!(counter.get(), 0);
    // a later get behaves as a fresh miss: construction is attempted again
    fail.set(false);
    let h = m.get(&b"a.png".to_vec()).unwrap();
    assert_eq!(counter.get(), 1);
    assert_eq!(m.read(&h).tag, 1);
    m.release(h);
}

#[test]
fn failed_forced_load_keeps_old_entry() {
    let (mut m, counter, fail) = setup();
    let h1 = m.get(&b"a.png".to_vec()).unwrap();
    fail.set(true);
    assert!(matches!(
        m.load_forced(&b"a.png".to_vec()),
        Err(CacheError::ConstructionFailed(_))
    ));
    fail.set(false);
    // the old entry was not replaced by the failed attempt
    let h2 = m.get(&b"a.png".to_vec()).unwrap();
    assert_eq!(h2.id(), h1.id());
    assert_eq!(counter.get(), 1);
    m.release(h1);
    m.release(h2);
}

#[test]
fn invalid_key_is_rejected_before_construction() {
    let (mut m, counter, _fail) = setup();
    assert!(matches!(m.get(&b"/abs".to_vec()), Err(CacheError::InvalidKey)));
    assert!(matches!(m.get(&b"..".to_vec()), Err(CacheError::InvalidKey)));
    assert!(matches!(m.load_forced(&b"a/../..".to_vec()), Err(CacheError::InvalidKey)));
    assert!(matches!(m.load_persistent(&b"/abs".to_vec()), Err(CacheError::InvalidKey)));
    assert_eq!(counter.get(), 0);
}

#[test]
fn at_most_one_live_entry_per_key() {
    let (mut m, counter, _fail) = setup();
    let h1 = m.load_forced(&b"a.png".to_vec()).unwrap();
    let h2 = m.load_forced(&b"a.png".to_vec()).unwrap();
    let h3 = m.load_forced(&b"a.png".to_vec()).unwrap();
    assert_eq!(counter.get(), 3);
    // however many live resources exist for the key, lookups expose one
    let g1 = m.get(&b"a.png".to_vec()).unwrap();
    let g2 = m.get(&b"a.png".to_vec()).unwrap();
    assert_eq!(g1.id(), h3.id());
    assert_eq!(g2.id(), h3.id());
    assert_eq!(counter.get(), 3);
    m.release(h1);
    m.release(h2);
    m.release(h3);
    m.release(g1);
    m.release(g2);
}
