use memento::connection::MementoPool;
use memento::server::{abs, hash, CacheError, MementoStash};
use memento::stash::Stash;

#[test]
fn add_then_get_returns_value() {
    let mut shard = Stash::new();
    shard.add("a".to_string(), "1".to_string());
    assert_eq!(shard.get("a".to_string()), Some("1".to_string()));
}

#[test]
fn add_overwrites_not_appends() {
    let mut shard = Stash::new();
    shard.add("a".to_string(), "1".to_string());
    shard.add("a".to_string(), "2".to_string());
    assert_eq!(shard.get("a".to_string()), Some("2".to_string()));
}

#[test]
fn miss_returns_nothing() {
    let mut shard = Stash::new();
    assert_eq!(shard.get("absent".to_string()), None);
    shard.add("a".to_string(), "1".to_string());
    assert_eq!(shard.get("b".to_string()), None);
}

#[test]
fn untouched_key_evicted_after_five_sweeps() {
    let mut shard = Stash::new();
    shard.add("victim".to_string(), "v".to_string());
    // 24 further writes: 25 writes in all, so five sweeps fire with no
    // touch on the victim, whose age then reaches five.
    for i in 0..24 {
        shard.add(format!("filler{}", i), "x".to_string());
    }
    assert_eq!(shard.get("victim".to_string()), None);
}

#[test]
fn touched_key_survives_sweeps() {
    let mut shard = Stash::new();
    shard.add("victim".to_string(), "v".to_string());
    // 19 further writes: four sweeps fire, the victim ages to four.
    for i in 0..19 {
        shard.add(format!("filler{}", i), "x".to_string());
    }
    // Reading the key resets its age before the fifth sweep.
    assert_eq!(shard.get("victim".to_string()), Some("v".to_string()));
    // Four more sweeps: the victim, refreshed, is still there.
    for i in 19..39 {
        shard.add(format!("filler{}", i), "x".to_string());
    }
    assert_eq!(shard.get("victim".to_string()), Some("v".to_string()));
}

#[test]
fn fresh_key_survives_the_sweep_its_write_triggers() {
    let mut shard = Stash::new();
    for i in 0..4 {
        shard.add(format!("filler{}", i), "x".to_string());
    }
    // The fifth write triggers a sweep; the binding it creates ages to one
    // and survives.
    shard.add("fresh".to_string(), "v".to_string());
    assert_eq!(shard.get("fresh".to_string()), Some("v".to_string()));
}

#[test]
fn hash_exact_values() {
    assert_eq!(hash(""), 0);
    assert_eq!(hash("a"), 97);
    // Bytes 97 and 98 sum to 195; their single adjacent pair differs by 1.
    assert_eq!(hash("ab"), 196);
    // 114 + 101 + 110 + 111 = 436; pair differences 13 + 9 + 1 = 23.
    assert_eq!(hash("reno"), 459);
}

#[test]
fn hash_deterministic_for_routing() {
    let n = 4;
    assert_eq!(hash("reno") % n, hash("reno") % n);
    assert_eq!(hash("a") % n, hash("a") % n);
}

#[test]
fn abs_both_signs() {
    assert_eq!(abs(-5), 5);
    assert_eq!(abs(5), 5);
    assert_eq!(abs(0), 0);
}

#[test]
fn router_add_and_get() {
    let mut db = MementoStash::new(4);
    assert_eq!(db.add("a".to_string(), "1".to_string()), Ok(()));
    assert_eq!(db.get("a".to_string()), Ok(Some("1".to_string())));
}

#[test]
fn router_distinct_shards_hold_their_own_writes() {
    // "a" and "b" hash to 97 and 98: distinct shards out of four.
    let mut db = MementoStash::new(4);
    assert_eq!(db.add("a".to_string(), "alpha".to_string()), Ok(()));
    assert_eq!(db.add("b".to_string(), "beta".to_string()), Ok(()));
    assert_eq!(db.get("a".to_string()), Ok(Some("alpha".to_string())));
    assert_eq!(db.get("b".to_string()), Ok(Some("beta".to_string())));
}

#[test]
fn router_counts_writes_per_shard() {
    // Sweeps are per shard: 25 writes against one shard evict its untouched
    // key, while a key on another shard keeps its value.
    let mut db = MementoStash::new(4);
    // hash("a") == 97: shard 1. hash("b") == 98: shard 2.
    db.add("a".to_string(), "bystander".to_string()).unwrap();
    db.add("b".to_string(), "victim".to_string()).unwrap();
    for i in 0..24u8 {
        // hash("aX") == 97 + X + (97 - X) == 194 for any uppercase X:
        // every filler lands on shard 2 with the victim.
        let k = format!("a{}", (b'A' + i) as char);
        db.add(k, "x".to_string()).unwrap();
    }
    // Five sweeps of shard 2 passed over the untouched victim.
    assert_eq!(db.get("b".to_string()), Ok(None));
    // Shard 1 saw one write and no sweep.
    assert_eq!(db.get("a".to_string()), Ok(Some("bystander".to_string())));
}

#[test]
fn router_miss_is_ok_none() {
    let mut db = MementoStash::new(4);
    assert_eq!(db.get("absent".to_string()), Ok(None));
}

#[test]
fn router_rejects_empty_key() {
    let mut db = MementoStash::new(4);
    assert_eq!(db.add(String::new(), "v".to_string()), Err(CacheError::InvalidKey));
    assert_eq!(db.get(String::new()), Err(CacheError::InvalidKey));
}

#[test]
fn pool_records_address_and_port() {
    let pool = MementoPool::connect("127.0.0.1", 7366);
    assert_eq!(pool.address(), "127.0.0.1");
    assert_eq!(pool.port(), 7366);
}
