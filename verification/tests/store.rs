//! The shard, the LRU policy, the eviction passes, and the script
//! write-buffer.

use kv::config::EvictionType;
use kv::db::Storage;
use kv::db::eviction::EvictionPolicy;
use kv::db::eviction::LuaCacheNode;
use kv::db::eviction::MemoryCache;
use kv::db::eviction::MemoryCacheNode;
use kv::db::eviction::Transactional;
use kv::db::eviction::call_key_allowed;
use kv::db::eviction::eval_shard_indices;
use kv::db::eviction::eviction_alo::select_top_shards;
use kv::db::eviction::lru::lru_struct::LruNode;
use kv::types::Element;
use kv::types::Value;
use kv::types::ValueEntry;

fn entry(bytes: &[u8]) -> ValueEntry {
    ValueEntry::new(Value::Simple(Element::Str(bytes.to_vec())), None)
}

#[test]
fn entry_size_accounts_struct_and_heap() {
    let e = entry(b"abc");
    assert_eq!(e.get_size(), 48 + 3);
    let i = ValueEntry::new(Value::Simple(Element::Int(7)), None);
    assert_eq!(i.get_size(), 48);
    let l = ValueEntry::new(
        Value::List(vec![Element::Int(1), Element::Str(b"xy".to_vec())]),
        None,
    );
    assert_eq!(l.get_size(), 48 + 16 + 2 + 16);
}

#[test]
fn shard_accounting_follows_operations() {
    let mut shard = MemoryCacheNode::new(&EvictionType::LRU);
    assert_eq!(shard.get_memory_usage(), 0);
    shard.insert(b"a".to_vec(), entry(b"abc"));
    assert_eq!(shard.get_memory_usage(), 51);
    shard.insert(b"b".to_vec(), entry(b"x"));
    assert_eq!(shard.get_memory_usage(), 51 + 49);
    // Overwriting moves the counter by the signed delta.
    shard.insert(b"a".to_vec(), entry(b"abcdef"));
    assert_eq!(shard.get_memory_usage(), 54 + 49);
    shard.delete(&b"b".to_vec());
    assert_eq!(shard.get_memory_usage(), 54);
    shard.delete(&b"a".to_vec());
    assert_eq!(shard.get_memory_usage(), 0);
}

#[test]
fn shard_select_reads_and_expires() {
    let mut shard = MemoryCacheNode::new(&EvictionType::LRU);
    shard.insert(
        b"k".to_vec(),
        ValueEntry::new(Value::Simple(Element::Str(b"v".to_vec())), Some(100)),
    );
    // Alive at 100: the deadline itself is not yet past.
    assert!(shard.select_read(&b"k".to_vec(), 100).is_some());
    // Dead at 101 under a read guard: reported absent, left in place.
    assert!(shard.select_read(&b"k".to_vec(), 101).is_none());
    assert_eq!(shard.get_memory_usage(), 49);
    // Dead under a write guard: dropped.
    assert!(shard.select(&b"k".to_vec(), 101).is_none());
    assert_eq!(shard.get_memory_usage(), 0);
}

#[test]
fn lru_evicts_least_recently_used() {
    let mut policy = LruNode::new();
    policy.on_write(b"a".to_vec());
    policy.on_write(b"b".to_vec());
    policy.on_write(b"c".to_vec());
    policy.on_read(&b"a".to_vec());
    assert_eq!(policy.pop_victim(), Some(b"b".to_vec()));
    assert_eq!(policy.pop_victim(), Some(b"c".to_vec()));
    assert_eq!(policy.pop_victim(), Some(b"a".to_vec()));
    assert_eq!(policy.pop_victim(), None);
}

#[test]
fn lru_sampling_and_delete() {
    let mut policy = LruNode::new();
    assert_eq!(policy.get_random_sample_key(), None);
    policy.on_write(b"only".to_vec());
    assert_eq!(policy.get_random_sample_key(), Some(b"only".to_vec()));
    policy.on_delete(&b"only".to_vec());
    assert_eq!(policy.get_random_sample_key(), None);
}

#[test]
fn sample_victim_frees_entry() {
    let mut shard = MemoryCacheNode::new(&EvictionType::LRU);
    shard.insert(b"a".to_vec(), entry(b"aa"));
    shard.insert(b"b".to_vec(), entry(b"bbb"));
    let (victim, freed) = shard.sample_victim().unwrap();
    assert_eq!(victim, b"a".to_vec());
    assert_eq!(freed, 50);
    assert_eq!(shard.get_memory_usage(), 51);
}

#[test]
fn ttl_sweep_keeps_live_entries() {
    let mut storage = Storage::new(&EvictionType::LRU);
    let state = kv::context::ConnectionState::new_default();
    let cmd = kv::error::Command::SetCmd(kv::error::SetCommand {
        key: b"alive".to_vec(),
        value: b"v".to_vec(),
        expiration: None,
        condition: None,
    });
    let mut db = kv::db::Db { store: storage };
    let _ = kv::core_execute::execute_command_normal(
        &mut db,
        &state,
        &cmd,
        0,
        kv::error::IsAof::No,
    );
    storage = db.store;
    storage.eviction_ttl(1_000_000);
    let mut db = kv::db::Db { store: storage };
    let get = kv::error::Command::Get(kv::error::GetCommand { key: b"alive".to_vec() });
    let (resp, _) = kv::core_execute::execute_command_normal(
        &mut db,
        &state,
        &get,
        1_000_001,
        kv::error::IsAof::No,
    );
    assert_eq!(resp.serialize(), b"$1\r\nv\r\n".to_vec());
}

#[test]
fn ttl_sweep_drops_the_expired_entry() {
    // One populated shard with one dead key: the first probe must hit
    // it, so the pass ends with the keyspace empty.
    let mut storage = Storage::new(&EvictionType::LRU);
    let state = kv::context::ConnectionState::new_default();
    let mut db = kv::db::Db { store: storage };
    let cmd = kv::error::Command::SetCmd(kv::error::SetCommand {
        key: b"doomed".to_vec(),
        value: b"v".to_vec(),
        expiration: Some(kv::error::Expiration::PXAT(10)),
        condition: None,
    });
    let _ = kv::core_execute::execute_command_normal(
        &mut db,
        &state,
        &cmd,
        0,
        kv::error::IsAof::No,
    );
    storage = db.store;
    assert!(storage.get_global_memory_can_move(0));
    storage.eviction_ttl(100);
    assert!(!storage.get_global_memory_can_move(0));
}

#[test]
fn memory_pass_brings_keyspace_under_budget() {
    let mut storage = Storage::new(&EvictionType::LRU);
    let state = kv::context::ConnectionState::new_default();
    let mut db = kv::db::Db { store: storage };
    for key in [b"k1".to_vec(), b"k2".to_vec(), b"k3".to_vec()] {
        let cmd = kv::error::Command::SetCmd(kv::error::SetCommand {
            key,
            value: b"some value".to_vec(),
            expiration: None,
            condition: None,
        });
        let _ = kv::core_execute::execute_command_normal(
            &mut db,
            &state,
            &cmd,
            0,
            kv::error::IsAof::No,
        );
    }
    storage = db.store;
    assert!(storage.get_global_memory_can_move(0));
    let outcomes = storage.eviction_memory(0, 1000);
    assert!(!storage.get_global_memory_can_move(0));
    // The pass reports which shards it worked on.
    assert!(!outcomes.is_empty());
    for (d, s, _) in outcomes {
        assert!(d < 16 && s < 64);
    }
}

#[test]
fn top_shard_selection_orders_by_load() {
    let loads = vec![
        (5u128, 0usize, 1usize),
        (9u128, 1usize, 2usize),
        (9u128, 0usize, 7usize),
        (1u128, 2usize, 3usize),
        (7u128, 3usize, 4usize),
        (2u128, 1usize, 1usize),
        (8u128, 0usize, 0usize),
    ];
    let (picks, rest) = select_top_shards(loads);
    assert_eq!(picks.len(), 5);
    assert_eq!(rest.len(), 2);
    assert_eq!(picks[0], (9, 0, 7));
    assert_eq!(picks[1], (9, 1, 2));
    assert_eq!(picks[2], (8, 0, 0));
    assert_eq!(picks[3], (7, 3, 4));
    assert_eq!(picks[4], (5, 0, 1));
}

#[test]
fn shard_index_is_stable_and_in_range() {
    let a = MemoryCache::get_shard_index(&b"foo".to_vec());
    let b = MemoryCache::get_shard_index(&b"foo".to_vec());
    assert_eq!(a, b);
    assert!(a < 64);
}

#[test]
fn eval_shard_indices_sorted_and_unique() {
    let keys = vec![b"foo".to_vec(), b"bar".to_vec(), b"foo".to_vec()];
    let shards = eval_shard_indices(&keys);
    assert!(shards.len() <= 2);
    for w in shards.windows(2) {
        assert!(w[0] < w[1]);
    }
    assert!(call_key_allowed(&b"foo".to_vec(), &shards));
    assert!(call_key_allowed(&b"bar".to_vec(), &shards));
}

#[test]
fn call_outside_declared_shards_is_refused() {
    let locked = eval_shard_indices(&Vec::new());
    assert!(locked.is_empty());
    assert!(!call_key_allowed(&b"anything".to_vec(), &locked));
}

#[test]
fn overlay_reads_its_own_writes_and_commits_atomically() {
    let mut shard = MemoryCacheNode::new(&EvictionType::LRU);
    shard.insert(b"kept".to_vec(), entry(b"old"));
    shard.insert(b"gone".to_vec(), entry(b"bye"));
    let mut overlay = LuaCacheNode::new(3);
    assert_eq!(overlay.shard_index, 3);
    // Overlay reads fall through to the shard before any writes.
    assert!(overlay.select(&b"kept".to_vec(), &mut shard, 0).is_some());
    overlay.insert(b"new".to_vec(), entry(b"n"));
    overlay.delete(&b"gone".to_vec());
    // The overlay sees its own writes; the shard does not, yet.
    assert!(overlay.select(&b"new".to_vec(), &mut shard, 0).is_some());
    assert!(overlay.select(&b"gone".to_vec(), &mut shard, 0).is_none());
    assert!(shard.select_read(&b"new".to_vec(), 0).is_none());
    assert!(shard.select_read(&b"gone".to_vec(), 0).is_some());
    // Commit applies everything in one piece.
    overlay.commit(&mut shard);
    assert!(shard.select_read(&b"new".to_vec(), 0).is_some());
    assert!(shard.select_read(&b"gone".to_vec(), 0).is_none());
    assert!(shard.select_read(&b"kept".to_vec(), 0).is_some());
}

#[test]
fn global_memory_threshold() {
    let storage = Storage::new(&EvictionType::LRU);
    assert!(!storage.get_global_memory_can_move(0));
}
