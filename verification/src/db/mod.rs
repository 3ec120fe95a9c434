//! The keyspace: sixteen logical databases of shards.

use vstd::prelude::*;
use crate::config::EvictionType;
use crate::db::eviction::MemoryCache;
use crate::db::eviction::MemoryCacheNode;
use crate::db::eviction::NUM_SHARDS;
use crate::types::EntryV;

pub mod eviction;

verus! {

broadcast use vstd::std_specs::vec::group_vec_axioms, vstd::seq::group_seq_axioms;

/// How many logical databases the keyspace holds.
pub const NUM_DATABASES: usize = 16;

/// The whole keyspace.
pub struct Storage {
    pub store: Vec<MemoryCache>,
}

/// The top-level handle around the keyspace.
pub struct Db {
    pub store: Storage,
}

/// The memory accounted by a run of shards.
pub open spec fn shards_memory(s: Seq<MemoryCacheNode>) -> int
    decreases s.len(),
{
    if s.len() == 0 {
        0
    } else {
        shards_memory(s.drop_last()) + s.last().approx_memory
    }
}

/// The memory accounted by a run of databases.
pub open spec fn caches_memory(s: Seq<MemoryCache>) -> int
    decreases s.len(),
{
    if s.len() == 0 {
        0
    } else {
        caches_memory(s.drop_last()) + shards_memory(s.last().message@)
    }
}

/// Partial sums of shard memory never decrease as shards are added.
pub proof fn lemma_shards_memory_nonneg(s: Seq<MemoryCacheNode>)
    ensures
        shards_memory(s) >= 0,
    decreases s.len(),
{
    if s.len() > 0 {
        lemma_shards_memory_nonneg(s.drop_last());
    }
}

/// A positive shard total names a shard that holds bytes.
pub proof fn lemma_shards_memory_witness(s: Seq<MemoryCacheNode>)
    requires
        shards_memory(s) > 0,
    ensures
        exists|i: int| 0 <= i < s.len() && (#[trigger] s[i]).approx_memory > 0,
    decreases s.len(),
{
    if s.last().approx_memory > 0 {
        assert(s[s.len() - 1].approx_memory > 0);
    } else {
        lemma_shards_memory_witness(s.drop_last());
        let i = choose|i: int|
            0 <= i < s.drop_last().len() && (#[trigger] s.drop_last()[i]).approx_memory > 0;
        assert(s[i].approx_memory > 0);
    }
}

/// A positive keyspace total names a database that holds bytes.
pub proof fn lemma_caches_memory_witness(s: Seq<MemoryCache>)
    requires
        caches_memory(s) > 0,
    ensures
        exists|d: int| 0 <= d < s.len() && shards_memory((#[trigger] s[d]).message@) > 0,
    decreases s.len(),
{
    if shards_memory(s.last().message@) > 0 {
        assert(shards_memory(s[s.len() - 1].message@) > 0);
    } else {
        lemma_caches_memory_witness(s.drop_last());
        let d = choose|d: int|
            0 <= d < s.drop_last().len() && shards_memory(
                (#[trigger] s.drop_last()[d]).message@,
            ) > 0;
        assert(shards_memory(s[d].message@) > 0);
    }
}

/// The memory of a prefix of shards is part of the whole.
proof fn lemma_shards_memory_prefix(s: Seq<MemoryCacheNode>, i: int)
    requires
        0 <= i <= s.len(),
    ensures
        shards_memory(s.subrange(0, i)) <= shards_memory(s),
        i < s.len() ==> shards_memory(s.subrange(0, i + 1)) == shards_memory(s.subrange(0, i))
            + s[i].approx_memory,
    decreases s.len() - i,
{
    if i < s.len() {
        assert(s.subrange(0, i + 1).drop_last() =~= s.subrange(0, i));
        assert(s.subrange(0, i + 1).last() == s[i]);
        lemma_shards_memory_prefix(s, i + 1);
    } else {
        assert(s.subrange(0, i) =~= s);
    }
}

/// The memory of a prefix of databases is part of the whole.
proof fn lemma_caches_memory_prefix(s: Seq<MemoryCache>, i: int)
    requires
        0 <= i <= s.len(),
    ensures
        caches_memory(s.subrange(0, i)) <= caches_memory(s),
        i < s.len() ==> caches_memory(s.subrange(0, i + 1)) == caches_memory(s.subrange(0, i))
            + shards_memory(s[i].message@),
    decreases s.len() - i,
{
    if i < s.len() {
        assert(s.subrange(0, i + 1).drop_last() =~= s.subrange(0, i));
        assert(s.subrange(0, i + 1).last() == s[i]);
        lemma_shards_memory_nonneg(s[i].message@);
        lemma_caches_memory_prefix(s, i + 1);
    } else {
        assert(s.subrange(0, i) =~= s);
    }
}

impl Storage {
    /// Sixteen databases, each of well-formed shards.
    pub open spec fn wf(self) -> bool {
        &&& self.store@.len() == NUM_DATABASES
        &&& forall|d: int| 0 <= d < self.store@.len() ==> (#[trigger] self.store@[d]).wf()
    }

    /// The mapping of one shard.
    pub open spec fn shard_map(self, d: int, s: int) -> Map<Seq<u8>, EntryV> {
        self.store@[d].shard_map(s)
    }

    /// The memory the whole keyspace accounts for.
    pub open spec fn total_memory(self) -> int {
        caches_memory(self.store@)
    }

    /// A fresh, empty keyspace.
    pub fn new(config_type: &EvictionType) -> (r: Storage)
        requires
            config_type is LRU,
        ensures
            r.wf(),
            forall|d: int, s: int|
                0 <= d < NUM_DATABASES && 0 <= s < NUM_SHARDS ==> #[trigger] r.shard_map(d, s)
                    == Map::<Seq<u8>, EntryV>::empty(),
    {
        let mut store: Vec<MemoryCache> = Vec::new();
        let mut i: usize = 0;
        while i < NUM_DATABASES
            invariant
                i <= NUM_DATABASES,
                store@.len() == i,
                config_type is LRU,
                forall|j: int| 0 <= j < i ==> (#[trigger] store@[j]).wf(),
                forall|j: int, s: int|
                    0 <= j < i && 0 <= s < NUM_SHARDS ==> #[trigger] store@[j].shard_map(s)
                        == Map::<Seq<u8>, EntryV>::empty(),
            decreases NUM_DATABASES - i,
        {
            store.push(MemoryCache::new(config_type));
            i = i + 1;
        }
        Storage { store }
    }

    /// Does the keyspace account for more than `max_size` bytes? Walks
    /// the shards and stops as soon as the threshold is crossed.
    pub fn get_global_memory_can_move(&self, max_size: u128) -> (r: bool)
        requires
            self.wf(),
        ensures
            r == (self.total_memory() > max_size),
    {
        let mut acc: u128 = 0;
        let mut d: usize = 0;
        proof {
            lemma_caches_memory_prefix(self.store@, 0);
            assert(self.store@.subrange(0, 0) =~= Seq::<MemoryCache>::empty());
        }
        while d < NUM_DATABASES
            invariant
                self.wf(),
                d <= NUM_DATABASES,
                acc == caches_memory(self.store@.subrange(0, d as int)),
                acc <= max_size,
            decreases NUM_DATABASES - d,
        {
            let cache = &self.store[d];
            let mut s: usize = 0;
            let ghost base = acc as int;
            proof {
                lemma_shards_memory_prefix(cache.message@, 0);
                assert(cache.message@.subrange(0, 0) =~= Seq::<MemoryCacheNode>::empty());
            }
            while s < cache.message.len()
                invariant
                    self.wf(),
                    d < NUM_DATABASES,
                    cache == &self.store@[d as int],
                    s <= cache.message@.len(),
                    acc == base + shards_memory(cache.message@.subrange(0, s as int)),
                    acc <= max_size,
                    base == caches_memory(self.store@.subrange(0, d as int)),
                decreases cache.message@.len() - s,
            {
                let m = cache.message[s].get_memory_usage();
                proof {
                    lemma_shards_memory_prefix(cache.message@, s as int);
                }
                if max_size - acc < m {
                    proof {
                        lemma_shards_memory_prefix(cache.message@, s + 1 as int);
                        lemma_caches_memory_prefix(self.store@, d as int);
                        assert(shards_memory(cache.message@.subrange(0, s + 1 as int))
                            <= shards_memory(cache.message@));
                        assert(caches_memory(self.store@.subrange(0, d + 1 as int))
                            == caches_memory(self.store@.subrange(0, d as int)) + shards_memory(
                            cache.message@,
                        ));
                        assert(caches_memory(self.store@.subrange(0, d + 1 as int))
                            <= self.total_memory()) by {
                            lemma_caches_memory_prefix(self.store@, d + 1 as int);
                        }
                    }
                    return true;
                }
                acc = acc + m;
                s = s + 1;
            }
            proof {
                assert(cache.message@.subrange(0, cache.message@.len() as int)
                    =~= cache.message@);
                lemma_caches_memory_prefix(self.store@, d as int);
            }
            d = d + 1;
        }
        proof {
            assert(self.store@.subrange(0, NUM_DATABASES as int) =~= self.store@);
        }
        false
    }
}

impl Db {
    /// A fresh keyspace behind the handle.
    pub fn new(config_type: &EvictionType) -> (r: Db)
        requires
            config_type is LRU,
        ensures
            r.store.wf(),
            forall|d: int, s: int|
                0 <= d < NUM_DATABASES && 0 <= s < NUM_SHARDS ==> #[trigger] r.store.shard_map(
                    d,
                    s,
                ) == Map::<Seq<u8>, EntryV>::empty(),
    {
        Db { store: Storage::new(config_type) }
    }
}

} // verus!
