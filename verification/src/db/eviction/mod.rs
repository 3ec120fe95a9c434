//! Shards, their eviction policy, and the script write-buffer.

use vstd::prelude::*;
use rand::Rng;
use crate::bytes_util::bytes_eq;
use crate::bytes_util::slice_to_vec8;
use crate::config::EvictionType;
use crate::db::eviction::lru::lru_struct::LruNode;
use crate::types::EntryV;
use crate::types::ValueEntry;

pub mod eviction_alo;
pub mod lru;

verus! {

broadcast use vstd::std_specs::vec::group_vec_axioms, vstd::seq::group_seq_axioms;

/// How many shards each database is split into.
pub const NUM_SHARDS: usize = 64;

/// Relies on `rand::Rng::gen_range` over `0..n`: a uniformly random
/// index below `n`. The range must not be empty.
#[verifier::external_body]
pub fn rand_index(n: usize) -> (r: usize)
    requires
        n >= 1,
    ensures
        r < n,
{
    rand::thread_rng().gen_range(0..n)
}

/// What an eviction policy must do: track exactly the live keys of its
/// shard, keep them ranked for eviction, hand out members for sampling,
/// and evict the front of its own ranking. How the ranking moves on a
/// write or a read is the policy's own business, but it must say so
/// through `write_order` and `read_order`.
pub trait EvictionPolicy: Sized {
    /// The policy's internal invariant.
    spec fn inv(&self) -> bool;

    /// The set of keys the policy currently tracks.
    spec fn tracked_keys(&self) -> Set<Seq<u8>>;

    /// The keys in the order the policy would evict them, next victim
    /// first.
    spec fn order(&self) -> Seq<Seq<u8>>;

    /// Where the ranking stands after `on_write(key)`.
    spec fn write_order(&self, key: Seq<u8>) -> Seq<Seq<u8>>;

    /// Where the ranking stands after `on_read(key)`.
    spec fn read_order(&self, key: Seq<u8>) -> Seq<Seq<u8>>;

    /// Record or refresh a key on a write.
    fn on_write(&mut self, key: Vec<u8>)
        requires
            old(self).inv(),
        ensures
            final(self).inv(),
            final(self).tracked_keys() == old(self).tracked_keys().insert(key@),
            final(self).order() == old(self).write_order(key@),
    ;

    /// Mark a key as recently used on a read.
    fn on_read(&mut self, key: &Vec<u8>)
        requires
            old(self).inv(),
        ensures
            final(self).inv(),
            final(self).tracked_keys() == old(self).tracked_keys(),
            final(self).order() == old(self).read_order(key@),
    ;

    /// Forget a key.
    fn on_delete(&mut self, key: &Vec<u8>)
        requires
            old(self).inv(),
        ensures
            final(self).inv(),
            final(self).tracked_keys() == old(self).tracked_keys().remove(key@),
            final(self).order() == crate::db::eviction::lru::lru_linklist::remove_first(
                old(self).order(),
                key@,
            ),
    ;

    /// One tracked key, chosen at random; `None` exactly when nothing is
    /// tracked.
    fn get_random_sample_key(&self) -> (r: Option<Vec<u8>>)
        requires
            self.inv(),
        ensures
            match r {
                Some(k) => self.tracked_keys().contains(k@),
                None => self.tracked_keys() == Set::<Seq<u8>>::empty(),
            },
    ;

    /// Remove and return the key the policy recommends evicting next:
    /// the front of its ranking. `None` exactly when nothing is tracked.
    fn pop_victim(&mut self) -> (r: Option<Vec<u8>>)
        requires
            old(self).inv(),
        ensures
            final(self).inv(),
            match r {
                Some(k) => {
                    &&& old(self).tracked_keys().contains(k@)
                    &&& final(self).tracked_keys() == old(self).tracked_keys().remove(k@)
                    &&& old(self).order().len() > 0
                    &&& k@ == old(self).order()[0]
                    &&& final(self).order() == old(self).order().drop_first()
                },
                None => old(self).tracked_keys() == Set::<Seq<u8>>::empty()
                    && final(self).tracked_keys() == old(self).tracked_keys()
                    && final(self).order() == old(self).order(),
            },
    ;
}

/// A record the background sweeper can carry around: a key and the
/// deadline it was seen with.
pub struct TtlEntry {
    pub expires_at: u64,
    pub key: Vec<u8>,
}

/// The keys of a shard's store, in slot order.
pub open spec fn store_keys(s: Seq<(Vec<u8>, ValueEntry)>) -> Seq<Seq<u8>> {
    Seq::new(s.len(), |i: int| s[i].0@)
}

/// The mapping a shard's store denotes.
pub open spec fn store_map(s: Seq<(Vec<u8>, ValueEntry)>) -> Map<Seq<u8>, EntryV>
    decreases s.len(),
{
    if s.len() == 0 {
        Map::empty()
    } else {
        store_map(s.drop_last()).insert(s.last().0@, s.last().1@)
    }
}

/// The bytes the entries of a shard's store account for.
pub open spec fn sum_sizes(s: Seq<(Vec<u8>, ValueEntry)>) -> int
    decreases s.len(),
{
    if s.len() == 0 {
        0
    } else {
        sum_sizes(s.drop_last()) + s.last().1.data_size
    }
}

/// A key is in the denoted mapping exactly when some slot holds it.
pub proof fn lemma_store_map_dom(s: Seq<(Vec<u8>, ValueEntry)>)
    ensures
        forall|k: Seq<u8>|
            #[trigger] store_map(s).dom().contains(k) <==> store_keys(s).contains(k),
    decreases s.len(),
{
    if s.len() > 0 {
        lemma_store_map_dom(s.drop_last());
        let pre = s.drop_last();
        assert forall|k: Seq<u8>| #[trigger]
            store_map(s).dom().contains(k) <==> store_keys(s).contains(k) by {
            if store_map(s).dom().contains(k) {
                if k == s.last().0@ {
                    assert(store_keys(s).contains(k)) by {
                        assert(store_keys(s)[s.len() - 1] == k);
                    }
                } else {
                    assert(store_map(pre).dom().contains(k));
                    assert(store_keys(pre).contains(k));
                    let i = choose|i: int|
                        0 <= i < store_keys(pre).len() && store_keys(pre)[i] == k;
                    assert(store_keys(s)[i] == k);
                    assert(store_keys(s).contains(k)) by {
                        assert(store_keys(s)[i] == k);
                    }
                }
            }
            if store_keys(s).contains(k) {
                let i = choose|i: int| 0 <= i < store_keys(s).len() && store_keys(s)[i] == k;
                if i == s.len() - 1 {
                    assert(store_map(s).dom().contains(k));
                } else {
                    assert(store_keys(pre).contains(k)) by {
                        assert(store_keys(pre)[i] == k);
                    }
                    assert(store_map(pre).dom().contains(k));
                }
            }
        }
    }
}

/// Under unique keys, slot `i` gives the mapping's value at its key.
pub proof fn lemma_store_map_index(s: Seq<(Vec<u8>, ValueEntry)>, i: int)
    requires
        crate::db::eviction::lru::lru_linklist::unique_keys(store_keys(s)),
        0 <= i < s.len(),
    ensures
        store_map(s).dom().contains(s[i].0@),
        store_map(s)[s[i].0@] == s[i].1@,
    decreases s.len(),
{
    if i == s.len() - 1 {
    } else {
        let pre = s.drop_last();
        assert(crate::db::eviction::lru::lru_linklist::unique_keys(store_keys(pre))) by {
            assert(forall|a: int, b: int|
                0 <= a < b < store_keys(pre).len() ==> store_keys(pre)[a] == store_keys(s)[a]
                    && store_keys(pre)[b] == store_keys(s)[b]);
        }
        assert(pre[i] == s[i]);
        lemma_store_map_index(pre, i);
        assert(store_keys(s)[i] != store_keys(s)[s.len() - 1]);
        assert(s[i].0@ != s.last().0@);
    }
}

/// Removing slot `i` removes exactly its key from the mapping.
pub proof fn lemma_store_map_remove(s: Seq<(Vec<u8>, ValueEntry)>, i: int)
    requires
        crate::db::eviction::lru::lru_linklist::unique_keys(store_keys(s)),
        0 <= i < s.len(),
    ensures
        store_map(s.remove(i)) == store_map(s).remove(s[i].0@),
        sum_sizes(s.remove(i)) == sum_sizes(s) - s[i].1.data_size,
    decreases s.len(),
{
    let pre = s.drop_last();
    assert(crate::db::eviction::lru::lru_linklist::unique_keys(store_keys(pre))) by {
        assert(forall|a: int, b: int|
            0 <= a < b < store_keys(pre).len() ==> store_keys(pre)[a] == store_keys(s)[a]
                && store_keys(pre)[b] == store_keys(s)[b]);
    }
    if i == s.len() - 1 {
        assert(s.remove(i) =~= pre);
        lemma_store_map_dom(pre);
        assert(!store_keys(pre).contains(s[i].0@)) by {
            if store_keys(pre).contains(s[i].0@) {
                let j = choose|j: int|
                    0 <= j < store_keys(pre).len() && store_keys(pre)[j] == s[i].0@;
                assert(store_keys(s)[j] == store_keys(s)[s.len() - 1]);
            }
        }
        assert(!store_map(pre).dom().contains(s[i].0@));
        assert(store_map(s).remove(s[i].0@) =~= store_map(pre));
    } else {
        lemma_store_map_remove(pre, i);
        assert(s.remove(i).drop_last() =~= pre.remove(i));
        assert(s.remove(i).last() == s.last());
        assert(store_map(s.remove(i)) == store_map(pre.remove(i)).insert(
            s.last().0@,
            s.last().1@,
        ));
        assert(s[i].0@ != s.last().0@) by {
            assert(store_keys(s)[i] != store_keys(s)[s.len() - 1]);
        }
        assert(pre[i] == s[i]);
        assert(store_map(pre).remove(s[i].0@).insert(s.last().0@, s.last().1@)
            =~= store_map(pre).insert(s.last().0@, s.last().1@).remove(s[i].0@));
        assert(sum_sizes(s.remove(i)) == sum_sizes(pre.remove(i)) + s.last().1.data_size);
    }
}

/// Every slot's size is part of the sum, and the sum stays within the
/// slot count times the largest slot.
pub proof fn lemma_sum_sizes_bounds(s: Seq<(Vec<u8>, ValueEntry)>)
    ensures
        0 <= sum_sizes(s) <= s.len() * (usize::MAX as int),
        forall|i: int| 0 <= i < s.len() ==> #[trigger] s[i].1.data_size <= sum_sizes(s),
    decreases s.len(),
{
    if s.len() == 0 {
    } else {
        let pre = s.drop_last();
        lemma_sum_sizes_bounds(pre);
        assert(sum_sizes(s) == sum_sizes(pre) + s.last().1.data_size);
        assert(sum_sizes(pre) + s.last().1.data_size <= s.len() * (usize::MAX as int)) by (
        nonlinear_arith)
            requires
                sum_sizes(pre) <= (s.len() - 1) * (usize::MAX as int),
                s.last().1.data_size <= usize::MAX as int,
                s.len() >= 1,
        ;
        assert(forall|i: int|
            0 <= i < s.len() - 1 ==> #[trigger] s[i].1.data_size == pre[i].1.data_size);
    }
}

/// One lock-partitioned slice of a database: the entries, their total
/// memory cost, and the eviction policy over the same keys.
pub struct MemoryCacheNode {
    pub db_store: Vec<(Vec<u8>, ValueEntry)>,
    pub approx_memory: u128,
    pub eviction: LruNode,
}

/// Is the entry dead at time `now_ms`?
pub open spec fn entry_expired(e: EntryV, now_ms: u64) -> bool {
    e.expires_at matches Some(d) && now_ms > d
}

/// What a reader sees under `key` at time `now_ms`: the entry when it is
/// present and not past its deadline, nothing otherwise.
pub open spec fn live_entry(m: Map<Seq<u8>, EntryV>, key: Seq<u8>, now_ms: u64) -> Option<EntryV> {
    if m.dom().contains(key) && !entry_expired(m[key], now_ms) {
        Some(m[key])
    } else {
        None
    }
}

impl MemoryCacheNode {
    /// The mapping this shard holds.
    pub open spec fn map_view(self) -> Map<Seq<u8>, EntryV> {
        store_map(self.db_store@)
    }

    /// The shard invariant: no key twice, the memory counter is exactly
    /// the sum of the stored sizes, and the policy tracks exactly the
    /// stored keys.
    pub open spec fn wf(self) -> bool {
        &&& crate::db::eviction::lru::lru_linklist::unique_keys(store_keys(self.db_store@))
        &&& self.approx_memory == sum_sizes(self.db_store@)
        &&& self.eviction.inv()
        &&& forall|k: Seq<u8>|
            #[trigger] self.eviction.tracked_keys().contains(k) <==> self.map_view().dom().contains(
                k,
            )
    }

    /// An empty shard.
    pub fn new(config_type: &EvictionType) -> (r: MemoryCacheNode)
        requires
            config_type is LRU,
        ensures
            r.wf(),
            r.map_view() == Map::<Seq<u8>, EntryV>::empty(),
            r.approx_memory == 0,
    {
        let r = MemoryCacheNode {
            db_store: Vec::new(),
            approx_memory: 0,
            eviction: LruNode::new(),
        };
        proof {
            lemma_store_map_dom(r.db_store@);
            assert(r.map_view() =~= Map::<Seq<u8>, EntryV>::empty());
            assert(r.eviction.tracked_keys() =~= Set::<Seq<u8>>::empty());
            assert forall|k: Seq<u8>| #[trigger]
                r.eviction.tracked_keys().contains(k) <==> r.map_view().dom().contains(k) by {
                assert(!r.eviction.list@.contains(k));
            }
        }
        r
    }

    /// The slot holding `key`, if any.
    fn find_slot(&self, key: &Vec<u8>) -> (r: Option<usize>)
        ensures
            match r {
                Some(i) => i < self.db_store@.len() && self.db_store@[i as int].0@ == key@,
                None => !store_keys(self.db_store@).contains(key@),
            },
    {
        let n = self.db_store.len();
        let mut i: usize = 0;
        while i < n
            invariant
                i <= n,
                n == self.db_store@.len(),
                forall|j: int| 0 <= j < i ==> store_keys(self.db_store@)[j] != key@,
            decreases n - i,
        {
            if bytes_eq(&self.db_store[i].0, key) {
                return Some(i);
            }
            assert(store_keys(self.db_store@)[i as int] != key@);
            i = i + 1;
        }
        assert(!store_keys(self.db_store@).contains(key@)) by {
            if store_keys(self.db_store@).contains(key@) {
                let j = choose|j: int|
                    0 <= j < store_keys(self.db_store@).len() && store_keys(self.db_store@)[j]
                        == key@;
            }
        }
        None
    }

    /// How much memory this shard accounts for.
    pub fn get_memory_usage(&self) -> (r: u128)
        ensures
            r == self.approx_memory,
    {
        self.approx_memory
    }

    /// Write `value` under `key`: refresh the policy, store the entry,
    /// and move the memory counter by the signed size delta. The write
    /// moves the key to the back of the eviction ranking.
    pub fn insert(&mut self, key: Vec<u8>, value: ValueEntry)
        requires
            old(self).wf(),
        ensures
            final(self).wf(),
            final(self).map_view() == old(self).map_view().insert(key@, value@),
            final(self).approx_memory == old(self).approx_memory - (
            if old(self).map_view().dom().contains(key@) {
                old(self).map_view()[key@].data_size as int
            } else {
                0
            }) + value.data_size,
            final(self).eviction.order() == old(self).eviction.write_order(key@),
    {
        let ghost pre = self.db_store@;
        let kcopy = slice_to_vec8(key.as_slice());
        self.eviction.on_write(kcopy);
        proof {
            lemma_sum_sizes_bounds(pre);
            lemma_store_map_dom(pre);
        }
        match self.find_slot(&key) {
            Some(i) => {
                proof {
                    lemma_store_map_index(pre, i as int);
                    lemma_store_map_remove(pre, i as int);
                    lemma_sum_sizes_bounds(pre.remove(i as int));
                }
                let old_size = self.db_store[i].1.data_size;
                let vsize = value.data_size;
                let _ = self.db_store.remove(i);
                let mid_len = self.db_store.len();
                let ghost mid = self.db_store@;
                self.db_store.push((key, value));
                proof {
                    assert(self.db_store@.drop_last() =~= mid);
                    assert(usize::MAX <= u64::MAX);
                    assert(sum_sizes(mid) + vsize < u128::MAX) by (nonlinear_arith)
                        requires
                            0 <= sum_sizes(mid) <= mid.len() * (usize::MAX as int),
                            mid.len() == mid_len,
                            mid_len <= usize::MAX as int,
                            usize::MAX <= u64::MAX,
                            vsize <= usize::MAX as int,
                    ;
                }
                self.approx_memory = self.approx_memory - (old_size as u128) + (vsize as u128);
                proof {
                    lemma_insert_shape(pre, mid, self.db_store@, i as int);
                }
            },
            None => {
                proof {
                    assert(!store_map(pre).dom().contains(key@));
                }
                let vsize = value.data_size;
                let pre_len = self.db_store.len();
                self.db_store.push((key, value));
                proof {
                    assert(self.db_store@.drop_last() =~= pre);
                    assert(sum_sizes(pre) + vsize < u128::MAX) by (nonlinear_arith)
                        requires
                            0 <= sum_sizes(pre) <= pre.len() * (usize::MAX as int),
                            pre.len() == pre_len,
                            pre_len <= usize::MAX as int,
                            usize::MAX <= u64::MAX,
                            vsize <= usize::MAX as int,
                    ;
                    assert(usize::MAX <= u64::MAX);
                }
                self.approx_memory = self.approx_memory + (vsize as u128);
                proof {
                    lemma_push_shape(pre, self.db_store@);
                }
            },
        }
    }

    /// Read `key` under a write guard: refresh the policy; drop the
    /// entry and report a miss when it is past its deadline.
    pub fn select(&mut self, key: &Vec<u8>, now_ms: u64) -> (r: Option<ValueEntry>)
        requires
            old(self).wf(),
        ensures
            final(self).wf(),
            match live_entry(old(self).map_view(), key@, now_ms) {
                Some(e) => {
                    &&& r matches Some(v)
                    &&& r matches Some(v) ==> v@ == e
                    &&& final(self).map_view() == old(self).map_view()
                    &&& final(self).approx_memory == old(self).approx_memory
                    &&& final(self).eviction.order() == old(self).eviction.read_order(key@)
                },
                None => {
                    &&& r is None
                    &&& final(self).map_view() == old(self).map_view().remove(key@)
                    &&& final(self).eviction.order()
                        == crate::db::eviction::lru::lru_linklist::remove_first(
                        old(self).eviction.read_order(key@),
                        key@,
                    )
                },
            },
    {
        let ghost pre = self.db_store@;
        self.eviction.on_read(key);
        match self.find_slot(key) {
            None => {
                proof {
                    lemma_store_map_dom(pre);
                    assert(self.map_view().remove(key@) =~= self.map_view());
                    assert(!self.eviction.order().contains(key@)) by {
                        if self.eviction.order().contains(key@) {
                            assert(self.eviction.tracked_keys().contains(key@));
                        }
                    }
                    crate::db::eviction::lru::lru_linklist::lemma_remove_first(
                        self.eviction.order(),
                        key@,
                    );
                }
                None
            },
            Some(i) => {
                proof {
                    lemma_store_map_index(pre, i as int);
                }
                let expired = match self.db_store[i].1.expires_at {
                    Some(deadline) => now_ms > deadline,
                    None => false,
                };
                if expired {
                    proof {
                        lemma_store_map_remove(pre, i as int);
                        lemma_sum_sizes_bounds(pre);
                    }
                    self.eviction.on_delete(key);
                    let entry = self.db_store.remove(i);
                    self.approx_memory = self.approx_memory - (entry.1.data_size as u128);
                    proof {
                        lemma_remove_shape(pre, self.db_store@, i as int);
                    }
                    None
                } else {
                    let out = clone_entry(&self.db_store[i].1);
                    Some(out)
                }
            },
        }
    }

    /// Read `key` under a read guard: report a miss when the entry is
    /// past its deadline, and change nothing.
    pub fn select_read(&self, key: &Vec<u8>, now_ms: u64) -> (r: Option<&ValueEntry>)
        requires
            self.wf(),
        ensures
            match live_entry(self.map_view(), key@, now_ms) {
                Some(e) => r matches Some(v) && (r matches Some(v) ==> v@ == e),
                None => r is None,
            },
    {
        let ghost pre = self.db_store@;
        match self.find_slot(key) {
            None => {
                proof {
                    lemma_store_map_dom(pre);
                }
                None
            },
            Some(i) => {
                proof {
                    lemma_store_map_index(pre, i as int);
                }
                let expired = match self.db_store[i].1.expires_at {
                    Some(deadline) => now_ms > deadline,
                    None => false,
                };
                if expired {
                    None
                } else {
                    Some(&self.db_store[i].1)
                }
            },
        }
    }

    /// Forget `key`: run the policy's `on_delete`, drop the slot, and
    /// release its bytes from the counter. The key leaves the eviction
    /// ranking.
    pub fn delete(&mut self, key: &Vec<u8>)
        requires
            old(self).wf(),
        ensures
            final(self).wf(),
            final(self).map_view() == old(self).map_view().remove(key@),
            final(self).approx_memory == old(self).approx_memory - (
            if old(self).map_view().dom().contains(key@) {
                old(self).map_view()[key@].data_size as int
            } else {
                0
            }),
            final(self).eviction.order() == crate::db::eviction::lru::lru_linklist::remove_first(
                old(self).eviction.order(),
                key@,
            ),
    {
        let ghost pre = self.db_store@;
        match self.find_slot(key) {
            None => {
                proof {
                    lemma_store_map_dom(pre);
                    assert(self.map_view().remove(key@) =~= self.map_view());
                    assert(!self.eviction.order().contains(key@)) by {
                        if self.eviction.order().contains(key@) {
                            assert(self.eviction.tracked_keys().contains(key@));
                        }
                    }
                    crate::db::eviction::lru::lru_linklist::lemma_remove_first(
                        self.eviction.order(),
                        key@,
                    );
                }
            },
            Some(i) => {
                proof {
                    lemma_store_map_index(pre, i as int);
                    lemma_store_map_remove(pre, i as int);
                    lemma_sum_sizes_bounds(pre);
                }
                self.eviction.on_delete(key);
                let entry = self.db_store.remove(i);
                self.approx_memory = self.approx_memory - (entry.1.data_size as u128);
                proof {
                    lemma_remove_shape(pre, self.db_store@, i as int);
                }
            },
        }
    }

    /// Ask the policy for the next victim — the front of its ranking —
    /// and evict it. Returns the key and how many bytes it released.
    pub fn sample_victim(&mut self) -> (r: Option<(Vec<u8>, usize)>)
        requires
            old(self).wf(),
        ensures
            final(self).wf(),
            match r {
                Some(kv) => {
                    &&& old(self).map_view().dom().contains(kv.0@)
                    &&& final(self).map_view() == old(self).map_view().remove(kv.0@)
                    &&& kv.1 == old(self).map_view()[kv.0@].data_size
                    &&& old(self).eviction.order().len() > 0
                    &&& kv.0@ == old(self).eviction.order()[0]
                    &&& final(self).eviction.order() == old(self).eviction.order().drop_first()
                },
                None => old(self).map_view() == Map::<Seq<u8>, EntryV>::empty()
                    && final(self).map_view() == old(self).map_view()
                    && final(self).eviction.order() == old(self).eviction.order(),
            },
    {
        let ghost pre = self.db_store@;
        match self.eviction.pop_victim() {
            None => {
                proof {
                    lemma_store_map_dom(pre);
                    assert(self.map_view() =~= Map::<Seq<u8>, EntryV>::empty()) by {
                        assert forall|k: Seq<u8>|
                            !self.map_view().dom().contains(k) by {
                            assert(!self.eviction.tracked_keys().contains(k));
                        }
                    }
                }
                None
            },
            Some(victim) => {
                match self.find_slot(&victim) {
                    Some(i) => {
                        proof {
                            lemma_store_map_index(pre, i as int);
                            lemma_store_map_remove(pre, i as int);
                            lemma_sum_sizes_bounds(pre);
                        }
                        let entry = self.db_store.remove(i);
                        let freed = entry.1.data_size;
                        self.approx_memory = self.approx_memory - (freed as u128);
                        proof {
                            lemma_remove_shape(pre, self.db_store@, i as int);
                        }
                        Some((victim, freed))
                    },
                    None => {
                        // The invariant rules this out: the policy only
                        // tracks stored keys.
                        proof {
                            lemma_store_map_dom(pre);
                            assert(false);
                        }
                        None
                    },
                }
            },
        }
    }
}

/// After removing a slot the shard shape follows the removal lemmas.
proof fn lemma_remove_shape(pre: Seq<(Vec<u8>, ValueEntry)>, post: Seq<(Vec<u8>, ValueEntry)>, i: int)
    requires
        crate::db::eviction::lru::lru_linklist::unique_keys(store_keys(pre)),
        0 <= i < pre.len(),
        post == pre.remove(i),
    ensures
        crate::db::eviction::lru::lru_linklist::unique_keys(store_keys(post)),
        store_map(post) == store_map(pre).remove(pre[i].0@),
        sum_sizes(post) == sum_sizes(pre) - pre[i].1.data_size,
        forall|k: Seq<u8>|
            #[trigger] store_map(post).dom().contains(k) <==> (store_map(pre).dom().contains(k)
                && k != pre[i].0@),
{
    lemma_store_map_remove(pre, i);
    assert(store_keys(post) =~= store_keys(pre).remove(i));
    assert(crate::db::eviction::lru::lru_linklist::unique_keys(store_keys(post))) by {
        let ks = store_keys(pre);
        assert forall|a: int, b: int|
            0 <= a < b < ks.remove(i).len() implies ks.remove(i)[a] != ks.remove(i)[b] by {
            let ra = if a < i { ks[a] } else { ks[a + 1] };
            let rb = if b < i { ks[b] } else { ks[b + 1] };
            assert(ks.remove(i)[a] == ra && ks.remove(i)[b] == rb);
        }
    }
}

/// After pushing a fresh key the shard shape extends by one slot.
proof fn lemma_push_shape(pre: Seq<(Vec<u8>, ValueEntry)>, post: Seq<(Vec<u8>, ValueEntry)>)
    requires
        crate::db::eviction::lru::lru_linklist::unique_keys(store_keys(pre)),
        !store_keys(pre).contains(post.last().0@),
        post.len() == pre.len() + 1,
        post.drop_last() == pre,
    ensures
        crate::db::eviction::lru::lru_linklist::unique_keys(store_keys(post)),
        store_map(post) == store_map(pre).insert(post.last().0@, post.last().1@),
        sum_sizes(post) == sum_sizes(pre) + post.last().1.data_size,
{
    assert(store_keys(post).drop_last() =~= store_keys(pre));
    assert(crate::db::eviction::lru::lru_linklist::unique_keys(store_keys(post))) by {
        let ks = store_keys(post);
        assert forall|a: int, b: int| 0 <= a < b < ks.len() implies ks[a] != ks[b] by {
            if b == ks.len() - 1 {
                assert(ks[a] == store_keys(pre)[a]);
                assert(store_keys(pre).contains(store_keys(pre)[a]));
            } else {
                assert(ks[a] == store_keys(pre)[a] && ks[b] == store_keys(pre)[b]);
            }
        }
    }
}

/// Removing a slot and pushing a replacement with the same key is an
/// overwrite of the mapping.
proof fn lemma_insert_shape(
    pre: Seq<(Vec<u8>, ValueEntry)>,
    mid: Seq<(Vec<u8>, ValueEntry)>,
    post: Seq<(Vec<u8>, ValueEntry)>,
    i: int,
)
    requires
        crate::db::eviction::lru::lru_linklist::unique_keys(store_keys(pre)),
        0 <= i < pre.len(),
        mid == pre.remove(i),
        post.len() == mid.len() + 1,
        post.drop_last() == mid,
        post.last().0@ == pre[i].0@,
    ensures
        crate::db::eviction::lru::lru_linklist::unique_keys(store_keys(post)),
        store_map(post) == store_map(pre).insert(post.last().0@, post.last().1@),
        sum_sizes(post) == sum_sizes(pre) - pre[i].1.data_size + post.last().1.data_size,
{
    lemma_remove_shape(pre, mid, i);
    assert(!store_keys(mid).contains(post.last().0@)) by {
        lemma_store_map_dom(mid);
        assert(!store_map(mid).dom().contains(pre[i].0@));
    }
    lemma_push_shape(mid, post);
    assert(store_map(pre).remove(pre[i].0@).insert(post.last().0@, post.last().1@)
        =~= store_map(pre).insert(post.last().0@, post.last().1@));
}

/// Deep-copy an element.
fn clone_element(e: &crate::types::Element) -> (r: crate::types::Element)
    ensures
        r@ == e@,
{
    match e {
        crate::types::Element::Str(b) => crate::types::Element::Str(slice_to_vec8(b.as_slice())),
        crate::types::Element::Int(i) => crate::types::Element::Int(*i),
    }
}

/// Deep-copy a run of elements.
fn clone_elements(v: &Vec<crate::types::Element>) -> (r: Vec<crate::types::Element>)
    ensures
        crate::types::elements_view(r@) == crate::types::elements_view(v@),
{
    let n = v.len();
    let mut out: Vec<crate::types::Element> = Vec::new();
    let mut i: usize = 0;
    while i < n
        invariant
            i <= n,
            n == v@.len(),
            out@.len() == i,
            forall|j: int| 0 <= j < i ==> out@[j]@ == v@[j]@,
        decreases n - i,
    {
        out.push(clone_element(&v[i]));
        i = i + 1;
    }
    proof {
        assert(crate::types::elements_view(out@) =~= crate::types::elements_view(v@));
    }
    out
}

/// Deep-copy a run of key/value pairs.
fn clone_pairs(v: &Vec<(Vec<u8>, crate::types::Element)>) -> (r: Vec<
    (Vec<u8>, crate::types::Element),
>)
    ensures
        crate::types::pairs_view(r@) == crate::types::pairs_view(v@),
{
    let n = v.len();
    let mut out: Vec<(Vec<u8>, crate::types::Element)> = Vec::new();
    let mut i: usize = 0;
    while i < n
        invariant
            i <= n,
            n == v@.len(),
            out@.len() == i,
            forall|j: int| 0 <= j < i ==> out@[j].0@ == v@[j].0@ && out@[j].1@ == v@[j].1@,
        decreases n - i,
    {
        let k = slice_to_vec8(v[i].0.as_slice());
        let e = clone_element(&v[i].1);
        out.push((k, e));
        i = i + 1;
    }
    proof {
        assert(crate::types::pairs_view(out@) =~= crate::types::pairs_view(v@));
    }
    out
}

/// Deep-copy a value.
fn clone_value(v: &crate::types::Value) -> (r: crate::types::Value)
    ensures
        r@ == v@,
{
    match v {
        crate::types::Value::Simple(e) => crate::types::Value::Simple(clone_element(e)),
        crate::types::Value::List(es) => crate::types::Value::List(clone_elements(es)),
        crate::types::Value::Hash(kvs) => crate::types::Value::Hash(clone_pairs(kvs)),
        crate::types::Value::SetVal(es) => crate::types::Value::SetVal(clone_elements(es)),
    }
}

/// Deep-copy an entry.
pub fn clone_entry(e: &ValueEntry) -> (r: ValueEntry)
    ensures
        r@ == e@,
{
    ValueEntry { data: clone_value(&e.data), expires_at: e.expires_at, data_size: e.data_size }
}

/// What the byte hash used for shard routing returns, named: FxHash is
/// seedless, so the result is a function of the key bytes alone.
pub uninterp spec fn fx_hash64(key: Seq<u8>) -> u64;

/// Relies on `fxhash::hash64`: the 64-bit FxHash of the bytes, the same
/// in every process.
#[verifier::external_body]
fn fx_hash_bytes(key: &Vec<u8>) -> (r: u64)
    ensures
        r == fx_hash64(key@),
{
    fxhash::hash64(&key.as_slice())
}

/// Which shard of a database a key lives in.
pub open spec fn shard_of(key: Seq<u8>) -> int {
    fx_hash64(key) as int % (NUM_SHARDS as int)
}

/// One logical database: a fixed array of shards.
pub struct MemoryCache {
    pub message: Vec<MemoryCacheNode>,
}

impl MemoryCache {
    /// Every shard is present and well-formed.
    pub open spec fn wf(self) -> bool {
        &&& self.message@.len() == NUM_SHARDS
        &&& forall|i: int| 0 <= i < self.message@.len() ==> (#[trigger] self.message@[i]).wf()
    }

    /// The mapping of shard `i`.
    pub open spec fn shard_map(self, i: int) -> Map<Seq<u8>, EntryV> {
        self.message@[i].map_view()
    }

    /// A database of empty shards.
    pub fn new(config_type: &EvictionType) -> (r: MemoryCache)
        requires
            config_type is LRU,
        ensures
            r.wf(),
            forall|i: int|
                0 <= i < NUM_SHARDS ==> #[trigger] r.shard_map(i) == Map::<Seq<u8>, EntryV>::empty(),
    {
        let mut message: Vec<MemoryCacheNode> = Vec::new();
        let mut i: usize = 0;
        while i < NUM_SHARDS
            invariant
                i <= NUM_SHARDS,
                message@.len() == i,
                config_type is LRU,
                forall|j: int| 0 <= j < i ==> (#[trigger] message@[j]).wf(),
                forall|j: int|
                    0 <= j < i ==> #[trigger] message@[j].map_view() == Map::<
                        Seq<u8>,
                        EntryV,
                    >::empty(),
            decreases NUM_SHARDS - i,
        {
            message.push(MemoryCacheNode::new(config_type));
            i = i + 1;
        }
        MemoryCache { message }
    }

    /// The shard a key hashes to.
    pub fn get_shard_index(key: &Vec<u8>) -> (r: usize)
        ensures
            r == shard_of(key@),
            r < NUM_SHARDS,
    {
        let h = fx_hash_bytes(key);
        (h % (NUM_SHARDS as u64)) as usize
    }
}

/// One recorded script write: a new entry, or a tombstone.
pub enum ChangeOp {
    Update(ValueEntry),
    Delete,
}

/// The script write-buffer over one shard: reads go overlay first, and
/// the overlay is committed in one piece on success or dropped whole on
/// failure.
///
/// The buffer carries no running signed memory delta: the shard's
/// counter is the one source of accounting, and `commit` moves it by
/// the exact signed difference of every applied change through the
/// shard's own contracts, so the accounting invariant is re-established
/// at the commit rather than tracked twice.
pub struct LuaCacheNode {
    pub shard_index: usize,
    pub differ_map: Vec<(Vec<u8>, ChangeOp)>,
}

/// The mapping a write-buffer denotes: `Some` for an update, `None` for
/// a tombstone.
pub open spec fn differ_view(s: Seq<(Vec<u8>, ChangeOp)>) -> Map<Seq<u8>, Option<EntryV>>
    decreases s.len(),
{
    if s.len() == 0 {
        Map::empty()
    } else {
        differ_view(s.drop_last()).insert(
            s.last().0@,
            match s.last().1 {
                ChangeOp::Update(v) => Some(v@),
                ChangeOp::Delete => None,
            },
        )
    }
}

/// The keys of a write-buffer, in slot order.
pub open spec fn differ_keys(s: Seq<(Vec<u8>, ChangeOp)>) -> Seq<Seq<u8>> {
    Seq::new(s.len(), |i: int| s[i].0@)
}

/// A shard mapping with a write-buffer laid over it.
pub open spec fn apply_overlay(
    base: Map<Seq<u8>, EntryV>,
    ov: Map<Seq<u8>, Option<EntryV>>,
) -> Map<Seq<u8>, EntryV> {
    Map::new(
        |k: Seq<u8>|
            if ov.dom().contains(k) {
                ov[k] is Some
            } else {
                base.dom().contains(k)
            },
        |k: Seq<u8>|
            if ov.dom().contains(k) {
                ov[k]->0
            } else {
                base[k]
            },
    )
}

/// A key is in the denoted overlay exactly when some slot holds it.
pub proof fn lemma_differ_view_dom(s: Seq<(Vec<u8>, ChangeOp)>)
    ensures
        forall|k: Seq<u8>|
            #[trigger] differ_view(s).dom().contains(k) <==> differ_keys(s).contains(k),
    decreases s.len(),
{
    if s.len() > 0 {
        lemma_differ_view_dom(s.drop_last());
        let pre = s.drop_last();
        assert forall|k: Seq<u8>| #[trigger]
            differ_view(s).dom().contains(k) <==> differ_keys(s).contains(k) by {
            if differ_view(s).dom().contains(k) {
                if k == s.last().0@ {
                    assert(differ_keys(s).contains(k)) by {
                        assert(differ_keys(s)[s.len() - 1] == k);
                    }
                } else {
                    assert(differ_view(pre).dom().contains(k));
                    assert(differ_keys(pre).contains(k));
                    let i = choose|i: int|
                        0 <= i < differ_keys(pre).len() && differ_keys(pre)[i] == k;
                    assert(differ_keys(s).contains(k)) by {
                        assert(differ_keys(s)[i] == k);
                    }
                }
            }
            if differ_keys(s).contains(k) {
                let i = choose|i: int|
                    0 <= i < differ_keys(s).len() && differ_keys(s)[i] == k;
                if i == s.len() - 1 {
                    assert(differ_view(s).dom().contains(k));
                } else {
                    assert(differ_keys(pre).contains(k)) by {
                        assert(differ_keys(pre)[i] == k);
                    }
                    assert(differ_view(pre).dom().contains(k));
                }
            }
        }
    }
}

impl LuaCacheNode {
    /// What this buffer records.
    pub open spec fn overlay(self) -> Map<Seq<u8>, Option<EntryV>> {
        differ_view(self.differ_map@)
    }

    /// No key is recorded twice.
    pub open spec fn o_wf(self) -> bool {
        crate::db::eviction::lru::lru_linklist::unique_keys(differ_keys(self.differ_map@))
    }

    /// An empty write-buffer over shard `shard_index`.
    pub fn new(shard_index: usize) -> (r: LuaCacheNode)
        ensures
            r.o_wf(),
            r.overlay() == Map::<Seq<u8>, Option<EntryV>>::empty(),
            r.shard_index == shard_index,
    {
        let r = LuaCacheNode { shard_index, differ_map: Vec::new() };
        proof {
            assert(r.overlay() =~= Map::<Seq<u8>, Option<EntryV>>::empty());
        }
        r
    }

    /// The slot recording `key`, if any.
    fn find_change(&self, key: &Vec<u8>) -> (r: Option<usize>)
        ensures
            match r {
                Some(i) => i < self.differ_map@.len() && self.differ_map@[i as int].0@ == key@,
                None => !differ_keys(self.differ_map@).contains(key@),
            },
    {
        let n = self.differ_map.len();
        let mut i: usize = 0;
        while i < n
            invariant
                i <= n,
                n == self.differ_map@.len(),
                forall|j: int| 0 <= j < i ==> differ_keys(self.differ_map@)[j] != key@,
            decreases n - i,
        {
            if bytes_eq(&self.differ_map[i].0, key) {
                return Some(i);
            }
            assert(differ_keys(self.differ_map@)[i as int] != key@);
            i = i + 1;
        }
        assert(!differ_keys(self.differ_map@).contains(key@)) by {
            if differ_keys(self.differ_map@).contains(key@) {
                let j = choose|j: int|
                    0 <= j < differ_keys(self.differ_map@).len() && differ_keys(
                        self.differ_map@,
                    )[j] == key@;
            }
        }
        None
    }

    /// Record `value` under `key`; the base shard is untouched.
    pub fn insert(&mut self, key: Vec<u8>, value: ValueEntry)
        requires
            old(self).o_wf(),
        ensures
            final(self).o_wf(),
            final(self).overlay() == old(self).overlay().insert(key@, Some(value@)),
            final(self).shard_index == old(self).shard_index,
    {
        self.record(key, ChangeOp::Update(value));
    }

    /// Record a tombstone under `key`; the base shard is untouched.
    pub fn delete(&mut self, key: &Vec<u8>)
        requires
            old(self).o_wf(),
        ensures
            final(self).o_wf(),
            final(self).overlay() == old(self).overlay().insert(key@, None),
            final(self).shard_index == old(self).shard_index,
    {
        let kcopy = slice_to_vec8(key.as_slice());
        self.record(kcopy, ChangeOp::Delete);
    }

    /// Record one change, overwriting an earlier one under the same key.
    fn record(&mut self, key: Vec<u8>, op: ChangeOp)
        requires
            old(self).o_wf(),
        ensures
            final(self).o_wf(),
            final(self).overlay() == old(self).overlay().insert(
                key@,
                match op {
                    ChangeOp::Update(v) => Some(v@),
                    ChangeOp::Delete => None,
                },
            ),
            final(self).shard_index == old(self).shard_index,
    {
        let ghost pre = self.differ_map@;
        match self.find_change(&key) {
            Some(i) => {
                let _ = self.differ_map.remove(i);
                let ghost mid = self.differ_map@;
                self.differ_map.push((key, op));
                proof {
                    lemma_differ_remove_shape(pre, mid, i as int);
                    assert(self.differ_map@.drop_last() =~= mid);
                    lemma_differ_view_dom(mid);
                    assert(!differ_view(mid).dom().contains(key@)) by {
                        assert(differ_view(mid) == differ_view(pre).remove(pre[i as int].0@));
                    }
                    assert(!differ_keys(mid).contains(self.differ_map@.last().0@));
                    lemma_differ_push_shape(mid, self.differ_map@);
                    assert(differ_view(mid).insert(
                        self.differ_map@.last().0@,
                        match self.differ_map@.last().1 {
                            ChangeOp::Update(v) => Some(v@),
                            ChangeOp::Delete => None,
                        },
                    ) =~= differ_view(pre).insert(
                        self.differ_map@.last().0@,
                        match self.differ_map@.last().1 {
                            ChangeOp::Update(v) => Some(v@),
                            ChangeOp::Delete => None,
                        },
                    ));
                }
            },
            None => {
                self.differ_map.push((key, op));
                proof {
                    assert(self.differ_map@.drop_last() =~= pre);
                    lemma_differ_push_shape(pre, self.differ_map@);
                }
            },
        }
    }

    /// Read `key` through the buffer: the recorded change wins; only a
    /// miss consults the base shard, which may lazily drop a dead entry.
    pub fn select(&mut self, key: &Vec<u8>, base: &mut MemoryCacheNode, now_ms: u64) -> (r:
        Option<ValueEntry>)
        requires
            old(self).o_wf(),
            old(base).wf(),
        ensures
            *final(self) == *old(self),
            final(base).wf(),
            match old(self).overlay().dom().contains(key@) {
                true => {
                    &&& *final(base) == *old(base)
                    &&& match old(self).overlay()[key@] {
                        Some(e) => r matches Some(v) && (r matches Some(v) ==> v@ == e),
                        None => r is None,
                    }
                },
                false => match live_entry(old(base).map_view(), key@, now_ms) {
                    Some(e) => {
                        &&& r matches Some(v)
                        &&& r matches Some(v) ==> v@ == e
                        &&& final(base).map_view() == old(base).map_view()
                    },
                    None => r is None && final(base).map_view() == old(base).map_view().remove(
                        key@,
                    ),
                },
            },
    {
        let ghost pre = self.differ_map@;
        match self.find_change(key) {
            Some(i) => {
                proof {
                    lemma_differ_view_index(pre, i as int);
                }
                match &self.differ_map[i].1 {
                    ChangeOp::Update(v) => Some(clone_entry(v)),
                    ChangeOp::Delete => None,
                }
            },
            None => {
                proof {
                    lemma_differ_view_dom(pre);
                }
                base.select(key, now_ms)
            },
        }
    }
}

/// Removing a slot removes its key from the denoted overlay.
proof fn lemma_differ_remove_shape(
    pre: Seq<(Vec<u8>, ChangeOp)>,
    mid: Seq<(Vec<u8>, ChangeOp)>,
    i: int,
)
    requires
        crate::db::eviction::lru::lru_linklist::unique_keys(differ_keys(pre)),
        0 <= i < pre.len(),
        mid == pre.remove(i),
    ensures
        crate::db::eviction::lru::lru_linklist::unique_keys(differ_keys(mid)),
        differ_view(mid) == differ_view(pre).remove(pre[i].0@),
    decreases pre.len(),
{
    let last = pre.drop_last();
    assert(crate::db::eviction::lru::lru_linklist::unique_keys(differ_keys(last))) by {
        assert(forall|a: int, b: int|
            0 <= a < b < differ_keys(last).len() ==> differ_keys(last)[a] == differ_keys(pre)[a]
                && differ_keys(last)[b] == differ_keys(pre)[b]);
    }
    assert(differ_keys(mid) =~= differ_keys(pre).remove(i));
    assert(crate::db::eviction::lru::lru_linklist::unique_keys(differ_keys(mid))) by {
        let ks = differ_keys(pre);
        assert forall|a: int, b: int|
            0 <= a < b < ks.remove(i).len() implies ks.remove(i)[a] != ks.remove(i)[b] by {
            let ra = if a < i { ks[a] } else { ks[a + 1] };
            let rb = if b < i { ks[b] } else { ks[b + 1] };
            assert(ks.remove(i)[a] == ra && ks.remove(i)[b] == rb);
        }
    }
    if i == pre.len() - 1 {
        assert(mid =~= last);
        lemma_differ_view_dom(last);
        assert(!differ_keys(last).contains(pre[i].0@)) by {
            if differ_keys(last).contains(pre[i].0@) {
                let j = choose|j: int|
                    0 <= j < differ_keys(last).len() && differ_keys(last)[j] == pre[i].0@;
                assert(differ_keys(pre)[j] == differ_keys(pre)[pre.len() - 1]);
            }
        }
        assert(differ_view(pre).remove(pre[i].0@) =~= differ_view(last));
    } else {
        lemma_differ_remove_shape(last, last.remove(i), i);
        assert(mid.drop_last() =~= last.remove(i));
        assert(mid.last() == pre.last());
        assert(pre[i].0@ != pre.last().0@) by {
            assert(differ_keys(pre)[i] != differ_keys(pre)[pre.len() - 1]);
        }
        assert(last[i] == pre[i]);
        assert(differ_view(last).remove(pre[i].0@).insert(
            pre.last().0@,
            match pre.last().1 {
                ChangeOp::Update(v) => Some(v@),
                ChangeOp::Delete => None,
            },
        ) =~= differ_view(pre).remove(pre[i].0@));
    }
}

/// Pushing a fresh key extends the denoted overlay by one change.
proof fn lemma_differ_push_shape(pre: Seq<(Vec<u8>, ChangeOp)>, post: Seq<(Vec<u8>, ChangeOp)>)
    requires
        crate::db::eviction::lru::lru_linklist::unique_keys(differ_keys(pre)),
        !differ_keys(pre).contains(post.last().0@),
        post.len() == pre.len() + 1,
        post.drop_last() == pre,
    ensures
        crate::db::eviction::lru::lru_linklist::unique_keys(differ_keys(post)),
        differ_view(post) == differ_view(pre).insert(
            post.last().0@,
            match post.last().1 {
                ChangeOp::Update(v) => Some(v@),
                ChangeOp::Delete => None,
            },
        ),
{
    assert(differ_keys(post).drop_last() =~= differ_keys(pre));
    assert(crate::db::eviction::lru::lru_linklist::unique_keys(differ_keys(post))) by {
        let ks = differ_keys(post);
        assert forall|a: int, b: int| 0 <= a < b < ks.len() implies ks[a] != ks[b] by {
            if b == ks.len() - 1 {
                assert(ks[a] == differ_keys(pre)[a]);
                assert(differ_keys(pre).contains(differ_keys(pre)[a]));
            } else {
                assert(ks[a] == differ_keys(pre)[a] && ks[b] == differ_keys(pre)[b]);
            }
        }
    }
}

/// Under unique keys, slot `i` gives the overlay's change at its key.
proof fn lemma_differ_view_index(s: Seq<(Vec<u8>, ChangeOp)>, i: int)
    requires
        crate::db::eviction::lru::lru_linklist::unique_keys(differ_keys(s)),
        0 <= i < s.len(),
    ensures
        differ_view(s).dom().contains(s[i].0@),
        differ_view(s)[s[i].0@] == (match s[i].1 {
            ChangeOp::Update(v) => Some(v@),
            ChangeOp::Delete => None::<EntryV>,
        }),
    decreases s.len(),
{
    if i == s.len() - 1 {
    } else {
        let pre = s.drop_last();
        assert(crate::db::eviction::lru::lru_linklist::unique_keys(differ_keys(pre))) by {
            assert(forall|a: int, b: int|
                0 <= a < b < differ_keys(pre).len() ==> differ_keys(pre)[a] == differ_keys(s)[a]
                    && differ_keys(pre)[b] == differ_keys(s)[b]);
        }
        assert(pre[i] == s[i]);
        lemma_differ_view_index(pre, i);
        assert(differ_keys(s)[i] != differ_keys(s)[s.len() - 1]);
        assert(s[i].0@ != s.last().0@);
    }
}

/// A committed write-buffer: its overlay is applied whole.
pub trait Transactional: Sized {
    /// What the buffer records.
    spec fn buffered(&self) -> Map<Seq<u8>, Option<EntryV>>;

    /// The buffer's internal invariant.
    spec fn buffer_inv(&self) -> bool;

    /// Apply every recorded change to the shard, leaving the buffer
    /// empty. Updates become inserts, tombstones become removals; no
    /// other key of the shard moves.
    fn commit(&mut self, base: &mut MemoryCacheNode)
        requires
            old(self).buffer_inv(),
            old(base).wf(),
        ensures
            final(self).buffer_inv(),
            final(base).wf(),
            final(base).map_view() == apply_overlay(old(base).map_view(), old(self).buffered()),
            final(self).buffered() == Map::<Seq<u8>, Option<EntryV>>::empty(),
    ;
}

impl Transactional for LuaCacheNode {
    open spec fn buffered(&self) -> Map<Seq<u8>, Option<EntryV>> {
        self.overlay()
    }

    open spec fn buffer_inv(&self) -> bool {
        self.o_wf()
    }

    fn commit(&mut self, base: &mut MemoryCacheNode) {
        let ghost base0 = base.map_view();
        let ghost ov0 = self.overlay();
        while self.differ_map.len() > 0
            invariant
                self.o_wf(),
                base.wf(),
                apply_overlay(base.map_view(), differ_view(self.differ_map@)) == apply_overlay(
                    base0,
                    ov0,
                ),
            decreases self.differ_map@.len(),
        {
            let ghost pre = self.differ_map@;
            let ghost basepre = base.map_view();
            let slot = self.differ_map.pop().unwrap();
            proof {
                assert(pre.drop_last() =~= self.differ_map@);
                assert(crate::db::eviction::lru::lru_linklist::unique_keys(differ_keys(pre)));
                assert forall|a: int, b: int|
                    0 <= a < b < differ_keys(self.differ_map@).len() implies differ_keys(
                    self.differ_map@,
                )[a] != differ_keys(self.differ_map@)[b] by {
                    assert(differ_keys(self.differ_map@)[a] == self.differ_map@[a].0@);
                    assert(self.differ_map@[a] == pre[a]);
                    assert(self.differ_map@[b] == pre[b]);
                    assert(differ_keys(pre)[a] == pre[a].0@);
                    assert(differ_keys(pre)[b] == pre[b].0@);
                }
                lemma_differ_view_dom(self.differ_map@);
                assert(!differ_keys(self.differ_map@).contains(slot.0@)) by {
                    if differ_keys(self.differ_map@).contains(slot.0@) {
                        let j = choose|j: int|
                            0 <= j < differ_keys(self.differ_map@).len() && differ_keys(
                                self.differ_map@,
                            )[j] == slot.0@;
                        assert(differ_keys(pre)[j] == differ_keys(pre)[pre.len() - 1]);
                    }
                }
            }
            match slot.1 {
                ChangeOp::Update(v) => {
                    base.insert(slot.0, v);
                },
                ChangeOp::Delete => {
                    base.delete(&slot.0);
                },
            }
            proof {
                assert(apply_overlay(base.map_view(), differ_view(self.differ_map@))
                    =~= apply_overlay(basepre, differ_view(pre)));
            }
        }
        proof {
            assert(self.differ_map@ =~= Seq::<(Vec<u8>, ChangeOp)>::empty());
            assert(differ_view(self.differ_map@) =~= Map::<Seq<u8>, Option<EntryV>>::empty());
            assert(apply_overlay(base.map_view(), differ_view(self.differ_map@))
                =~= base.map_view());
        }
    }
}

/// Does some of the first `upto` keys route to shard `x`?
pub open spec fn shard_among(keys: Seq<Vec<u8>>, upto: int, x: usize) -> bool {
    exists|i: int| 0 <= i < upto && shard_of(#[trigger] keys[i]@) == x as int
}

/// The distinct shards the declared keys of a script hash to — exactly
/// those and nothing more — sorted ascending: the order the engine
/// takes their locks in.
pub fn eval_shard_indices(keys: &Vec<Vec<u8>>) -> (r: Vec<usize>)
    ensures
        forall|t: int| 0 <= t < r@.len() ==> #[trigger] r@[t] < NUM_SHARDS,
        forall|a: int, b: int| 0 <= a < b < r@.len() ==> r@[a] < r@[b],
        forall|i: int|
            0 <= i < keys@.len() ==> r@.contains(shard_of(#[trigger] keys@[i]@) as usize),
        forall|t: int|
            0 <= t < r@.len() ==> shard_among(keys@, keys@.len() as int, #[trigger] r@[t]),
{
    let mut out: Vec<usize> = Vec::new();
    let n = keys.len();
    let mut i: usize = 0;
    while i < n
        invariant
            i <= n,
            n == keys@.len(),
            forall|t: int| 0 <= t < out@.len() ==> #[trigger] out@[t] < NUM_SHARDS,
            forall|a: int, b: int| 0 <= a < b < out@.len() ==> out@[a] < out@[b],
            forall|j: int|
                0 <= j < i ==> out@.contains(shard_of(#[trigger] keys@[j]@) as usize),
            forall|t: int| 0 <= t < out@.len() ==> shard_among(keys@, i as int, #[trigger] out@[t]),
        decreases n - i,
    {
        let idx = MemoryCache::get_shard_index(&keys[i]);
        let mut pos: usize = 0;
        let mut present = false;
        while pos < out.len() && !present && out[pos] < idx
            invariant
                pos <= out@.len(),
                forall|a: int, b: int| 0 <= a < b < out@.len() ==> out@[a] < out@[b],
                !present ==> forall|a: int| 0 <= a < pos ==> out@[a] < idx,
                present ==> pos < out@.len() && out@[pos as int] == idx,
            decreases out@.len() - pos,
        {
            if out[pos] == idx {
                present = true;
            } else {
                pos = pos + 1;
            }
        }
        let ghost preout = out@;
        if pos < out.len() && out[pos] == idx {
            // already locked
        } else {
            out.insert(pos, idx);
            proof {
                assert(out@ =~= preout.insert(pos as int, idx));
                assert forall|a: int, b: int|
                    0 <= a < b < out@.len() implies out@[a] < out@[b] by {
                    let xa = if a < pos { preout[a] } else if a == pos { idx as usize } else {
                        preout[a - 1]
                    };
                    let xb = if b < pos { preout[b] } else if b == pos { idx as usize } else {
                        preout[b - 1]
                    };
                    assert(out@[a] == xa && out@[b] == xb);
                    if b == pos {
                        assert(preout[a] < idx);
                    }
                    if a == pos && b > pos {
                        assert(pos < preout.len());
                        assert(preout[pos as int] != idx);
                        assert(!(preout[pos as int] < idx));
                        assert(preout[b - 1] >= preout[pos as int]);
                    }
                    if a < pos && b > pos {
                        assert(preout[a] < idx);
                        assert(preout[b - 1] >= preout[pos as int] || b - 1 == pos);
                    }
                }
                assert forall|j: int|
                    0 <= j < i + 1 implies out@.contains(
                    shard_of(#[trigger] keys@[j]@) as usize,
                ) by {
                    if j < i {
                        assert(preout.contains(shard_of(keys@[j]@) as usize));
                        let t = choose|t: int|
                            0 <= t < preout.len() && preout[t] == shard_of(keys@[j]@) as usize;
                        if t < pos {
                            assert(out@[t] == preout[t]);
                        } else {
                            assert(out@[t + 1] == preout[t]);
                        }
                    } else {
                        assert(out@[pos as int] == idx);
                    }
                }
                assert forall|t: int|
                    0 <= t < out@.len() implies shard_among(
                    keys@,
                    i + 1,
                    #[trigger] out@[t],
                ) by {
                    if t == pos {
                        assert(shard_of(keys@[i as int]@) == out@[t] as int);
                    } else {
                        let t0 = if t < pos {
                            t
                        } else {
                            t - 1
                        };
                        assert(out@[t] == preout[t0]);
                        assert(shard_among(keys@, i as int, preout[t0]));
                        let w = choose|w: int|
                            0 <= w < i && shard_of(#[trigger] keys@[w]@) == preout[t0] as int;
                        assert(shard_of(keys@[w]@) == out@[t] as int);
                    }
                }
            }
        }
        proof {
            if pos < preout.len() && preout[pos as int] == idx {
                assert forall|j: int|
                    0 <= j < i + 1 implies out@.contains(
                    shard_of(#[trigger] keys@[j]@) as usize,
                ) by {
                    if j == i {
                        assert(out@[pos as int] == idx);
                    }
                }
            }
            assert forall|t: int|
                0 <= t < out@.len() implies shard_among(keys@, i + 1, #[trigger] out@[t]) by {
                assert(shard_among(keys@, i + 1, out@[t]) || shard_among(
                    keys@,
                    i as int,
                    out@[t],
                ));
                if shard_among(keys@, i as int, out@[t]) {
                    let w = choose|w: int|
                        0 <= w < i && shard_of(#[trigger] keys@[w]@) == out@[t] as int;
                    assert(shard_of(keys@[w]@) == out@[t] as int);
                }
            }
        }
        i = i + 1;
    }
    out
}

/// A shard that accounts for bytes holds at least one entry.
pub proof fn lemma_positive_memory_nonempty(shard: MemoryCacheNode)
    requires
        shard.wf(),
        shard.approx_memory > 0,
    ensures
        shard.map_view() != Map::<Seq<u8>, EntryV>::empty(),
{
    assert(sum_sizes(shard.db_store@) > 0);
    assert(shard.db_store@.len() > 0) by {
        if shard.db_store@.len() == 0 {
            assert(sum_sizes(shard.db_store@) == 0);
        }
    }
    lemma_store_map_dom(shard.db_store@);
    assert(store_keys(shard.db_store@).contains(shard.db_store@[0].0@)) by {
        assert(store_keys(shard.db_store@)[0] == shard.db_store@[0].0@);
    }
    assert(shard.map_view().dom().contains(shard.db_store@[0].0@));
    assert(shard.map_view() != Map::<Seq<u8>, EntryV>::empty()) by {
        if shard.map_view() == Map::<Seq<u8>, EntryV>::empty() {
            assert(!Map::<Seq<u8>, EntryV>::empty().dom().contains(shard.db_store@[0].0@));
        }
    }
}

/// The script atomicity law: committing a write-buffer moves the shard
/// from the old mapping to the overlaid one in a single step. Every
/// recorded update is visible, every recorded tombstone is gone, and no
/// key outside the buffer moved — there is no state in which only part
/// of the script's writes can be observed.
pub proof fn lemma_script_atomicity(
    base: Map<Seq<u8>, EntryV>,
    ov: Map<Seq<u8>, Option<EntryV>>,
)
    ensures
        forall|k: Seq<u8>|
            #[trigger] ov.dom().contains(k) && ov[k] is Some ==> apply_overlay(
                base,
                ov,
            ).dom().contains(k) && apply_overlay(base, ov)[k] == ov[k]->0,
        forall|k: Seq<u8>|
            #[trigger] ov.dom().contains(k) && ov[k] is None ==> !apply_overlay(
                base,
                ov,
            ).dom().contains(k),
        forall|k: Seq<u8>|
            !(#[trigger] ov.dom().contains(k)) ==> (apply_overlay(base, ov).dom().contains(k)
                <==> base.dom().contains(k)) && (base.dom().contains(k) ==> apply_overlay(
                base,
                ov,
            )[k] == base[k]),
{
}

/// The accounting law: after any run of shard operations — they all
/// keep `wf` — the memory counter equals the sum of the stored sizes.
pub proof fn lemma_accounting(shard: MemoryCacheNode)
    requires
        shard.wf(),
    ensures
        shard.approx_memory == sum_sizes(shard.db_store@),
{
}

/// The policy/map agreement law: after any run of shard operations,
/// the keys the eviction policy tracks are exactly the keys stored.
pub proof fn lemma_policy_map_agreement(shard: MemoryCacheNode)
    requires
        shard.wf(),
    ensures
        forall|k: Seq<u8>|
            #[trigger] shard.eviction.tracked_keys().contains(k) <==> shard.map_view().dom().contains(
                k,
            ),
{
}

/// May a script's `call` touch `key`: does its shard stand among the
/// pre-locked ones?
#[verifier::loop_isolation(false)]
pub fn call_key_allowed(key: &Vec<u8>, locked: &Vec<usize>) -> (r: bool)
    ensures
        r == locked@.contains(shard_of(key@) as usize),
{
    let idx = MemoryCache::get_shard_index(key);
    proof {
        assert(shard_of(key@) == idx as int);
        assert(shard_of(key@) as usize == idx);
    }
    let n = locked.len();
    let mut i: usize = 0;
    while i < n
        invariant
            i <= n,
            n == locked@.len(),
            forall|j: int| 0 <= j < i ==> locked@[j] != idx,
        decreases n - i,
    {
        if locked[i] == idx {
            assert(locked@.contains(idx)) by {
                assert(locked@[i as int] == idx);
            }
            return true;
        }
        i = i + 1;
    }
    assert(!locked@.contains(idx)) by {
        if locked@.contains(idx) {
            let j = choose|j: int| 0 <= j < locked@.len() && locked@[j] == idx;
        }
    }
    false
}

} // verus!
