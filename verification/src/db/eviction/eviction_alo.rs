//! The background eviction passes: the TTL sweep and the memory-pressure
//! evictor. The surrounding process calls one pass per tick; sleeping,
//! shutdown signals, and the wall-clock budget stay outside.

use vstd::prelude::*;
use crate::core_execute::maps_unchanged;
use crate::db::NUM_DATABASES;
use crate::db::Storage;
use crate::db::caches_memory;
use crate::db::lemma_caches_memory_witness;
use crate::db::lemma_shards_memory_witness;
use crate::db::eviction::lemma_positive_memory_nonempty;
use crate::db::eviction::EvictionPolicy;
use crate::db::eviction::NUM_SHARDS;
use crate::db::eviction::entry_expired;
use crate::db::eviction::rand_index;
use crate::types::EntryV;

verus! {

broadcast use
    vstd::std_specs::vec::group_vec_axioms,
    vstd::seq::group_seq_axioms,
    vstd::seq_lib::group_to_multiset_ensures;

/// How many shards one memory-pressure pass works on.
pub const EVICTION_MAX_NUMBER: usize = 5;

/// How many random probes one TTL sweep pass makes.
pub const TTL_PROBES_PER_PASS: usize = 20;

/// Nothing appeared and nothing changed its value; entries can only
/// have gone away.
pub open spec fn shard_shrunk(pre: Map<Seq<u8>, EntryV>, post: Map<Seq<u8>, EntryV>) -> bool {
    forall|k: Seq<u8>|
        #[trigger] post.dom().contains(k) ==> pre.dom().contains(k) && post[k] == pre[k]
}

/// As `shard_shrunk`, and everything that was alive at `now_ms` is
/// still there: only dead entries were taken.
pub open spec fn shard_shrunk_expired(
    pre: Map<Seq<u8>, EntryV>,
    post: Map<Seq<u8>, EntryV>,
    now_ms: u64,
) -> bool {
    &&& shard_shrunk(pre, post)
    &&& forall|k: Seq<u8>|
        pre.dom().contains(k) && !entry_expired(#[trigger] pre[k], now_ms)
            ==> post.dom().contains(k)
}

/// Does `a` outrank `b` for eviction: more memory first, then the
/// smaller (database, shard) pair.
pub open spec fn rank_ge(a: (u128, usize, usize), b: (u128, usize, usize)) -> bool {
    ||| a.0 > b.0
    ||| (a.0 == b.0 && (a.1 < b.1 || (a.1 == b.1 && a.2 <= b.2)))
}

/// Split the shard loads into the at most five highest-ranked ones and
/// the rest.
pub fn select_top_shards(loads: Vec<(u128, usize, usize)>) -> (r: (
    Vec<(u128, usize, usize)>,
    Vec<(u128, usize, usize)>,
))
    ensures
        r.0@.len() == if loads@.len() < EVICTION_MAX_NUMBER {
            loads@.len() as int
        } else {
            EVICTION_MAX_NUMBER as int
        },
        r.0@.to_multiset().add(r.1@.to_multiset()) == loads@.to_multiset(),
        forall|i: int, j: int|
            0 <= i < r.0@.len() && 0 <= j < r.1@.len() ==> rank_ge(#[trigger] r.0@[i], #[trigger] r.1@[j]),
        forall|i: int, j: int| 0 <= i <= j < r.0@.len() ==> rank_ge(#[trigger] r.0@[i], #[trigger] r.0@[j]),
{
    let ghost orig = loads@.to_multiset();
    let mut rest = loads;
    let mut picks: Vec<(u128, usize, usize)> = Vec::new();
    proof {
        assert(picks@.to_multiset().add(rest@.to_multiset()) =~= orig);
    }
    while picks.len() < EVICTION_MAX_NUMBER && rest.len() > 0
        invariant
            picks@.to_multiset().add(rest@.to_multiset()) == orig,
            picks@.len() <= EVICTION_MAX_NUMBER,
            picks@.len() < EVICTION_MAX_NUMBER || rest@.len() == 0 ==> picks@.len()
                == if orig.len() < EVICTION_MAX_NUMBER {
                orig.len() as int
            } else {
                EVICTION_MAX_NUMBER as int
            } || rest@.len() > 0,
            picks@.len() + rest@.len() == orig.len(),
            forall|i: int, j: int|
                0 <= i < picks@.len() && 0 <= j < rest@.len() ==> rank_ge(
                    #[trigger] picks@[i],
                    #[trigger] rest@[j],
                ),
            forall|i: int, j: int|
                0 <= i <= j < picks@.len() ==> rank_ge(#[trigger] picks@[i], #[trigger] picks@[j]),
        decreases rest@.len(),
    {
        let mut best: usize = 0;
        let mut i: usize = 1;
        while i < rest.len()
            invariant
                rest@.len() > 0,
                best < i <= rest@.len() || (i <= rest@.len() && best == 0),
                best < rest@.len(),
                forall|j: int| 0 <= j < i ==> rank_ge(rest@[best as int], #[trigger] rest@[j]),
            decreases rest@.len() - i,
        {
            let a = rest[best];
            let b = rest[i];
            let better = b.0 > a.0 || (b.0 == a.0 && (b.1 < a.1 || (b.1 == a.1 && b.2 < a.2)));
            if better {
                best = i;
            }
            i = i + 1;
        }
        let ghost prerest = rest@;
        let ghost prepicks = picks@;
        let item = rest.remove(best);
        picks.push(item);
        proof {
            assert(prerest.remove(best as int).to_multiset() == prerest.to_multiset().remove(
                item,
            ));
            assert(prepicks.push(item).to_multiset() == prepicks.to_multiset().insert(item));
            assert(prerest.to_multiset().count(item) >= 1) by {
                assert(prerest.contains(item)) by {
                    assert(prerest[best as int] == item);
                }
            }
            assert(picks@.to_multiset().add(rest@.to_multiset()) =~= orig);
            assert(forall|j: int| 0 <= j < rest@.len() ==> prerest.contains(#[trigger] rest@[j]))
                by {
                assert(forall|j: int|
                    0 <= j < rest@.len() ==> rest@[j] == (if j < best {
                        prerest[j]
                    } else {
                        prerest[j + 1]
                    }));
            }
            assert forall|i2: int, j: int|
                0 <= i2 < picks@.len() && 0 <= j < rest@.len() implies rank_ge(
                #[trigger] picks@[i2],
                #[trigger] rest@[j],
            ) by {
                let x = rest@[j];
                let jj = choose|jj: int| 0 <= jj < prerest.len() && prerest[jj] == x;
                assert(rank_ge(item, x));
                if i2 < prepicks.len() {
                    assert(picks@[i2] == prepicks[i2]);
                    assert(rank_ge(prepicks[i2], x)) by {
                        assert(prerest[jj] == x);
                    }
                } else {
                    assert(picks@[i2] == item);
                }
            }
            assert forall|i2: int, j: int|
                0 <= i2 <= j < picks@.len() implies rank_ge(#[trigger] picks@[i2], #[trigger] picks@[j])
                by {
                if j < prepicks.len() {
                    assert(picks@[i2] == prepicks[i2] && picks@[j] == prepicks[j]);
                } else if i2 < prepicks.len() {
                    assert(picks@[j] == item);
                    assert(rank_ge(prepicks[i2], item)) by {
                        assert(prerest[best as int] == item);
                    }
                } else {
                    assert(picks@[i2] == item && picks@[j] == item);
                }
            }
        }
    }
    proof {
        if picks@.len() < EVICTION_MAX_NUMBER {
            assert(rest@.len() == 0);
        }
    }
    (picks, rest)
}

/// Both shrink relations chain.
proof fn lemma_shrunk_expired_trans(
    a: Map<Seq<u8>, EntryV>,
    b: Map<Seq<u8>, EntryV>,
    c: Map<Seq<u8>, EntryV>,
    now_ms: u64,
)
    requires
        shard_shrunk_expired(a, b, now_ms),
        shard_shrunk_expired(b, c, now_ms),
    ensures
        shard_shrunk_expired(a, c, now_ms),
{
}

impl Storage {
    /// One TTL sweep pass: list the shards that hold data, then make up
    /// to twenty random probes; each probe samples one key of one shard
    /// and drops it if it is past its deadline. Nothing alive at
    /// `now_ms` is touched.
    pub fn eviction_ttl(&mut self, now_ms: u64)
        requires
            old(self).wf(),
        ensures
            final(self).wf(),
            forall|d: int, s: int|
                0 <= d < NUM_DATABASES && 0 <= s < NUM_SHARDS ==> shard_shrunk_expired(
                    old(self).shard_map(d, s),
                    #[trigger] final(self).shard_map(d, s),
                    now_ms,
                ),
    {
        let ghost pre = *self;
        let mut active_shards: Vec<(usize, usize)> = Vec::new();
        let mut db_index: usize = 0;
        while db_index < NUM_DATABASES
            invariant
                self.wf(),
                db_index <= NUM_DATABASES,
                forall|t: int|
                    0 <= t < active_shards@.len() ==> (#[trigger] active_shards@[t]).0
                        < NUM_DATABASES && active_shards@[t].1 < NUM_SHARDS,
            decreases NUM_DATABASES - db_index,
        {
            let mut shard_index: usize = 0;
            while shard_index < NUM_SHARDS
                invariant
                    self.wf(),
                    db_index < NUM_DATABASES,
                    shard_index <= NUM_SHARDS,
                    forall|t: int|
                        0 <= t < active_shards@.len() ==> (#[trigger] active_shards@[t]).0
                            < NUM_DATABASES && active_shards@[t].1 < NUM_SHARDS,
                decreases NUM_SHARDS - shard_index,
            {
                if self.store[db_index].message[shard_index].get_memory_usage() > 0 {
                    active_shards.push((db_index, shard_index));
                }
                shard_index = shard_index + 1;
            }
            db_index = db_index + 1;
        }
        let mut keys_check: usize = 0;
        while keys_check < TTL_PROBES_PER_PASS && active_shards.len() > 0
            invariant
                self.wf(),
                keys_check <= TTL_PROBES_PER_PASS,
                forall|t: int|
                    0 <= t < active_shards@.len() ==> (#[trigger] active_shards@[t]).0
                        < NUM_DATABASES && active_shards@[t].1 < NUM_SHARDS,
                forall|d: int, s: int|
                    0 <= d < NUM_DATABASES && 0 <= s < NUM_SHARDS ==> shard_shrunk_expired(
                        pre.shard_map(d, s),
                        #[trigger] self.shard_map(d, s),
                        now_ms,
                    ),
            decreases TTL_PROBES_PER_PASS - keys_check,
        {
            let ghost mid = *self;
            let pick = rand_index(active_shards.len());
            let (d, s) = active_shards[pick];
            let shard = &mut self.store[d].message[s];
            if shard.get_memory_usage() == 0 {
                let _ = active_shards.swap_remove(pick);
            } else {
                match shard.eviction.get_random_sample_key() {
                    None => {
                        let _ = active_shards.swap_remove(pick);
                    },
                    Some(key) => {
                        let _ = shard.select(&key, now_ms);
                    },
                }
            }
            proof {
                assert forall|d2: int, s2: int|
                    0 <= d2 < NUM_DATABASES && 0 <= s2 < NUM_SHARDS implies shard_shrunk_expired(
                    pre.shard_map(d2, s2),
                    #[trigger] self.shard_map(d2, s2),
                    now_ms,
                ) by {
                    if d2 == d && s2 == s {
                        assert(shard_shrunk_expired(mid.shard_map(d2, s2), self.shard_map(d2, s2), now_ms));
                        lemma_shrunk_expired_trans(
                            pre.shard_map(d2, s2),
                            mid.shard_map(d2, s2),
                            self.shard_map(d2, s2),
                            now_ms,
                        );
                    } else {
                        assert(self.shard_map(d2, s2) == mid.shard_map(d2, s2));
                    }
                }
            }
            keys_check = keys_check + 1;
        }
    }

    /// One memory-pressure pass: when the keyspace is over `target_memory`,
    /// pick the five heaviest shards and evict victims from each, up to
    /// `max_steps` per shard, stopping as soon as the budget is met.
    /// Entries can only go away; a pass that finds the keyspace under
    /// budget touches nothing, and a pass that finds it over budget —
    /// given at least one step — evicts at least one entry.
    /// Returns, per selected shard, its database index, shard index, and
    /// how many victims it yielded.
    pub fn eviction_memory(&mut self, target_memory: u128, max_steps: usize) -> (r: Vec<
        (usize, usize, usize),
    >)
        requires
            old(self).wf(),
        ensures
            final(self).wf(),
            forall|d: int, s: int|
                0 <= d < NUM_DATABASES && 0 <= s < NUM_SHARDS ==> shard_shrunk(
                    old(self).shard_map(d, s),
                    #[trigger] final(self).shard_map(d, s),
                ),
            old(self).total_memory() <= target_memory ==> maps_unchanged(
                *old(self),
                *final(self),
            ) && r@.len() == 0,
            old(self).total_memory() > target_memory && max_steps >= 1 ==> !maps_unchanged(
                *old(self),
                *final(self),
            ),
            old(self).total_memory() > target_memory ==> final(self).total_memory()
                <= target_memory || (r@.len() >= 1 && forall|t: int|
                0 <= t < r@.len() ==> (#[trigger] r@[t]).0 < NUM_DATABASES && r@[t].1
                    < NUM_SHARDS && (r@[t].2 == max_steps || final(self).shard_map(
                    r@[t].0 as int,
                    r@[t].1 as int,
                ) == Map::<Seq<u8>, EntryV>::empty())),
    {
        let ghost pre = *self;
        if !self.get_global_memory_can_move(target_memory) {
            proof {
                assert(maps_unchanged(pre, *self));
            }
            return Vec::new();
        }
        // The keyspace is over budget, so some shard holds bytes.
        let ghost dw0: int = 0;
        let ghost sw0: int = 0;
        proof {
            assert(caches_memory(pre.store@) > target_memory);
            lemma_caches_memory_witness(pre.store@);
            let d0 = choose|d: int|
                0 <= d < pre.store@.len() && crate::db::shards_memory(
                    (#[trigger] pre.store@[d]).message@,
                ) > 0;
            lemma_shards_memory_witness(pre.store@[d0].message@);
            let s0 = choose|i: int|
                0 <= i < pre.store@[d0].message@.len()
                    && (#[trigger] pre.store@[d0].message@[i]).approx_memory > 0;
            dw0 = d0;
            sw0 = s0;
        }
        let mut loads: Vec<(u128, usize, usize)> = Vec::new();
        let mut db_index: usize = 0;
        while db_index < NUM_DATABASES
            invariant
                self.wf(),
                *self == pre,
                db_index <= NUM_DATABASES,
                0 <= dw0 < NUM_DATABASES,
                0 <= sw0 < NUM_SHARDS,
                pre.store@[dw0].message@[sw0].approx_memory > 0,
                forall|t: int|
                    0 <= t < loads@.len() ==> (#[trigger] loads@[t]).1 < NUM_DATABASES
                        && loads@[t].2 < NUM_SHARDS && loads@[t].0 > 0 && loads@[t].0
                        == pre.store@[loads@[t].1 as int].message@[loads@[t].2 as int].approx_memory,
                db_index > dw0 ==> loads@.len() >= 1,
            decreases NUM_DATABASES - db_index,
        {
            let mut shard_index: usize = 0;
            while shard_index < NUM_SHARDS
                invariant
                    self.wf(),
                    *self == pre,
                    db_index < NUM_DATABASES,
                    shard_index <= NUM_SHARDS,
                    0 <= dw0 < NUM_DATABASES,
                    0 <= sw0 < NUM_SHARDS,
                    pre.store@[dw0].message@[sw0].approx_memory > 0,
                    forall|t: int|
                        0 <= t < loads@.len() ==> (#[trigger] loads@[t]).1 < NUM_DATABASES
                            && loads@[t].2 < NUM_SHARDS && loads@[t].0 > 0 && loads@[t].0
                            == pre.store@[loads@[t].1 as int].message@[loads@[t].2 as int].approx_memory,
                    db_index > dw0 ==> loads@.len() >= 1,
                    db_index == dw0 && shard_index > sw0 ==> loads@.len() >= 1,
                decreases NUM_SHARDS - shard_index,
            {
                let memory = self.store[db_index].message[shard_index].get_memory_usage();
                if memory > 0 {
                    loads.push((memory, db_index, shard_index));
                }
                shard_index = shard_index + 1;
            }
            db_index = db_index + 1;
        }
        let ghost all_loads = loads@;
        assert(loads@.len() >= 1);
        let (picks, _rest) = select_top_shards(loads);
        proof {
            assert forall|t: int|
                0 <= t < picks@.len() implies (#[trigger] picks@[t]).1 < NUM_DATABASES
                && picks@[t].2 < NUM_SHARDS && picks@[t].0 > 0 && picks@[t].0
                == pre.store@[picks@[t].1 as int].message@[picks@[t].2 as int].approx_memory by {
                assert(picks@.contains(picks@[t]));
                assert(picks@.to_multiset().count(picks@[t]) > 0);
                assert(all_loads.to_multiset().count(picks@[t]) > 0) by {
                    assert(picks@.to_multiset().add(_rest@.to_multiset()).count(picks@[t])
                        == all_loads.to_multiset().count(picks@[t]));
                }
                assert(all_loads.contains(picks@[t]));
            }
            assert(picks@.len() >= 1);
        }
        let ghost mut mutated: bool = false;
        let ghost mut reached: bool = false;
        let ghost mut wd: int = 0;
        let ghost mut ws: int = 0;
        let ghost mut wk: Seq<u8> = Seq::empty();
        let mut outcomes: Vec<(usize, usize, usize)> = Vec::new();
        let mut p: usize = 0;
        while p < picks.len()
            invariant
                self.wf(),
                p <= picks@.len(),
                picks@.len() >= 1,
                caches_memory(pre.store@) > target_memory,
                forall|t: int|
                    0 <= t < picks@.len() ==> (#[trigger] picks@[t]).1 < NUM_DATABASES
                        && picks@[t].2 < NUM_SHARDS && picks@[t].0 > 0 && picks@[t].0
                        == pre.store@[picks@[t].1 as int].message@[picks@[t].2 as int].approx_memory,
                forall|d: int, s: int|
                    0 <= d < NUM_DATABASES && 0 <= s < NUM_SHARDS ==> shard_shrunk(
                        pre.shard_map(d, s),
                        #[trigger] self.shard_map(d, s),
                    ),
                !mutated ==> *self == pre,
                mutated ==> 0 <= wd < NUM_DATABASES && 0 <= ws < NUM_SHARDS && pre.shard_map(
                    wd,
                    ws,
                ).dom().contains(wk) && !self.shard_map(wd, ws).dom().contains(wk),
                p > 0 && max_steps >= 1 ==> mutated,
                reached ==> caches_memory(self.store@) <= target_memory,
                outcomes@.len() == p,
                forall|t: int|
                    0 <= t < outcomes@.len() ==> (#[trigger] outcomes@[t]).0 < NUM_DATABASES
                        && outcomes@[t].1 < NUM_SHARDS && (reached || outcomes@[t].2
                        == max_steps || self.shard_map(
                        outcomes@[t].0 as int,
                        outcomes@[t].1 as int,
                    ) == Map::<Seq<u8>, EntryV>::empty()),
            decreases picks@.len() - p,
        {
            let (recorded, d, s) = picks[p];
            let mut steps: usize = 0;
            while steps < max_steps
                invariant_except_break
                    self.wf(),
                    p < picks@.len(),
                    d < NUM_DATABASES,
                    s < NUM_SHARDS,
                    recorded == picks@[p as int].0,
                    d == picks@[p as int].1,
                    s == picks@[p as int].2,
                    recorded > 0,
                    recorded == pre.store@[d as int].message@[s as int].approx_memory,
                    caches_memory(pre.store@) > target_memory,
                    steps <= max_steps,
                    forall|d2: int, s2: int|
                        0 <= d2 < NUM_DATABASES && 0 <= s2 < NUM_SHARDS ==> shard_shrunk(
                            pre.shard_map(d2, s2),
                            #[trigger] self.shard_map(d2, s2),
                        ),
                    !mutated ==> *self == pre,
                    mutated ==> 0 <= wd < NUM_DATABASES && 0 <= ws < NUM_SHARDS
                        && pre.shard_map(wd, ws).dom().contains(wk) && !self.shard_map(
                        wd,
                        ws,
                    ).dom().contains(wk),
                    steps > 0 ==> mutated,
                    reached ==> caches_memory(self.store@) <= target_memory,
                    outcomes@.len() == p,
                    forall|t: int|
                        0 <= t < outcomes@.len() ==> (#[trigger] outcomes@[t]).0
                            < NUM_DATABASES && outcomes@[t].1 < NUM_SHARDS && (reached
                            || outcomes@[t].2 == max_steps || self.shard_map(
                            outcomes@[t].0 as int,
                            outcomes@[t].1 as int,
                        ) == Map::<Seq<u8>, EntryV>::empty()),
                ensures
                    self.wf(),
                    max_steps >= 1 ==> mutated,
                    forall|d2: int, s2: int|
                        0 <= d2 < NUM_DATABASES && 0 <= s2 < NUM_SHARDS ==> shard_shrunk(
                            pre.shard_map(d2, s2),
                            #[trigger] self.shard_map(d2, s2),
                        ),
                    !mutated ==> *self == pre,
                    mutated ==> 0 <= wd < NUM_DATABASES && 0 <= ws < NUM_SHARDS
                        && pre.shard_map(wd, ws).dom().contains(wk) && !self.shard_map(
                        wd,
                        ws,
                    ).dom().contains(wk),
                    steps <= max_steps,
                    reached ==> caches_memory(self.store@) <= target_memory,
                    reached || steps == max_steps || self.shard_map(d as int, s as int)
                        == Map::<Seq<u8>, EntryV>::empty(),
                    outcomes@.len() == p,
                    forall|t: int|
                        0 <= t < outcomes@.len() ==> (#[trigger] outcomes@[t]).0
                            < NUM_DATABASES && outcomes@[t].1 < NUM_SHARDS && (reached
                            || outcomes@[t].2 == max_steps || self.shard_map(
                            outcomes@[t].0 as int,
                            outcomes@[t].1 as int,
                        ) == Map::<Seq<u8>, EntryV>::empty()),
                decreases max_steps - steps,
            {
                if !self.get_global_memory_can_move(target_memory) {
                    proof {
                        if !mutated {
                            assert(caches_memory(self.store@) > target_memory);
                            assert(false);
                        }
                        reached = true;
                    }
                    break;
                }
                proof {
                    assert(!reached);
                }
                let ghost mid = *self;
                let ghost mutated_before = mutated;
                let shard = &mut self.store[d].message[s];
                proof {
                    if !mutated_before {
                        assert(shard.approx_memory == recorded);
                        lemma_positive_memory_nonempty(*shard);
                    }
                }
                let evicted = shard.sample_victim();
                proof {
                    assert forall|d2: int, s2: int|
                        0 <= d2 < NUM_DATABASES && 0 <= s2 < NUM_SHARDS implies shard_shrunk(
                        pre.shard_map(d2, s2),
                        #[trigger] self.shard_map(d2, s2),
                    ) by {
                        if d2 == d && s2 == s {
                            assert(shard_shrunk(mid.shard_map(d2, s2), self.shard_map(d2, s2)));
                        } else {
                            assert(self.shard_map(d2, s2) == mid.shard_map(d2, s2));
                        }
                    }
                    if mutated_before {
                        assert(!self.shard_map(wd, ws).dom().contains(wk)) by {
                            if wd == d && ws == s {
                                assert(shard_shrunk(mid.shard_map(wd, ws), self.shard_map(wd, ws)));
                            } else {
                                assert(self.shard_map(wd, ws) == mid.shard_map(wd, ws));
                            }
                        }
                    }
                    assert forall|t: int|
                        0 <= t < outcomes@.len() && !((#[trigger] outcomes@[t]).2 == max_steps)
                        implies self.shard_map(outcomes@[t].0 as int, outcomes@[t].1 as int)
                        == Map::<Seq<u8>, EntryV>::empty() by {
                        let od = outcomes@[t].0 as int;
                        let os = outcomes@[t].1 as int;
                        assert(mid.shard_map(od, os) == Map::<Seq<u8>, EntryV>::empty());
                        if od == d && os == s {
                            assert(shard_shrunk(mid.shard_map(od, os), self.shard_map(od, os)));
                            assert(self.shard_map(od, os) =~= Map::<Seq<u8>, EntryV>::empty());
                        } else {
                            assert(self.shard_map(od, os) == mid.shard_map(od, os));
                        }
                    }
                }
                match evicted {
                    None => {
                        proof {
                            if !mutated_before {
                                assert(mid.shard_map(d as int, s as int) == Map::<
                                    Seq<u8>,
                                    EntryV,
                                >::empty());
                                assert(false);
                            }
                            assert(self.shard_map(d as int, s as int) == Map::<
                                Seq<u8>,
                                EntryV,
                            >::empty());
                        }
                        break;
                    },
                    Some(victim) => {
                        proof {
                            if !mutated_before {
                                wd = d as int;
                                ws = s as int;
                                wk = victim.0@;
                                mutated = true;
                                assert(pre.shard_map(wd, ws).dom().contains(wk));
                                assert(!self.shard_map(wd, ws).dom().contains(wk));
                            }
                        }
                    },
                }
                steps = steps + 1;
            }
            outcomes.push((d, s, steps));
            p = p + 1;
        }
        proof {
            if max_steps >= 1 {
                assert(mutated);
                assert(!maps_unchanged(pre, *self)) by {
                    if maps_unchanged(pre, *self) {
                        assert(self.shard_map(wd, ws) == pre.shard_map(wd, ws));
                    }
                }
            }
            if reached {
                assert(self.total_memory() <= target_memory);
            } else {
                assert(outcomes@.len() >= 1);
            }
        }
        outcomes
    }
}

} // verus!
