//! The LRU policy: a recency list plus a flat array of keys for O(1)
//! random sampling.

use vstd::prelude::*;
use crate::bytes_util::bytes_eq;
use crate::bytes_util::slice_to_vec8;
use crate::db::eviction::EvictionPolicy;
use crate::db::eviction::rand_index;
use crate::db::eviction::lru::lru_linklist::LruList;
use crate::db::eviction::lru::lru_linklist::lemma_remove_first;
use crate::db::eviction::lru::lru_linklist::remove_first;
use crate::db::eviction::lru::lru_linklist::unique_keys;

verus! {

broadcast use vstd::std_specs::vec::group_vec_axioms, vstd::seq::group_seq_axioms;

/// The views of a run of keys.
pub open spec fn samples_view(s: Seq<Vec<u8>>) -> Seq<Seq<u8>> {
    Seq::new(s.len(), |i: int| s[i]@)
}

/// The LRU policy state of one shard.
pub struct LruNode {
    pub list: LruList,
    pub sample_keys: Vec<Vec<u8>>,
}

impl LruNode {
    /// The keys in recency order, least recently used first.
    pub open spec fn order(self) -> Seq<Seq<u8>> {
        self.list@
    }

    /// The sample array and the recency list hold exactly the same keys,
    /// each once.
    pub open spec fn wf(self) -> bool {
        &&& unique_keys(self.list@)
        &&& unique_keys(samples_view(self.sample_keys@))
        &&& samples_view(self.sample_keys@).len() == self.list@.len()
        &&& forall|x: Seq<u8>|
            samples_view(self.sample_keys@).contains(x) <==> self.list@.contains(x)
    }

    /// An empty policy.
    pub fn new() -> (r: LruNode)
        ensures
            r.wf(),
            r.order() == Seq::<Seq<u8>>::empty(),
    {
        let r = LruNode { list: LruList::new(), sample_keys: Vec::new() };
        proof {
            assert(samples_view(r.sample_keys@) =~= Seq::<Seq<u8>>::empty());
            assert(r.order() =~= Seq::<Seq<u8>>::empty());
        }
        r
    }
}

/// The first index of `key` in the sample array, if any.
fn find_sample(v: &Vec<Vec<u8>>, key: &Vec<u8>) -> (r: Option<usize>)
    ensures
        match r {
            Some(i) => i < v@.len() && samples_view(v@)[i as int] == key@ && forall|j: int|
                0 <= j < i ==> samples_view(v@)[j] != key@,
            None => !samples_view(v@).contains(key@),
        },
{
    let n = v.len();
    let mut i: usize = 0;
    while i < n
        invariant
            i <= n,
            n == v@.len(),
            forall|j: int| 0 <= j < i ==> samples_view(v@)[j] != key@,
        decreases n - i,
    {
        if bytes_eq(&v[i], key) {
            return Some(i);
        }
        i = i + 1;
    }
    assert(!samples_view(v@).contains(key@)) by {
        if samples_view(v@).contains(key@) {
            let j = choose|j: int|
                0 <= j < samples_view(v@).len() && samples_view(v@)[j] == key@;
        }
    }
    None
}

/// Pushing a key extends the key set by it.
proof fn lemma_contains_push(s: Seq<Seq<u8>>, k: Seq<u8>, x: Seq<u8>)
    ensures
        s.push(k).contains(x) <==> (s.contains(x) || x == k),
{
    if s.push(k).contains(x) {
        let i = choose|i: int| 0 <= i < s.push(k).len() && s.push(k)[i] == x;
        if i < s.len() {
            assert(s[i] == x);
        }
    }
    if s.contains(x) {
        let i = choose|i: int| 0 <= i < s.len() && s[i] == x;
        assert(s.push(k)[i] == x);
    }
    if x == k {
        assert(s.push(k)[s.len() as int] == x);
    }
}

/// Swap-removing index `i` of a duplicate-free run of keys removes
/// exactly the key at `i`.
proof fn lemma_swap_remove_set(s: Seq<Seq<u8>>, i: int)
    requires
        unique_keys(s),
        0 <= i < s.len(),
    ensures
        unique_keys(s.update(i, s.last()).drop_last()),
        s.update(i, s.last()).drop_last().len() == s.len() - 1,
        forall|x: Seq<u8>|
            s.update(i, s.last()).drop_last().contains(x) <==> (s.contains(x) && x != s[i]),
{
    let n = s.len() as int;
    let r = s.update(i, s.last()).drop_last();
    assert(r.len() == n - 1);
    assert forall|x: Seq<u8>| r.contains(x) implies (s.contains(x) && x != s[i]) by {
        let j = choose|j: int| 0 <= j < r.len() && r[j] == x;
        if j == i {
            assert(x == s[n - 1]);
            assert(s.contains(x)) by {
                assert(s[n - 1] == x);
            }
            if i < n - 1 {
                assert(s[i] != s[n - 1]);
            }
        } else {
            assert(r[j] == s[j]);
            assert(s.contains(x)) by {
                assert(s[j] == x);
            }
            assert(x != s[i]);
        }
    }
    assert forall|x: Seq<u8>| s.contains(x) && x != s[i] implies r.contains(x) by {
        let j = choose|j: int| 0 <= j < s.len() && s[j] == x;
        if j == n - 1 {
            assert(i < n - 1);
            assert(r[i] == s.last());
        } else if j == i {
        } else {
            assert(r[j] == s[j]);
        }
    }
    assert forall|a: int, b: int| 0 <= a < b < r.len() implies r[a] != r[b] by {
        let ra = if a == i { s[n - 1] } else { s[a] };
        let rb = if b == i { s[n - 1] } else { s[b] };
        assert(r[a] == ra && r[b] == rb);
    }
}

impl EvictionPolicy for LruNode {
    open spec fn inv(&self) -> bool {
        self.wf()
    }

    open spec fn tracked_keys(&self) -> Set<Seq<u8>> {
        self.list@.to_set()
    }

    open spec fn order(&self) -> Seq<Seq<u8>> {
        self.list@
    }

    open spec fn write_order(&self, key: Seq<u8>) -> Seq<Seq<u8>> {
        if self.list@.contains(key) {
            remove_first(self.list@, key).push(key)
        } else {
            self.list@.push(key)
        }
    }

    open spec fn read_order(&self, key: Seq<u8>) -> Seq<Seq<u8>> {
        if self.list@.contains(key) {
            remove_first(self.list@, key).push(key)
        } else {
            self.list@
        }
    }

    fn on_write(&mut self, key: Vec<u8>) {
        let ghost pre = self.list@;
        let ghost presamples = samples_view(self.sample_keys@);
        match self.list.find(&key) {
            Some(idx) => {
                proof {
                    assert(pre.contains(key@)) by {
                        assert(pre[idx as int] == key@);
                    }
                }
                self.list.push_mid_back(&key);
                proof {
                    lemma_remove_first(pre, key@);
                    let moved = remove_first(pre, key@).push(key@);
                    assert(unique_keys(moved)) by {
                        assert forall|a: int, b: int|
                            0 <= a < b < moved.len() implies moved[a] != moved[b] by {
                            if b == moved.len() - 1 {
                                assert(moved[b] == key@);
                                assert(remove_first(pre, key@).contains(moved[a])) by {
                                    assert(remove_first(pre, key@)[a] == moved[a]);
                                }
                            } else {
                                assert(moved[a] == remove_first(pre, key@)[a]);
                                assert(moved[b] == remove_first(pre, key@)[b]);
                            }
                        }
                    }
                    assert forall|x: Seq<u8>| self.list@.contains(x) <==> (pre.contains(x)
                        || x == key@) by {
                        lemma_contains_push(remove_first(pre, key@), key@, x);
                    }
                    assert(self.list@.to_set() =~= pre.to_set().insert(key@));
                    assert(self.list@.len() == pre.len());
                    assert forall|x: Seq<u8>|
                        samples_view(self.sample_keys@).contains(x)
                            <==> self.list@.contains(x) by {
                        assert(presamples.contains(x) <==> pre.contains(x));
                        assert(self.list@.contains(x) <==> (pre.contains(x) || x == key@));
                    }
                    assert(self.wf());
                }
            },
            None => {
                let copy = slice_to_vec8(key.as_slice());
                self.list.push_back(copy);
                let ghost presamples = samples_view(self.sample_keys@);
                self.sample_keys.push(key);
                proof {
                    assert(samples_view(self.sample_keys@) =~= presamples.push(key@));
                    assert(unique_keys(pre.push(key@))) by {
                        assert forall|a: int, b: int|
                            0 <= a < b < pre.push(key@).len() implies pre.push(key@)[a]
                            != pre.push(key@)[b] by {
                            if b == pre.len() {
                                assert(pre.push(key@)[b] == key@);
                                assert(pre.contains(pre[a])) by {
                                    assert(pre[a] == pre.push(key@)[a]);
                                }
                            }
                        }
                    }
                    assert(unique_keys(presamples.push(key@))) by {
                        assert forall|a: int, b: int|
                            0 <= a < b < presamples.push(key@).len() implies presamples.push(
                            key@,
                        )[a] != presamples.push(key@)[b] by {
                            if b == presamples.len() {
                                assert(presamples.contains(presamples[a])) by {
                                    assert(presamples[a] == presamples.push(key@)[a]);
                                }
                                assert(!presamples.contains(key@));
                            }
                        }
                    }
                    assert forall|x: Seq<u8>| samples_view(self.sample_keys@).contains(x)
                        <==> self.list@.contains(x) by {
                        lemma_contains_push(presamples, key@, x);
                        lemma_contains_push(pre, key@, x);
                    }
                    assert forall|x: Seq<u8>| self.list@.contains(x) <==> (pre.contains(x)
                        || x == key@) by {
                        lemma_contains_push(pre, key@, x);
                    }
                    assert(self.list@.to_set() =~= pre.to_set().insert(key@));
                    assert(self.wf());
                }
            },
        }
    }

    fn on_read(&mut self, key: &Vec<u8>) {
        let ghost pre = self.list@;
        let ghost presamples = samples_view(self.sample_keys@);
        match self.list.find(key) {
            Some(idx) => {
                proof {
                    assert(pre.contains(key@)) by {
                        assert(pre[idx as int] == key@);
                    }
                }
                self.list.push_mid_back(key);
                proof {
                    lemma_remove_first(pre, key@);
                    let moved = remove_first(pre, key@).push(key@);
                    assert(unique_keys(moved)) by {
                        assert forall|a: int, b: int|
                            0 <= a < b < moved.len() implies moved[a] != moved[b] by {
                            if b == moved.len() - 1 {
                                assert(moved[b] == key@);
                                assert(remove_first(pre, key@).contains(moved[a])) by {
                                    assert(remove_first(pre, key@)[a] == moved[a]);
                                }
                            } else {
                                assert(moved[a] == remove_first(pre, key@)[a]);
                                assert(moved[b] == remove_first(pre, key@)[b]);
                            }
                        }
                    }
                    assert forall|x: Seq<u8>| self.list@.contains(x) <==> pre.contains(x) by {
                        lemma_contains_push(remove_first(pre, key@), key@, x);
                        assert(pre.contains(key@));
                    }
                    assert(self.list@.to_set() =~= pre.to_set());
                    assert(self.list@.len() == pre.len());
                    assert forall|x: Seq<u8>|
                        samples_view(self.sample_keys@).contains(x)
                            <==> self.list@.contains(x) by {
                        assert(presamples.contains(x) <==> pre.contains(x));
                        assert(self.list@.contains(x) <==> pre.contains(x));
                    }
                    assert(self.wf());
                }
            },
            None => {
            },
        }
    }

    fn on_delete(&mut self, key: &Vec<u8>) {
        let ghost pre = self.list@;
        let ghost presamples = samples_view(self.sample_keys@);
        self.list.pop_node(key);
        proof {
            lemma_remove_first(pre, key@);
        }
        match find_sample(&self.sample_keys, key) {
            Some(i) => {
                let _ = self.sample_keys.swap_remove(i);
                proof {
                    assert(presamples.contains(key@)) by {
                        assert(presamples[i as int] == key@);
                    }
                    assert(pre.contains(key@));
                    lemma_swap_remove_set(presamples, i as int);
                    assert(samples_view(self.sample_keys@) =~= presamples.update(
                        i as int,
                        presamples.last(),
                    ).drop_last());
                    assert forall|x: Seq<u8>| self.list@.contains(x) <==> (pre.contains(x)
                        && x != key@) by {}
                    assert(self.list@.to_set() =~= pre.to_set().remove(key@));
                    assert(self.list@.len() == pre.len() - 1);
                    assert forall|x: Seq<u8>|
                        samples_view(self.sample_keys@).contains(x)
                            <==> self.list@.contains(x) by {
                        assert(samples_view(self.sample_keys@).contains(x) <==> (
                        presamples.contains(x) && x != key@));
                        assert(presamples.contains(x) <==> pre.contains(x));
                        assert(self.list@.contains(x) <==> (pre.contains(x) && x != key@));
                    }
                    assert(self.wf());
                }
            },
            None => {
                proof {
                    assert(!pre.contains(key@));
                    assert(!presamples.contains(key@));
                    assert(self.list@.to_set() =~= pre.to_set().remove(key@));
                    assert(self.wf());
                }
            },
        }
    }

    fn get_random_sample_key(&self) -> (r: Option<Vec<u8>>) {
        let n = self.sample_keys.len();
        if n == 0 {
            proof {
                assert(self.list@.len() == 0);
                assert(self.list@.to_set() =~= Set::<Seq<u8>>::empty());
            }
            None
        } else {
            let i = rand_index(n);
            let k = slice_to_vec8(self.sample_keys[i].as_slice());
            proof {
                assert(samples_view(self.sample_keys@).contains(k@)) by {
                    assert(samples_view(self.sample_keys@)[i as int] == k@);
                }
            }
            Some(k)
        }
    }

    fn pop_victim(&mut self) -> (r: Option<Vec<u8>>) {
        let ghost pre = self.list@;
        let ghost presamples = samples_view(self.sample_keys@);
        match self.list.pop_front() {
            None => {
                proof {
                    assert(pre.to_set() =~= Set::<Seq<u8>>::empty());
                }
                None
            },
            Some(k) => {
                proof {
                    assert(pre.contains(k@)) by {
                        assert(pre[0] == k@);
                    }
                    assert forall|x: Seq<u8>| self.list@.contains(x) implies pre.contains(x)
                        && x != k@ by {
                        let j = choose|j: int|
                            0 <= j < self.list@.len() && self.list@[j] == x;
                        assert(pre[j + 1] == x);
                    }
                    assert forall|x: Seq<u8>| pre.contains(x) && x != k@ implies self.list@.contains(
                        x,
                    ) by {
                        let j = choose|j: int| 0 <= j < pre.len() && pre[j] == x;
                        assert(j != 0);
                        assert(self.list@[j - 1] == x);
                    }
                    assert(unique_keys(self.list@)) by {
                        assert(forall|a: int, b: int|
                            0 <= a < b < self.list@.len() ==> self.list@[a] == pre[a + 1]
                                && self.list@[b] == pre[b + 1]);
                    }
                }
                match find_sample(&self.sample_keys, &k) {
                    Some(i) => {
                        let _ = self.sample_keys.swap_remove(i);
                        proof {
                            lemma_swap_remove_set(presamples, i as int);
                            assert(samples_view(self.sample_keys@) =~= presamples.update(
                                i as int,
                                presamples.last(),
                            ).drop_last());
                            assert(self.list@.to_set() =~= pre.to_set().remove(k@));
                            assert(presamples[i as int] == k@);
                            assert(self.list@.len() == pre.len() - 1);
                            assert forall|x: Seq<u8>|
                                samples_view(self.sample_keys@).contains(x)
                                    <==> self.list@.contains(x) by {
                                assert(samples_view(self.sample_keys@).contains(x) <==> (
                                presamples.contains(x) && x != k@));
                                assert(presamples.contains(x) <==> pre.contains(x));
                                assert(self.list@.contains(x) <==> (pre.contains(x) && x != k@));
                            }
                            assert(self.wf());
                        }
                        Some(k)
                    },
                    None => {
                        // The invariant rules this out: the popped key was
                        // in the list, so it is in the sample array.
                        proof {
                            assert(presamples.contains(k@));
                            assert(false);
                        }
                        Some(k)
                    },
                }
            },
        }
    }
}

} // verus!
