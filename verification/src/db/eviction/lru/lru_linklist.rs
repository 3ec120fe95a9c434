//! The recency list of the LRU policy.
//!
//! Index 0 is the least recently used key, the back is the most recently
//! used. An intrusive doubly-linked list would unlink in O(1); this
//! list is a plain vector with the same observable behavior, stated
//! over its sequence of keys, which keeps every operation in reach of
//! the verifier.

use vstd::prelude::*;
use crate::bytes_util::bytes_eq;

verus! {

broadcast use vstd::std_specs::vec::group_vec_axioms, vstd::seq::group_seq_axioms;

/// One link of the recency list.
pub struct Node {
    pub key: Vec<u8>,
}

impl Node {
    /// Wrap a key in a list node.
    pub fn new(key: Vec<u8>) -> (r: Node)
        ensures
            r.key == key,
    {
        Node { key }
    }
}

/// The keys of a run of nodes, in list order.
pub open spec fn keys_view(s: Seq<Node>) -> Seq<Seq<u8>> {
    Seq::new(s.len(), |i: int| s[i].key@)
}

/// No key occurs twice.
pub open spec fn unique_keys(s: Seq<Seq<u8>>) -> bool {
    forall|i: int, j: int| 0 <= i < j < s.len() ==> s[i] != s[j]
}

/// `s` with the first occurrence of `k` removed, if there is one.
pub open spec fn remove_first(s: Seq<Seq<u8>>, k: Seq<u8>) -> Seq<Seq<u8>>
    decreases s.len(),
{
    if s.len() == 0 {
        s
    } else if s[0] == k {
        s.drop_first()
    } else {
        seq![s[0]] + remove_first(s.drop_first(), k)
    }
}

/// What removing the first occurrence does to length, membership, and
/// uniqueness.
pub proof fn lemma_remove_first(s: Seq<Seq<u8>>, k: Seq<u8>)
    ensures
        !s.contains(k) ==> remove_first(s, k) == s,
        s.contains(k) ==> remove_first(s, k).len() == s.len() - 1,
        unique_keys(s) ==> unique_keys(remove_first(s, k)),
        unique_keys(s) ==> forall|x: Seq<u8>|
            remove_first(s, k).contains(x) <==> (s.contains(x) && x != k),
    decreases s.len(),
{
    if s.len() == 0 {
        assert(remove_first(s, k) =~= s);
    } else if s[0] == k {
        let rest = s.drop_first();
        assert(s.contains(k)) by {
            assert(s[0] == k);
        }
        if unique_keys(s) {
            assert forall|x: Seq<u8>| rest.contains(x) <==> (s.contains(x) && x != k) by {
                if rest.contains(x) {
                    let i = choose|i: int| 0 <= i < rest.len() && rest[i] == x;
                    assert(s[i + 1] == x);
                    assert(x != k);
                }
                if s.contains(x) && x != k {
                    let i = choose|i: int| 0 <= i < s.len() && s[i] == x;
                    assert(i != 0);
                    assert(rest[i - 1] == x);
                }
            }
            assert(unique_keys(rest)) by {
                assert(forall|i: int, j: int|
                    0 <= i < j < rest.len() ==> rest[i] == s[i + 1] && rest[j] == s[j + 1]);
            }
        }
    } else {
        let rest = s.drop_first();
        lemma_remove_first(rest, k);
        let r = seq![s[0]] + remove_first(rest, k);
        assert(remove_first(s, k) == r);
        if !s.contains(k) {
            assert(!rest.contains(k)) by {
                if rest.contains(k) {
                    let i = choose|i: int| 0 <= i < rest.len() && rest[i] == k;
                    assert(s[i + 1] == k);
                }
            }
            assert(r =~= s) by {
                assert(forall|i: int|
                    0 <= i < rest.len() ==> rest[i] == #[trigger] s[i + 1]);
            }
        }
        if s.contains(k) {
            assert(rest.contains(k)) by {
                let i = choose|i: int| 0 <= i < s.len() && s[i] == k;
                assert(i != 0);
                assert(rest[i - 1] == k);
            }
        }
        if unique_keys(s) {
            assert(unique_keys(rest)) by {
                assert(forall|i: int, j: int|
                    0 <= i < j < rest.len() ==> rest[i] == s[i + 1] && rest[j] == s[j + 1]);
            }
            let rr = remove_first(rest, k);
            assert forall|x: Seq<u8>| r.contains(x) <==> (s.contains(x) && x != k) by {
                if r.contains(x) {
                    let i = choose|i: int| 0 <= i < r.len() && r[i] == x;
                    if i == 0 {
                        assert(x == s[0]);
                        assert(s.contains(x)) by {
                            assert(s[0] == x);
                        }
                        assert(x != k);
                    } else {
                        assert(rr.contains(x)) by {
                            assert(rr[i - 1] == x);
                        }
                        assert(rest.contains(x) && x != k);
                        let j = choose|j: int| 0 <= j < rest.len() && rest[j] == x;
                        assert(s[j + 1] == x);
                    }
                }
                if s.contains(x) && x != k {
                    let i = choose|i: int| 0 <= i < s.len() && s[i] == x;
                    if i == 0 {
                        assert(r[0] == x);
                    } else {
                        assert(rest.contains(x)) by {
                            assert(rest[i - 1] == x);
                        }
                        assert(rr.contains(x));
                        let j = choose|j: int| 0 <= j < rr.len() && rr[j] == x;
                        assert(r[j + 1] == x);
                    }
                }
            }
            assert(unique_keys(r)) by {
                assert forall|i: int, j: int| 0 <= i < j < r.len() implies r[i] != r[j] by {
                    if i == 0 {
                        assert(r[j] == rr[j - 1]);
                        assert(rr.contains(rr[j - 1]));
                        assert(rest.contains(rr[j - 1]));
                        assert(!rest.contains(s[0])) by {
                            if rest.contains(s[0]) {
                                let m = choose|m: int| 0 <= m < rest.len() && rest[m] == s[0];
                                assert(s[m + 1] == s[0]);
                            }
                        }
                    } else {
                        assert(r[i] == rr[i - 1] && r[j] == rr[j - 1]);
                        assert(unique_keys(rr));
                    }
                }
            }
        }
    }
}

/// The recency list.
pub struct LruList {
    pub items: Vec<Node>,
}

impl View for LruList {
    type V = Seq<Seq<u8>>;

    open spec fn view(&self) -> Seq<Seq<u8>> {
        keys_view(self.items@)
    }
}

impl LruList {
    /// An empty list.
    pub fn new() -> (r: LruList)
        ensures
            r@ == Seq::<Seq<u8>>::empty(),
    {
        let r = LruList { items: Vec::new() };
        proof {
            assert(r@ =~= Seq::<Seq<u8>>::empty());
        }
        r
    }

    /// How many keys the list holds.
    pub fn len(&self) -> (r: usize)
        ensures
            r == self@.len(),
    {
        self.items.len()
    }

    /// The index of the first node holding `key`, if any.
    pub fn find(&self, key: &Vec<u8>) -> (r: Option<usize>)
        ensures
            match r {
                Some(i) => i < self@.len() && self@[i as int] == key@ && forall|j: int|
                    0 <= j < i ==> self@[j] != key@,
                None => !self@.contains(key@),
            },
    {
        let n = self.items.len();
        let mut i: usize = 0;
        while i < n
            invariant
                i <= n,
                n == self.items@.len(),
                forall|j: int| 0 <= j < i ==> self@[j] != key@,
            decreases n - i,
        {
            if bytes_eq(&self.items[i].key, key) {
                return Some(i);
            }
            i = i + 1;
        }
        assert(!self@.contains(key@)) by {
            if self@.contains(key@) {
                let j = choose|j: int| 0 <= j < self@.len() && self@[j] == key@;
            }
        }
        None
    }

    /// Append `key` as the most recently used.
    pub fn push_back(&mut self, key: Vec<u8>)
        ensures
            final(self)@ == old(self)@.push(key@),
    {
        let ghost pre = self@;
        self.items.push(Node { key });
        proof {
            assert(self@ =~= pre.push(self.items@.last().key@));
        }
    }

    /// Move the first node holding `key` to the back; leave the list as
    /// it is when the key is absent.
    pub fn push_mid_back(&mut self, key: &Vec<u8>)
        ensures
            old(self)@.contains(key@) ==> final(self)@ == remove_first(old(self)@, key@).push(
                key@,
            ),
            !old(self)@.contains(key@) ==> final(self)@ == old(self)@,
    {
        let ghost pre = self@;
        match self.find(key) {
            None => {
            },
            Some(i) => {
                let node = self.items.remove(i);
                proof {
                    assert(pre.contains(key@)) by {
                        assert(pre[i as int] == key@);
                    }
                    lemma_remove_at_is_remove_first(pre, key@, i as int);
                    assert(self@ =~= pre.remove(i as int));
                }
                self.items.push(node);
                proof {
                    assert(self@ =~= pre.remove(i as int).push(key@));
                }
            },
        }
    }

    /// Take the least recently used key off the front.
    pub fn pop_front(&mut self) -> (r: Option<Vec<u8>>)
        ensures
            match r {
                Some(k) => old(self)@.len() > 0 && k@ == old(self)@[0] && final(self)@ == old(
                    self,
                )@.drop_first(),
                None => old(self)@.len() == 0 && final(self)@ == old(self)@,
            },
    {
        let ghost pre = self@;
        if self.items.len() == 0 {
            return None;
        }
        let node = self.items.remove(0);
        proof {
            assert(self@ =~= pre.drop_first());
        }
        Some(node.key)
    }

    /// Unlink the first node holding `key`; leave the list as it is when
    /// the key is absent.
    pub fn pop_node(&mut self, key: &Vec<u8>)
        ensures
            final(self)@ == remove_first(old(self)@, key@),
    {
        let ghost pre = self@;
        match self.find(key) {
            None => {
                proof {
                    lemma_remove_first(pre, key@);
                }
            },
            Some(i) => {
                let _ = self.items.remove(i);
                proof {
                    assert(pre.contains(key@)) by {
                        assert(pre[i as int] == key@);
                    }
                    lemma_remove_at_is_remove_first(pre, key@, i as int);
                    assert(self@ =~= pre.remove(i as int));
                }
            },
        }
    }
}

/// Removing at the index of the first occurrence is `remove_first`.
proof fn lemma_remove_at_is_remove_first(s: Seq<Seq<u8>>, k: Seq<u8>, i: int)
    requires
        0 <= i < s.len(),
        s[i] == k,
        forall|j: int| 0 <= j < i ==> s[j] != k,
    ensures
        s.remove(i) == remove_first(s, k),
    decreases s.len(),
{
    if i == 0 {
        assert(s.remove(0) =~= s.drop_first());
    } else {
        let rest = s.drop_first();
        assert(rest[i - 1] == k);
        assert(forall|j: int| 0 <= j < i - 1 ==> rest[j] == #[trigger] s[j + 1]);
        lemma_remove_at_is_remove_first(rest, k, i - 1);
        assert(s[0] != k);
        assert(remove_first(s, k) == seq![s[0]] + rest.remove(i - 1));
        assert(s.remove(i) =~= seq![s[0]] + rest.remove(i - 1));
    }
}

} // verus!
