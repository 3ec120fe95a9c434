//! Stored values and their precomputed memory cost.

use vstd::prelude::*;

verus! {

/// The flat cost charged for an entry's struct itself.
pub const ENTRY_BASE_COST: usize = 48;

/// The cost charged per element slot of a container.
pub const ELEMENT_COST: usize = 16;

/// The cost charged per key/value slot of a hash container.
pub const HASH_PAIR_COST: usize = 48;

/// One element of a container value: raw bytes, or an integer chosen as
/// an encoding optimization when the bytes read as a decimal integer.
pub enum Element {
    Str(Vec<u8>),
    Int(i64),
}

/// A stored value: a single element, or a container of elements.
pub enum Value {
    Simple(Element),
    List(Vec<Element>),
    Hash(Vec<(Vec<u8>, Element)>),
    SetVal(Vec<Element>),
}

/// What a key maps to: the value, an optional absolute deadline in
/// milliseconds, and the memory cost computed when the entry was made.
pub struct ValueEntry {
    pub data: Value,
    pub expires_at: Option<u64>,
    pub data_size: usize,
}

/// The mathematical shape of an element.
pub enum ElementV {
    Str(Seq<u8>),
    Int(i64),
}

/// The mathematical shape of a value.
pub enum ValueV {
    Simple(ElementV),
    List(Seq<ElementV>),
    Hash(Seq<(Seq<u8>, ElementV)>),
    SetVal(Seq<ElementV>),
}

/// The mathematical shape of an entry.
pub struct EntryV {
    pub data: ValueV,
    pub expires_at: Option<u64>,
    pub data_size: nat,
}

impl View for Element {
    type V = ElementV;

    open spec fn view(&self) -> ElementV {
        match self {
            Element::Str(b) => ElementV::Str(b@),
            Element::Int(i) => ElementV::Int(*i),
        }
    }
}

/// Element views, member by member.
pub open spec fn elements_view(s: Seq<Element>) -> Seq<ElementV> {
    Seq::new(s.len(), |i: int| s[i]@)
}

/// Pair views, member by member.
pub open spec fn pairs_view(s: Seq<(Vec<u8>, Element)>) -> Seq<(Seq<u8>, ElementV)> {
    Seq::new(s.len(), |i: int| (s[i].0@, s[i].1@))
}

impl View for Value {
    type V = ValueV;

    open spec fn view(&self) -> ValueV {
        match self {
            Value::Simple(e) => ValueV::Simple(e@),
            Value::List(es) => ValueV::List(elements_view(es@)),
            Value::Hash(kvs) => ValueV::Hash(pairs_view(kvs@)),
            Value::SetVal(es) => ValueV::SetVal(elements_view(es@)),
        }
    }
}

impl View for ValueEntry {
    type V = EntryV;

    open spec fn view(&self) -> EntryV {
        EntryV { data: self.data@, expires_at: self.expires_at, data_size: self.data_size as nat }
    }
}

/// Heap bytes attributable to one element.
pub open spec fn element_heap_size(e: ElementV) -> nat {
    match e {
        ElementV::Str(b) => b.len(),
        ElementV::Int(_) => 0,
    }
}

/// Heap bytes attributable to a run of elements, with the per-slot cost.
pub open spec fn list_heap_size(es: Seq<ElementV>) -> nat
    decreases es.len(),
{
    if es.len() == 0 {
        0
    } else {
        list_heap_size(es.drop_last()) + element_heap_size(es.last()) + ELEMENT_COST as nat
    }
}

/// Heap bytes attributable to a run of key/value pairs.
pub open spec fn hash_heap_size(kvs: Seq<(Seq<u8>, ElementV)>) -> nat
    decreases kvs.len(),
{
    if kvs.len() == 0 {
        0
    } else {
        hash_heap_size(kvs.drop_last()) + kvs.last().0.len() + element_heap_size(kvs.last().1)
            + HASH_PAIR_COST as nat
    }
}

/// Heap bytes attributable to a whole value.
pub open spec fn value_heap_size(v: ValueV) -> nat {
    match v {
        ValueV::Simple(e) => element_heap_size(e),
        ValueV::List(es) => list_heap_size(es),
        ValueV::Hash(kvs) => hash_heap_size(kvs),
        ValueV::SetVal(es) => list_heap_size(es),
    }
}

/// The total cost of an entry holding `v`, clipped to what `usize` holds.
pub open spec fn entry_cost(v: ValueV) -> nat {
    if ENTRY_BASE_COST + value_heap_size(v) > usize::MAX {
        usize::MAX as nat
    } else {
        ENTRY_BASE_COST as nat + value_heap_size(v)
    }
}

/// `a + b`, clipped to `usize`.
fn sat_add(a: usize, b: usize) -> (r: usize)
    ensures
        r == if a + b > usize::MAX {
            usize::MAX as int
        } else {
            a + b
        },
{
    if a > usize::MAX - b {
        usize::MAX
    } else {
        a + b
    }
}

impl Element {
    /// Heap bytes this element owns.
    pub fn heap_size(&self) -> (r: usize)
        ensures
            r == element_heap_size(self@),
    {
        match self {
            Element::Str(b) => b.len(),
            Element::Int(_) => 0,
        }
    }
}

impl Value {
    /// Heap bytes this value owns, clipped to `usize`.
    pub fn heap_memory_size(&self) -> (r: usize)
        ensures
            r == if value_heap_size(self@) > usize::MAX {
                usize::MAX as int
            } else {
                value_heap_size(self@) as int
            },
    {
        match self {
            Value::Simple(e) => e.heap_size(),
            Value::List(es) => sum_elements(es),
            Value::Hash(kvs) => sum_pairs(kvs),
            Value::SetVal(es) => sum_elements(es),
        }
    }
}

/// Sum the heap cost of a run of elements, clipped to `usize`.
fn sum_elements(es: &Vec<Element>) -> (r: usize)
    ensures
        r == if list_heap_size(elements_view(es@)) > usize::MAX {
            usize::MAX as int
        } else {
            list_heap_size(elements_view(es@)) as int
        },
{
    let ghost whole = elements_view(es@);
    let n = es.len();
    let mut acc: usize = 0;
    let mut i: usize = 0;
    while i < n
        invariant
            i <= n,
            n == es@.len(),
            whole == elements_view(es@),
            acc == if list_heap_size(whole.subrange(0, i as int)) > usize::MAX {
                usize::MAX as int
            } else {
                list_heap_size(whole.subrange(0, i as int)) as int
            },
        decreases n - i,
    {
        let h = es[i].heap_size();
        let step = sat_add(h, ELEMENT_COST);
        acc = sat_add(acc, step);
        proof {
            let pre = whole.subrange(0, i as int);
            let post = whole.subrange(0, i + 1 as int);
            assert(post.drop_last() =~= pre);
            assert(post.last() == whole[i as int]);
            assert(whole[i as int] == es@[i as int]@);
        }
        i = i + 1;
    }
    proof {
        assert(whole.subrange(0, n as int) =~= whole);
    }
    acc
}

/// Sum the heap cost of a run of pairs, clipped to `usize`.
fn sum_pairs(kvs: &Vec<(Vec<u8>, Element)>) -> (r: usize)
    ensures
        r == if hash_heap_size(pairs_view(kvs@)) > usize::MAX {
            usize::MAX as int
        } else {
            hash_heap_size(pairs_view(kvs@)) as int
        },
{
    let ghost whole = pairs_view(kvs@);
    let n = kvs.len();
    let mut acc: usize = 0;
    let mut i: usize = 0;
    while i < n
        invariant
            i <= n,
            n == kvs@.len(),
            whole == pairs_view(kvs@),
            acc == if hash_heap_size(whole.subrange(0, i as int)) > usize::MAX {
                usize::MAX as int
            } else {
                hash_heap_size(whole.subrange(0, i as int)) as int
            },
        decreases n - i,
    {
        let klen = kvs[i].0.len();
        let h = kvs[i].1.heap_size();
        let step = sat_add(sat_add(klen, h), HASH_PAIR_COST);
        acc = sat_add(acc, step);
        proof {
            let pre = whole.subrange(0, i as int);
            let post = whole.subrange(0, i + 1 as int);
            assert(post.drop_last() =~= pre);
            assert(post.last() == whole[i as int]);
            assert(whole[i as int] == (kvs@[i as int].0@, kvs@[i as int].1@));
        }
        i = i + 1;
    }
    proof {
        assert(whole.subrange(0, n as int) =~= whole);
    }
    acc
}

impl ValueEntry {
    /// Make an entry, computing its memory cost once, now. The cost
    /// charges a fixed share for the entry's own struct plus per-slot
    /// and per-byte shares for what the value owns; a container's
    /// allocated capacity is not observable to the verifier, so slots
    /// are charged by length.
    pub fn new(data: Value, expires_at: Option<u64>) -> (r: ValueEntry)
        ensures
            r.data == data,
            r.expires_at == expires_at,
            r.data_size == entry_cost(data@),
    {
        let heap = data.heap_memory_size();
        let total = sat_add(ENTRY_BASE_COST, heap);
        ValueEntry { data, expires_at, data_size: total }
    }

    /// The stored memory cost.
    pub fn get_size(&self) -> (r: usize)
        ensures
            r == self.data_size,
    {
        self.data_size
    }
}

} // verus!
