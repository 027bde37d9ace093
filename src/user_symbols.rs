use crate::chunked_index_vec::ChunkedIndexVec;
use crate::fnv::{fnv1a_32, fnv1a_32_spec};
use crate::typed_index::TypedIndex;
use vstd::hash_map::HashMapWithView;
use vstd::prelude::*;

verus! {

broadcast use ChunkedIndexVec::lemma_len_bound;

/// Handle of an interned identifier.
#[derive(Clone, Copy, PartialEq, Eq, Structural, Debug, Hash)]
pub struct IdentifierId {
    raw: u32,
}

impl IdentifierId {
    pub fn value(&self) -> (r: u32)
        ensures
            r == self.index(),
    {
        self.raw
    }
}

impl TypedIndex for IdentifierId {
    closed spec fn index(&self) -> nat {
        self.raw as nat
    }

    fn from_index(i: usize) -> (r: Self) {
        IdentifierId { raw: i as u32 }
    }

    fn to_index(&self) -> (r: usize) {
        self.raw as usize
    }
}

/// Handle of an interned string literal.
#[derive(Clone, Copy, PartialEq, Eq, Structural, Debug, Hash)]
pub struct StringLiteralId {
    raw: u32,
}

impl StringLiteralId {
    pub fn value(&self) -> (r: u32)
        ensures
            r == self.index(),
    {
        self.raw
    }
}

impl TypedIndex for StringLiteralId {
    closed spec fn index(&self) -> nat {
        self.raw as nat
    }

    fn from_index(i: usize) -> (r: Self) {
        StringLiteralId { raw: i as u32 }
    }

    fn to_index(&self) -> (r: usize) {
        self.raw as usize
    }
}

/// Handle of an interned number literal.
#[derive(Clone, Copy, PartialEq, Eq, Structural, Debug, Hash)]
pub struct NumberLiteralId {
    raw: u32,
}

impl NumberLiteralId {
    pub fn value(&self) -> (r: u32)
        ensures
            r == self.index(),
    {
        self.raw
    }
}

impl TypedIndex for NumberLiteralId {
    closed spec fn index(&self) -> nat {
        self.raw as nat
    }

    fn from_index(i: usize) -> (r: Self) {
        NumberLiteralId { raw: i as u32 }
    }

    fn to_index(&self) -> (r: usize) {
        self.raw as usize
    }
}

/// The unique identifiers and literals met during compilation.
pub struct UserSymbols {
    pub identifiers: UniqueChunkedIndexVec<IdentifierId>,
    pub string_literals: UniqueChunkedIndexVec<StringLiteralId>,
    pub number_literals: UniqueChunkedIndexVec<NumberLiteralId>,
}

impl UserSymbols {
    pub fn new() -> (r: Self)
        ensures
            r.identifiers.wf() && r.identifiers@.len() == 0,
            r.string_literals.wf() && r.string_literals@.len() == 0,
            r.number_literals.wf() && r.number_literals@.len() == 0,
    {
        UserSymbols {
            identifiers: UniqueChunkedIndexVec::new(),
            string_literals: UniqueChunkedIndexVec::new(),
            number_literals: UniqueChunkedIndexVec::new(),
        }
    }
}

/// An append-only set of byte strings, each stored once and addressed by a
/// handle of type `I`. A map from FNV-1a hashes to the positions holding
/// entries of that hash finds an entry's handle without scanning the rest.
pub struct UniqueChunkedIndexVec<I> {
    vec: ChunkedIndexVec<Vec<u8>, I>,
    buckets: HashMapWithView<u32, Vec<u32>>,
}

impl<I: TypedIndex> View for UniqueChunkedIndexVec<I> {
    type V = Seq<Seq<u8>>;

    closed spec fn view(&self) -> Seq<Seq<u8>> {
        Seq::new(self.vec@.len(), |i: int| self.vec@[i]@)
    }
}

/// Whether `a` and `b` hold the same bytes.
fn bytes_equal(a: &Vec<u8>, b: &[u8]) -> (r: bool)
    ensures
        r == (a@ == b@),
{
    if a.len() != b.len() {
        return false;
    }
    let mut i: usize = 0;
    while i < a.len()
        invariant
            a@.len() == b@.len(),
            i <= a@.len(),
            forall|j: int| 0 <= j < i ==> a@[j] == b@[j],
        decreases a@.len() - i,
    {
        if a[i] != b[i] {
            return false;
        }
        i += 1;
    }
    assert(a@ =~= b@);
    true
}

impl<I: TypedIndex> UniqueChunkedIndexVec<I> {
    /// The entries are distinct; each is listed under its FNV-1a hash, and
    /// every listed position holds an entry of that hash.
    pub closed spec fn wf(&self) -> bool {
        &&& self.vec.wf()
        &&& forall|i: int|
            0 <= i < self.vec@.len() ==> self.buckets@.contains_key(
                fnv1a_32_spec(#[trigger] self.vec@[i]@),
            ) && self.buckets@[fnv1a_32_spec(self.vec@[i]@)]@.contains(i as u32)
        &&& forall|h: u32, j: int|
            self.buckets@.contains_key(h) && 0 <= j < self.buckets@[h]@.len() ==> (
            #[trigger] self.buckets@[h]@[j]) < self.vec@.len() && fnv1a_32_spec(
                self.vec@[self.buckets@[h]@[j] as int]@,
            ) == h
        &&& forall|i: int, j: int|
            0 <= i < j < self.vec@.len() ==> #[trigger] self.vec@[i]@ != #[trigger] self.vec@[j]@
    }

    /// Entries are never repeated.
    pub proof fn lemma_distinct(&self, i: int, j: int)
        requires
            self.wf(),
            0 <= i < self@.len(),
            0 <= j < self@.len(),
            i != j,
        ensures
            self@[i] != self@[j],
    {
        if i < j {
            assert(self.vec@[i]@ != self.vec@[j]@);
        } else {
            assert(self.vec@[j]@ != self.vec@[i]@);
        }
    }

    pub fn new() -> (r: Self)
        ensures
            r.wf(),
            r@.len() == 0,
    {
        UniqueChunkedIndexVec { vec: ChunkedIndexVec::new(), buckets: HashMapWithView::new() }
    }

    /// The handle of `value`, which is appended when it is not stored yet.
    pub fn push(&mut self, value: Vec<u8>) -> (id: I)
        requires
            old(self).wf(),
            old(self)@.len() < u32::MAX,
        ensures
            final(self).wf(),
            id.index() < final(self)@.len(),
            final(self)@[id.index() as int] == value@,
            old(self)@.contains(value@) ==> final(self)@ == old(self)@,
            !old(self)@.contains(value@) ==> final(self)@ == old(self)@.push(value@),
    {
        let hash = fnv1a_32(value.as_slice());
        let n = self.vec.len();
        match self.buckets.get(&hash) {
            Some(bucket) => {
                let mut j: usize = 0;
                while j < bucket.len()
                    invariant
                        self.wf(),
                        n == self.vec@.len(),
                        self.buckets@.contains_key(hash),
                        bucket@ == self.buckets@[hash]@,
                        hash == fnv1a_32_spec(value@),
                        j <= bucket@.len(),
                        forall|k: int| 0 <= k < j ==> self.vec@[bucket@[k] as int]@ != value@,
                    decreases bucket@.len() - j,
                {
                    let pos = bucket[j];
                    assert(self.buckets@[hash]@[j as int] == pos);
                    let id = I::from_index(pos as usize);
                    if bytes_equal(self.vec.get(id), value.as_slice()) {
                        return id;
                    }
                    j += 1;
                }
                proof {
                    assert forall|k: int| 0 <= k < self@.len() implies self@[k] != value@ by {
                        assert(self@[k] == self.vec@[k]@);
                        if self.vec@[k]@ == value@ {
                            let b = self.buckets@[hash]@;
                            assert(b.contains(k as u32));
                            let x = choose|x: int| 0 <= x < b.len() && b[x] == k as u32;
                        }
                    }
                }
            },
            None => {
                proof {
                    assert forall|k: int| 0 <= k < self@.len() implies self@[k] != value@ by {
                        assert(self@[k] == self.vec@[k]@);
                    }
                }
            },
        }
        let ghost before = *self;
        let id = self.vec.push(value);
        let mut bucket = match self.buckets.remove(&hash) {
            Some(b) => b,
            None => Vec::new(),
        };
        let ghost old_bucket = bucket@;
        bucket.push(n as u32);
        self.buckets.insert(hash, bucket);
        proof {
            assert(self@ =~= before@.push(value@));
            assert forall|i: int| 0 <= i < self.vec@.len() implies self.buckets@.contains_key(
                fnv1a_32_spec(#[trigger] self.vec@[i]@),
            ) && self.buckets@[fnv1a_32_spec(self.vec@[i]@)]@.contains(i as u32) by {
                if i < n {
                    assert(self.vec@[i] == before.vec@[i]);
                    let h = fnv1a_32_spec(self.vec@[i]@);
                    if h == hash {
                        let b = before.buckets@[h]@;
                        let x = choose|x: int| 0 <= x < b.len() && b[x] == i as u32;
                        assert(self.buckets@[h]@[x] == i as u32);
                    } else {
                        assert(self.buckets@[h] == before.buckets@[h]);
                    }
                } else {
                    assert(self.buckets@[hash]@[old_bucket.len() as int] == n as u32);
                }
            }
            assert forall|h: u32, j: int|
                self.buckets@.contains_key(h) && 0 <= j < self.buckets@[h]@.len() implies (
                #[trigger] self.buckets@[h]@[j]) < self.vec@.len() && fnv1a_32_spec(
                    self.vec@[self.buckets@[h]@[j] as int]@,
                ) == h by {
                if h == hash {
                    if j < old_bucket.len() {
                        assert(before.buckets@[h]@[j] == self.buckets@[h]@[j]);
                        assert(self.vec@[self.buckets@[h]@[j] as int] == before.vec@[self.buckets@[h]@[j] as int]);
                    }
                } else {
                    assert(self.buckets@[h] == before.buckets@[h]);
                    assert(self.vec@[self.buckets@[h]@[j] as int] == before.vec@[self.buckets@[h]@[j] as int]);
                }
            }
            assert forall|a: int, b: int| 0 <= a < b < self.vec@.len() implies #[trigger] self.vec@[a]@
                != #[trigger] self.vec@[b]@ by {
                if b == n {
                    assert(self.vec@[a]@ == before@[a]);
                } else {
                    assert(self.vec@[a] == before.vec@[a] && self.vec@[b] == before.vec@[b]);
                }
            }
        }
        id
    }

    pub fn get(&self, index: I) -> (r: &Vec<u8>)
        requires
            self.wf(),
            index.index() < self@.len(),
        ensures
            r@ == self@[index.index() as int],
    {
        self.vec.get(index)
    }

    pub fn len(&self) -> (r: usize)
        ensures
            r == self@.len(),
    {
        self.vec.len()
    }

    /// Every handle with its entry, in insertion order.
    pub fn iter(&self) -> (r: Vec<(I, &Vec<u8>)>)
        requires
            self.wf(),
        ensures
            r@.len() == self@.len(),
            forall|i: int|
                0 <= i < r@.len() ==> (#[trigger] r@[i]).0.index() == i && r@[i].1@ == self@[i],
    {
        self.vec.iter()
    }
}

} // verus!
