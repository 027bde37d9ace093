use crate::typed_index::TypedIndex;
use core::marker::PhantomData;
use vstd::arithmetic::div_mod::{lemma_fundamental_div_mod, lemma_fundamental_div_mod_converse};
use vstd::arithmetic::power2::{lemma2_to64, lemma_pow2_pos, lemma_pow2_strictly_increases, pow2};
use vstd::bits::{low_bits_mask, lemma_usize_low_bits_mask_is_mod, lemma_usize_shl_is_mul, lemma_usize_shr_is_div};
use vstd::layout::size_of;
use vstd::prelude::*;

verus! {

/// The byte budget of one chunk.
pub const MAX_CHUNK_BYTES: usize = 4096;

/// `floor(log2(n))`, with 0 for 0 and 1.
pub open spec fn floor_log2(n: nat) -> nat
    decreases n,
{
    if n <= 1 {
        0
    } else {
        1 + floor_log2(n / 2)
    }
}

/// The number of index bits a chunk of `T` uses: a chunk holds the largest
/// power of two of elements that fits the byte budget, and at least one.
pub open spec fn chunk_bits<T>() -> nat {
    let size = size_of::<T>();
    if size == 0 || size > MAX_CHUNK_BYTES {
        0
    } else {
        floor_log2(MAX_CHUNK_BYTES as nat / size)
    }
}

/// The number of elements a chunk of `T` holds.
pub open spec fn chunk_capacity<T>() -> nat {
    pow2(chunk_bits::<T>())
}

proof fn lemma_floor_log2_upper(n: nat, k: nat)
    requires
        n < pow2(k + 1),
    ensures
        floor_log2(n) <= k,
    decreases n,
{
    vstd::arithmetic::power2::lemma_pow2_unfold(k + 1);
    if n > 1 {
        lemma2_to64();
        if k == 0 {
            assert(false);
        } else {
            lemma_floor_log2_upper(n / 2, (k - 1) as nat);
        }
    }
}

proof fn lemma_floor_log2_bound(n: nat)
    requires
        n <= 4096,
    ensures
        floor_log2(n) <= 12,
{
    lemma2_to64();
    lemma_floor_log2_upper(n, 12);
}

proof fn lemma_chunk_capacity<T>()
    ensures
        chunk_bits::<T>() <= 12,
        1 <= chunk_capacity::<T>() <= 4096,
{
    let size = size_of::<T>();
    if size != 0 && size <= MAX_CHUNK_BYTES {
        lemma_floor_log2_bound(MAX_CHUNK_BYTES as nat / size);
    }
    lemma2_to64();
    lemma_pow2_pos(chunk_bits::<T>());
    if chunk_bits::<T>() < 12 {
        lemma_pow2_strictly_increases(chunk_bits::<T>(), 12);
    }
}

/// Splitting a position into chunk and slot and joining them again.
proof fn lemma_split(i: int, c: int)
    requires
        c > 0,
        i >= 0,
    ensures
        i == (i / c) * c + i % c,
        0 <= i % c < c,
        i / c >= 0,
{
    lemma_fundamental_div_mod(i, c);
    assert((i / c) * c == c * (i / c)) by (nonlinear_arith);
}

proof fn lemma_join(k: int, q: int, c: int)
    requires
        c > 0,
        k >= 0,
        0 <= q < c,
    ensures
        (k * c + q) / c == k,
        (k * c + q) % c == q,
{
    lemma_fundamental_div_mod_converse(k * c + q, c, k, q);
}

/// An append-only sequence of `T` addressed by handles of type `I`. Elements
/// live in chunks of fixed power-of-two capacity, so a chunk never moves its
/// elements once they are written and a handle is split into chunk and slot
/// by a shift and a mask.
pub struct ChunkedIndexVec<T, I> {
    len: usize,
    bits: usize,
    chunks: Vec<Vec<T>>,
    marker: PhantomData<I>,
}

impl<T, I: TypedIndex> View for ChunkedIndexVec<T, I> {
    type V = Seq<T>;

    closed spec fn view(&self) -> Seq<T> {
        let c = chunk_capacity::<T>() as int;
        Seq::new(self.len as nat, |i: int| self.chunks@[i / c]@[i % c])
    }
}

impl<T, I: TypedIndex> ChunkedIndexVec<T, I> {
    /// Whether the chunk and slot of position `i` hold an element.
    pub closed spec fn slot_written(&self, i: int) -> bool {
        let c = chunk_capacity::<T>() as int;
        i / c < self.chunks@.len() && i % c < self.chunks@[i / c]@.len()
    }

    /// Whether slot `q` of chunk `k` stands for a position below the length.
    pub closed spec fn slot_below_len(&self, k: int, q: int) -> bool {
        k * chunk_capacity::<T>() + q < self.len
    }

    /// Chunk `k` holds the elements `[k * C, min((k + 1) * C, len))`; chunks
    /// past the last element are empty.
    pub closed spec fn wf(&self) -> bool {
        let c = chunk_capacity::<T>() as int;
        &&& self.bits == chunk_bits::<T>()
        &&& self.len <= u32::MAX
        &&& forall|k: int|
            0 <= k < self.chunks@.len() ==> (#[trigger] self.chunks@[k])@.len() <= c
        &&& forall|i: int| 0 <= i < self.len ==> #[trigger] self.slot_written(i)
        &&& forall|k: int, q: int|
            0 <= k < self.chunks@.len() && 0 <= q < self.chunks@[k]@.len() ==> #[trigger] self.slot_below_len(k, q)
    }

    /// Handles are 32-bit, so a well-formed arena never outgrows them.
    pub broadcast proof fn lemma_len_bound(&self)
        requires
            #[trigger] self.wf(),
        ensures
            self@.len() <= u32::MAX,
    {
    }

    fn index_bits() -> (r: usize)
        ensures
            r == chunk_bits::<T>(),
    {
        let size = core::mem::size_of::<T>();
        if size == 0 || size > MAX_CHUNK_BYTES {
            return 0;
        }
        let max_elements = MAX_CHUNK_BYTES / size;
        assert(max_elements <= 4096) by (nonlinear_arith)
            requires
                size >= 1,
                max_elements == 4096usize / size,
        ;
        let mut m = max_elements;
        let mut bits: usize = 0;
        while m > 1
            invariant
                floor_log2(max_elements as nat) == bits + floor_log2(m as nat),
                bits <= 12,
                m <= 4096,
                max_elements <= 4096,
            decreases m,
        {
            proof {
                lemma_floor_log2_bound(max_elements as nat);
            }
            m = m / 2;
            bits += 1;
        }
        bits
    }

    pub fn new() -> (r: Self)
        ensures
            r.wf(),
            r@ == Seq::<T>::empty(),
    {
        let r = ChunkedIndexVec { len: 0, bits: Self::index_bits(), chunks: Vec::new(), marker: PhantomData };
        assert(r@ =~= Seq::<T>::empty());
        r
    }

    /// The chunk and slot of position `index`.
    fn get_chunk_and_index(&self, index: usize) -> (r: (usize, usize))
        requires
            self.bits == chunk_bits::<T>(),
            index <= u32::MAX,
        ensures
            r.0 == index as int / chunk_capacity::<T>() as int,
            r.1 == index as int % chunk_capacity::<T>() as int,
    {
        let low_bits = self.bits;
        proof {
            lemma_chunk_capacity::<T>();
            lemma2_to64();
            lemma_usize_shr_is_div(index, low_bits);
            lemma_usize_shl_is_mul(1, low_bits);
            lemma_usize_low_bits_mask_is_mod(index, low_bits as nat);
        }
        let capacity: usize = 1usize << low_bits;
        let chunk_index = index >> low_bits;
        let pos = index & (capacity - 1);
        (chunk_index, pos)
    }

    pub fn push(&mut self, value: T) -> (id: I)
        requires
            old(self).wf(),
            old(self)@.len() < u32::MAX,
        ensures
            final(self).wf(),
            final(self)@ == old(self)@.push(value),
            id.index() == old(self)@.len(),
    {
        let ghost c = chunk_capacity::<T>() as int;
        let id = self.len;
        let (chunk_index, pos) = self.get_chunk_and_index(self.len);
        proof {
            lemma_chunk_capacity::<T>();
            lemma_split(id as int, c);
        }
        proof {
            let k = chunk_index as int;
            if pos > 0 {
                lemma_join(k, pos - 1, c);
                assert(old(self).slot_written(id - 1));
            } else if id > 0 {
                assert(k >= 1) by (nonlinear_arith)
                    requires
                        id == k * c + pos,
                        pos == 0,
                        id > 0,
                        k >= 0,
                        c > 0,
                ;
                assert(id - 1 == (k - 1) * c + (c - 1)) by (nonlinear_arith)
                    requires
                        id == k * c + pos,
                        pos == 0,
                ;
                lemma_join(k - 1, c - 1, c);
                assert(old(self).slot_written(id - 1));
            }
        }
        if chunk_index == self.chunks.len() {
            self.chunks.push(Vec::new());
        }
        proof {
            // the target chunk holds exactly the `pos` elements before `id`
            let k = chunk_index as int;
            if pos > 0 {
                lemma_join(k, pos - 1, c);
                assert(old(self).slot_written(k * c + pos - 1));
            }
            if self.chunks@[k]@.len() > pos {
                if k < old(self).chunks@.len() {
                    assert(old(self).slot_below_len(k, pos as int));
                }
            }
        }
        let ghost old_chunks = self.chunks@;
        self.chunks[chunk_index].push(value);
        self.len += 1;
        proof {
            let k = chunk_index as int;
            assert forall|i: int| 0 <= i < self.len implies #[trigger] self.slot_written(i) by {
                lemma_split(i, c);
                if i < id {
                    assert(old(self).slot_written(i));
                }
            }
            assert forall|kk: int, q: int|
                0 <= kk < self.chunks@.len() && 0 <= q < self.chunks@[kk]@.len()
                implies #[trigger] self.slot_below_len(kk, q) by {
                if (kk != k || q != pos) && kk < old(self).chunks@.len() {
                    assert(old(self).slot_below_len(kk, q));
                }
            }
            assert forall|i: int| 0 <= i < self.len implies #[trigger] self@[i] == old(self)@.push(value)[i] by {
                lemma_split(i, c);
                assert(self@[i] == self.chunks@[i / c]@[i % c]);
                if i < id {
                    assert(old(self).slot_written(i));
                    assert(old(self)@[i] == old(self).chunks@[i / c]@[i % c]);
                    if i / c == k {
                        assert(i % c < pos);
                    }
                } else {
                    lemma_join(k, pos as int, c);
                }
            }
            assert(self@ =~= old(self)@.push(value));
        }
        I::from_index(id)
    }

    pub fn get(&self, id: I) -> (r: &T)
        requires
            self.wf(),
            id.index() < self@.len(),
        ensures
            *r == self@[id.index() as int],
    {
        let index = id.to_index();
        let (chunk_index, pos) = self.get_chunk_and_index(index);
        assert(self.slot_written(index as int));
        &self.chunks[chunk_index][pos]
    }

    pub fn get_mut(&mut self, id: I) -> (r: &mut T)
        requires
            old(self).wf(),
            id.index() < old(self)@.len(),
        ensures
            *r == old(self)@[id.index() as int],
            Self::slot_replaced(*old(self), *final(self), id.index() as int, *final(r)),
    {
        let index = id.to_index();
        let (chunk_index, pos) = self.get_chunk_and_index(index);
        assert(self.slot_written(index as int));
        let chunk = &mut self.chunks[chunk_index];
        &mut chunk[pos]
    }

    /// Replaces the element at `id`.
    pub fn set(&mut self, id: I, value: T)
        requires
            old(self).wf(),
            id.index() < old(self)@.len(),
        ensures
            final(self).wf(),
            final(self)@ == old(self)@.update(id.index() as int, value),
    {
        let index = id.to_index();
        let (chunk_index, pos) = self.get_chunk_and_index(index);
        assert(self.slot_written(index as int));
        let ghost before = *self;
        self.chunks[chunk_index].set(pos, value);
        proof {
            lemma_chunk_capacity::<T>();
            assert(self.chunks@ =~= before.chunks@.update(chunk_index as int, self.chunks@[chunk_index as int]));
            Self::lemma_update_slot(before, *self, index as int, value);
        }
    }

    /// `b` is `a` with the element at position `i` replaced by `v`, chunk by
    /// chunk.
    pub closed spec fn slot_replaced(a: Self, b: Self, i: int, v: T) -> bool {
        let c = chunk_capacity::<T>() as int;
        &&& b.len == a.len
        &&& b.bits == a.bits
        &&& b.chunks@ == a.chunks@.update(i / c, b.chunks@[i / c])
        &&& b.chunks@[i / c]@ == a.chunks@[i / c]@.update(i % c, v)
    }

    /// After `get_mut`, the arena is still well formed and holds the value
    /// written through the returned reference.
    pub proof fn lemma_update_slot(a: Self, b: Self, i: int, v: T)
        requires
            a.wf(),
            0 <= i < a@.len(),
            Self::slot_replaced(a, b, i, v),
        ensures
            b.wf(),
            b@ == a@.update(i, v),
    {
        let c = chunk_capacity::<T>() as int;
        lemma_chunk_capacity::<T>();
        lemma_split(i, c);
        assert(a.slot_written(i));
        assert forall|k: int| 0 <= k < b.chunks@.len() implies (#[trigger] b.chunks@[k])@.len() <= c by {
            if k != i / c {
                assert(b.chunks@[k] == a.chunks@[k]);
            }
        }
        assert forall|j: int| 0 <= j < b.len implies #[trigger] b.slot_written(j) by {
            assert(a.slot_written(j));
            lemma_split(j, c);
            if j / c != i / c {
                assert(b.chunks@[j / c] == a.chunks@[j / c]);
            }
        }
        assert forall|k: int, q: int|
            0 <= k < b.chunks@.len() && 0 <= q < b.chunks@[k]@.len()
            implies #[trigger] b.slot_below_len(k, q) by {
            if k != i / c {
                assert(b.chunks@[k] == a.chunks@[k]);
            }
            assert(a.slot_below_len(k, q));
        }
        assert forall|j: int| 0 <= j < b.len implies #[trigger] b@[j] == a@.update(i, v)[j] by {
            lemma_split(j, c);
            assert(a.slot_written(j));
            if j / c != i / c {
                assert(b.chunks@[j / c] == a.chunks@[j / c]);
            } else if j != i {
                assert(j % c != i % c);
            }
        }
        assert(b@ =~= a@.update(i, v));
    }

    /// Allocates chunks ahead so that `len` elements fit.
    pub fn reserve(&mut self, len: usize)
        requires
            old(self).wf(),
            len <= u32::MAX,
        ensures
            final(self).wf(),
            final(self)@ == old(self)@,
    {
        if len <= self.len {
            return;
        }
        let (final_chunk_index, _) = self.get_chunk_and_index(len - 1);
        let ghost old_chunks = self.chunks@;
        while self.chunks.len() <= final_chunk_index
            invariant
                self.wf(),
                self@ == old(self)@,
                self.chunks@.len() >= old_chunks.len(),
            decreases final_chunk_index + 1 - self.chunks@.len(),
        {
            let ghost before = *self;
            self.chunks.push(Vec::new());
            proof {
                let c = chunk_capacity::<T>() as int;
                lemma_chunk_capacity::<T>();
                assert forall|i: int| 0 <= i < self.len implies #[trigger] self@[i] == before@[i] by {
                    lemma_split(i, c);
                    assert(before.slot_written(i));
                }
                assert forall|i: int| 0 <= i < self.len implies #[trigger] self.slot_written(i) by {
                    assert(before.slot_written(i));
                }
                assert forall|k: int, q: int|
                    0 <= k < self.chunks@.len() && 0 <= q < self.chunks@[k]@.len()
                    implies #[trigger] self.slot_below_len(k, q) by {
                    assert(before.slot_below_len(k, q));
                }
                assert(self@ =~= before@);
            }
        }
    }

    pub fn len(&self) -> (r: usize)
        ensures
            r == self@.len(),
    {
        self.len
    }

    /// Every handle with its element, in insertion order.
    pub fn iter(&self) -> (r: Vec<(I, &T)>)
        requires
            self.wf(),
        ensures
            r@.len() == self@.len(),
            forall|i: int|
                0 <= i < r@.len() ==> (#[trigger] r@[i]).0.index() == i && *r@[i].1 == self@[i],
    {
        let mut out: Vec<(I, &T)> = Vec::new();
        let mut i: usize = 0;
        while i < self.len
            invariant
                self.wf(),
                i <= self@.len(),
                out@.len() == i,
                forall|j: int|
                    0 <= j < i ==> (#[trigger] out@[j]).0.index() == j && *out@[j].1 == self@[j],
            decreases self@.len() - i,
        {
            let id = I::from_index(i);
            out.push((id, self.get(id)));
            i += 1;
        }
        out
    }
}

} // verus!
