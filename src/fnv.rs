use vstd::prelude::*;

verus! {

/// The FNV-1a offset basis for 32 bits.
pub const FNV_32_OFFSET: u32 = 0x811c_9dc5;

/// The FNV-1a prime for 32 bits.
pub const FNV_32_PRIME: u32 = 0x0100_0193;

/// One FNV-1a round: xor in the byte, then multiply by the prime modulo 2^32.
pub open spec fn fnv_step(state: u32, b: u8) -> u32 {
    (state ^ (b as u32)).wrapping_mul(FNV_32_PRIME)
}

/// The state after feeding `bytes`, in order, to a hasher in state `state`.
pub open spec fn fnv_fold(state: u32, bytes: Seq<u8>) -> u32
    decreases bytes.len(),
{
    if bytes.len() == 0 {
        state
    } else {
        fnv_step(fnv_fold(state, bytes.drop_last()), bytes.last())
    }
}

/// The 32-bit FNV-1a hash of `bytes`.
pub open spec fn fnv1a_32_spec(bytes: Seq<u8>) -> u32 {
    fnv_fold(FNV_32_OFFSET, bytes)
}

/// The 32-bit FNV-1a hash of `data`.
pub fn fnv1a_32(data: &[u8]) -> (r: u32)
    ensures
        r == fnv1a_32_spec(data@),
{
    let mut hasher = Fnv1aHasher32::new();
    hasher.write(data);
    hasher.finish_raw()
}

/// An incremental 32-bit FNV-1a hasher.
#[derive(Debug, Copy, Clone)]
pub struct Fnv1aHasher32 {
    state: u32,
}

impl View for Fnv1aHasher32 {
    type V = u32;

    closed spec fn view(&self) -> u32 {
        self.state
    }
}

impl Fnv1aHasher32 {
    pub fn new() -> (r: Self)
        ensures
            r@ == FNV_32_OFFSET,
    {
        Fnv1aHasher32 { state: FNV_32_OFFSET }
    }

    /// The current 32-bit hash.
    pub fn finish_raw(&self) -> (r: u32)
        ensures
            r == self@,
    {
        self.state
    }

    /// The current hash, widened to 64 bits.
    pub fn finish(&self) -> (r: u64)
        ensures
            r == self@ as u64,
    {
        self.state as u64
    }

    /// Feeds `bytes` to the hasher.
    pub fn write(&mut self, bytes: &[u8])
        ensures
            final(self)@ == fnv_fold(old(self)@, bytes@),
    {
        let mut state = self.state;
        let mut i: usize = 0;
        while i < bytes.len()
            invariant
                i <= bytes@.len(),
                state == fnv_fold(old(self)@, bytes@.take(i as int)),
            decreases bytes@.len() - i,
        {
            let b = bytes[i];
            state = state ^ (b as u32);
            state = state.wrapping_mul(FNV_32_PRIME);
            proof {
                let next = bytes@.take(i + 1);
                assert(next.drop_last() =~= bytes@.take(i as int));
            }
            i += 1;
        }
        assert(bytes@.take(i as int) =~= bytes@);
        self.state = state;
    }
}

impl Default for Fnv1aHasher32 {
    fn default() -> (r: Self)
        ensures
            r@ == FNV_32_OFFSET,
    {
        Self::new()
    }
}

} // verus!
