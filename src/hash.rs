use vstd::prelude::*;

verus! {

/// One step of the accumulator: shift in a byte, then fold the top nibble back.
pub open spec fn sysv_step(acc: u32, byte: u8) -> u32 {
    let shifted = ((acc as int * 16 + byte as int) % 0x1_0000_0000) as u32;
    shifted ^ ((shifted >> 24u32) & 0xf0u32)
}

/// The accumulator after feeding `bytes`, in order, starting from `acc`.
pub open spec fn sysv_fold(acc: u32, bytes: Seq<u8>) -> u32
    decreases bytes.len(),
{
    if bytes.len() == 0 {
        acc
    } else {
        sysv_step(sysv_fold(acc, bytes.drop_last()), bytes.last())
    }
}

/// The state after one call of `hash`: the fold, masked to its low 28 bits.
pub open spec fn sysv_feed(acc: u32, bytes: Seq<u8>) -> u32 {
    sysv_fold(acc, bytes) & 0x0fff_ffffu32
}

/// The value reported for an accumulator: zero is reserved, so it reads as one.
pub open spec fn sysv_result(acc: u32) -> u32 {
    if acc != 0 {
        acc
    } else {
        1
    }
}

/// The hash of a whole byte string, as the compiled format expects it.
pub open spec fn sysv_hash(bytes: Seq<u8>) -> u32 {
    sysv_result(sysv_feed(0, bytes))
}

/// The ELF (System V) string hash used by the compiled message index.
pub struct SysVHasher {
    computed: u32,
}

impl SysVHasher {
    /// The current accumulator.
    pub closed spec fn state(&self) -> u32 {
        self.computed
    }

    pub fn new() -> (r: SysVHasher)
        ensures
            r.state() == 0,
    {
        SysVHasher { computed: 0 }
    }

    /// Feeds `value` into the accumulator.
    pub fn hash(&mut self, value: &[u8]) -> (r: &SysVHasher)
        ensures
            final(self).state() == sysv_feed(old(self).state(), value@),
            r.state() == final(self).state(),
    {
        let ghost start = self.computed;
        let mut i: usize = 0;
        while i < value.len()
            invariant
                0 <= i <= value@.len(),
                self.computed == sysv_fold(start, value@.take(i as int)),
            decreases value@.len() - i,
        {
            assert(value@.take(i as int + 1).drop_last() == value@.take(i as int));
            let byte = value[i];
            self.computed = self.computed.wrapping_mul(16).wrapping_add(byte as u32);
            self.computed = self.computed ^ ((self.computed >> 24u32) & 0xf0u32);
            i = i + 1;
        }
        assert(value@.take(value@.len() as int) == value@);
        self.computed = self.computed & 0x0fff_ffffu32;
        self
    }

    /// The hash of everything fed so far; never zero.
    pub fn compute(&self) -> (r: u32)
        ensures
            r == sysv_result(self.state()),
            r != 0,
    {
        if self.computed != 0 {
            self.computed
        } else {
            1
        }
    }
}

} // verus!
