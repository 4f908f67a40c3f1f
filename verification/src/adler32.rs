//! The Adler-32 checksum.

use vstd::prelude::*;

verus! {

/// The modulus of both sums.
pub const MODULUS: u32 = 65521;

/// The two running sums of Adler-32, each below the modulus.
pub struct AdlerSums {
    pub s1: nat,
    pub s2: nat,
}

/// The sums before any byte.
pub open spec fn initial_sums() -> AdlerSums {
    AdlerSums { s1: 1, s2: 0 }
}

/// The sums after one more byte.
pub open spec fn step_sums(sums: AdlerSums, byte: u8) -> AdlerSums {
    let s1 = (sums.s1 + byte as nat) % (MODULUS as nat);
    AdlerSums { s1, s2: (sums.s2 + s1) % (MODULUS as nat) }
}

/// The sums after the bytes of `bytes`, taken in order, starting from `sums`.
pub open spec fn feed_sums(sums: AdlerSums, bytes: Seq<u8>) -> AdlerSums
    decreases bytes.len(),
{
    if bytes.len() == 0 {
        sums
    } else {
        step_sums(feed_sums(sums, bytes.drop_last()), bytes.last())
    }
}

/// The checksum that two sums stand for: the second in the high half, the first in the
/// low half.
pub open spec fn sums_value(sums: AdlerSums) -> nat {
    sums.s2 * 65536 + sums.s1
}

/// The Adler-32 checksum of a byte sequence.
pub open spec fn adler32(bytes: Seq<u8>) -> nat {
    sums_value(feed_sums(initial_sums(), bytes))
}

/// Feeding two sequences one after the other is feeding their concatenation.
pub proof fn lemma_feed_concat(sums: AdlerSums, a: Seq<u8>, b: Seq<u8>)
    ensures
        feed_sums(sums, a + b) == feed_sums(feed_sums(sums, a), b),
    decreases b.len(),
{
    if b.len() == 0 {
        assert(a + b =~= a);
    } else {
        assert((a + b).drop_last() =~= a + b.drop_last());
        assert((a + b).last() == b.last());
        lemma_feed_concat(sums, a, b.drop_last());
    }
}

/// Both sums stay below the modulus.
pub proof fn lemma_feed_bounded(sums: AdlerSums, bytes: Seq<u8>)
    requires
        sums.s1 < MODULUS,
        sums.s2 < MODULUS,
    ensures
        feed_sums(sums, bytes).s1 < MODULUS,
        feed_sums(sums, bytes).s2 < MODULUS,
    decreases bytes.len(),
{
    if bytes.len() > 0 {
        lemma_feed_bounded(sums, bytes.drop_last());
    }
}

/// A running Adler-32 checksum.
#[derive(Clone, Copy)]
pub struct Adler32 {
    s1: u32,
    s2: u32,
}

impl Adler32 {
    /// The two sums held.
    pub closed spec fn sums(&self) -> AdlerSums {
        AdlerSums { s1: self.s1 as nat, s2: self.s2 as nat }
    }

    /// Both sums are below the modulus.
    pub open spec fn wf(&self) -> bool {
        self.sums().s1 < MODULUS && self.sums().s2 < MODULUS
    }

    /// Create a new hasher.
    pub fn new() -> (hasher: Adler32)
        ensures
            hasher.wf(),
            hasher.sums() == initial_sums(),
    {
        Adler32 { s1: 1, s2: 0 }
    }

    /// Update the internal hasher with the bytes from `buf`.
    pub fn feed(&mut self, buf: &[u8])
        requires
            old(self).wf(),
        ensures
            final(self).wf(),
            final(self).sums() == feed_sums(old(self).sums(), buf@),
    {
        let mut i: usize = 0;
        while i < buf.len()
            invariant
                i <= buf@.len(),
                self.wf(),
                self.sums() == feed_sums(old(self).sums(), buf@.take(i as int)),
            decreases buf@.len() - i,
        {
            let byte = buf[i];
            proof {
                assert(buf@.take(i + 1).drop_last() =~= buf@.take(i as int));
                assert(buf@.take(i + 1).last() == byte);
            }
            self.s1 = (self.s1 + byte as u32) % MODULUS;
            self.s2 = (self.s1 + self.s2) % MODULUS;
            i += 1;
        }
        proof {
            assert(buf@.take(i as int) =~= buf@);
        }
    }

    /// Return the computed hash.
    pub fn checksum(self) -> (value: u32)
        requires
            self.wf(),
        ensures
            value == sums_value(self.sums()),
    {
        let s1 = self.s1;
        let s2 = self.s2;
        assert((s2 << 16) | s1 == s2 * 65536 + s1) by (bit_vector)
            requires
                s1 < 65521,
                s2 < 65521,
        ;
        (s2 << 16) | s1
    }
}

} // verus!
