//! The encode worker's adaptive buffer-size heuristic and its per-unit
//! encode step.

use vstd::prelude::*;
use crate::morsel::EncodedChunk;

verus! {

/// Default pre-allocation for an encode buffer: 16 MiB.
pub const DEFAULT_ALLOCATION_SIZE: usize = 1 << 24;

/// Per-worker adaptive buffer-size estimate: a local high-water mark of
/// output chunk size, used only to pre-size the next allocation. It never
/// decreases across a worker's lifetime, and is never shared across workers
/// nor persisted across runs.
pub struct EncodeWorker {
    pub allocation_size: usize,
}

impl EncodeWorker {
    /// A fresh worker with the default buffer-size estimate.
    pub fn new() -> (r: EncodeWorker)
        ensures
            r.allocation_size == DEFAULT_ALLOCATION_SIZE,
    {
        EncodeWorker { allocation_size: DEFAULT_ALLOCATION_SIZE }
    }

    /// Build the chunk for one successfully encoded unit: copy the encoded
    /// bytes into a buffer pre-sized by the current estimate, tag it with
    /// the unit's sequence, and raise the estimate to the buffer's length.
    /// The estimate never decreases.
    pub fn encode_into_chunk(&mut self, seq: u64, encoded: &[u8]) -> (c: EncodedChunk)
        ensures
            c.seq == seq,
            c.bytes@ == encoded@,
            final(self).allocation_size == if encoded@.len() > old(self).allocation_size {
                encoded@.len() as int
            } else {
                old(self).allocation_size as int
            },
            final(self).allocation_size >= old(self).allocation_size,
    {
        let mut buffer: Vec<u8> = Vec::with_capacity(self.allocation_size);
        let mut k: usize = 0;
        while k < encoded.len()
            invariant
                k <= encoded@.len(),
                buffer@ == encoded@.subrange(0, k as int),
            decreases encoded@.len() - k,
        {
            buffer.push(encoded[k]);
            k = k + 1;
        }
        proof {
            assert(buffer@ =~= encoded@);
        }
        if buffer.len() > self.allocation_size {
            self.allocation_size = buffer.len();
        }
        EncodedChunk { seq, bytes: buffer }
    }
}

} // verus!
