use vstd::prelude::*;

verus! {

/// The bounded FIFO handoff between the compute loop and the real-time
/// consumption path.
///
/// The compute loop computes one block at a time and offers it here; the
/// queue accepts it only while it holds fewer than `capacity` blocks. A
/// refused block is handed back untouched, and the compute loop waits and
/// offers it again — that refusal is the system's backpressure: the
/// producer can never run more than `capacity` blocks ahead of the
/// consumer, and blocks leave in exactly the order they were computed.
pub struct BlockQueue {
    blocks: Vec<Vec<u32>>,
    capacity: usize,
}

impl BlockQueue {
    /// The blocks now queued, oldest first.
    pub closed spec fn contents(&self) -> Seq<Seq<u32>> {
        self.blocks@.map_values(|b: Vec<u32>| b@)
    }

    /// The bound the queue was created with.
    pub closed spec fn cap(&self) -> int {
        self.capacity as int
    }

    /// The queue never holds more than its capacity.
    pub closed spec fn wf(&self) -> bool {
        self.blocks@.len() <= self.capacity
    }

    /// An empty queue that will never hold more than `capacity` blocks.
    pub fn new(capacity: usize) -> (q: BlockQueue)
        requires
            capacity >= 1,
        ensures
            q.wf(),
            q.cap() == capacity,
            q.contents() == Seq::<Seq<u32>>::empty(),
    {
        let q = BlockQueue { blocks: Vec::new(), capacity };
        proof {
            assert(q.contents() =~= Seq::<Seq<u32>>::empty());
        }
        q
    }

    /// How many blocks are queued.
    pub fn len(&self) -> (n: usize)
        ensures
            n as int == self.contents().len(),
    {
        self.blocks.len()
    }

    /// Whether the queue is at capacity, so that a push would be refused.
    pub fn is_full(&self) -> (full: bool)
        ensures
            full == (self.contents().len() == self.cap()),
    {
        self.blocks.len() == self.capacity
    }

    /// Offers a block. While the queue is below capacity the block is
    /// appended and accepted; at capacity nothing changes and the block
    /// comes back to the caller — the backpressure that stalls the
    /// compute loop until the consumer catches up.
    pub fn push(&mut self, block: Vec<u32>) -> (r: Result<(), Vec<u32>>)
        requires
            old(self).wf(),
        ensures
            final(self).wf(),
            final(self).cap() == old(self).cap(),
            match r {
                Ok(()) => old(self).contents().len() < old(self).cap()
                    && final(self).contents() == old(self).contents().push(block@),
                Err(back) => old(self).contents().len() == old(self).cap()
                    && *final(self) == *old(self) && back == block,
            },
    {
        if self.blocks.len() < self.capacity {
            let ghost prior = self.contents();
            self.blocks.push(block);
            proof {
                assert(self.contents() =~= prior.push(block@));
            }
            Ok(())
        } else {
            Err(block)
        }
    }

    /// Takes the oldest block, if any: blocks leave in the order they were
    /// pushed.
    pub fn pop(&mut self) -> (r: Option<Vec<u32>>)
        requires
            old(self).wf(),
        ensures
            final(self).wf(),
            final(self).cap() == old(self).cap(),
            match r {
                Some(b) => old(self).contents().len() > 0 && b@ == old(self).contents()[0]
                    && final(self).contents() == old(self).contents().drop_first(),
                None => old(self).contents().len() == 0 && *final(self) == *old(self),
            },
    {
        if self.blocks.len() > 0 {
            let ghost prior = self.contents();
            let b = self.blocks.remove(0);
            proof {
                assert(self.contents() =~= prior.drop_first());
            }
            Some(b)
        } else {
            None
        }
    }
}

/// The consumption side's sample-by-sample view of the current block: the
/// audio callback draws one sample at a time and asks for the next block
/// only once the current one is exhausted.
pub struct SampleCursor {
    block: Vec<u32>,
    pos: usize,
}

impl SampleCursor {
    /// The samples not yet handed out.
    pub closed spec fn remaining(&self) -> Seq<u32> {
        self.block@.skip(self.pos as int)
    }

    pub closed spec fn wf(&self) -> bool {
        self.pos <= self.block@.len()
    }

    /// A cursor with nothing to hand out; the first block must be loaded.
    pub fn new() -> (c: SampleCursor)
        ensures
            c.wf(),
            c.remaining() == Seq::<u32>::empty(),
    {
        let c = SampleCursor { block: Vec::new(), pos: 0 };
        proof {
            assert(c.remaining() =~= Seq::<u32>::empty());
        }
        c
    }

    /// Replaces the exhausted block with the next one, rewinding to its
    /// first sample.
    pub fn refill(&mut self, block: Vec<u32>)
        ensures
            final(self).wf(),
            final(self).remaining() == block@,
    {
        self.block = block;
        self.pos = 0;
        proof {
            assert(self.remaining() =~= self.block@);
        }
    }

    /// The next sample of the current block, or nothing once the block is
    /// exhausted and a refill is due.
    pub fn next_sample(&mut self) -> (r: Option<u32>)
        requires
            old(self).wf(),
        ensures
            final(self).wf(),
            match r {
                Some(v) => old(self).remaining().len() > 0 && v == old(self).remaining()[0]
                    && final(self).remaining() == old(self).remaining().drop_first(),
                None => old(self).remaining().len() == 0 && *final(self) == *old(self),
            },
    {
        if self.pos < self.block.len() {
            let v = self.block[self.pos];
            self.pos = self.pos + 1;
            proof {
                assert(final(self).remaining() =~= old(self).remaining().drop_first());
            }
            Some(v)
        } else {
            None
        }
    }
}

/// Replicates a mono block identically across `channels` interleaved
/// output channels — the mono upmix handed to the device layer.
pub fn upmix(block: &Vec<u32>, channels: usize) -> (out: Vec<u32>)
    requires
        channels >= 1,
        block@.len() * channels <= usize::MAX,
    ensures
        out@.len() == block@.len() * channels,
        forall|i: int| 0 <= i < out@.len() ==> out@[i] == block@[i / (channels as int)],
{
    let n = block.len();
    let mut out: Vec<u32> = Vec::new();
    let mut f: usize = 0;
    while f < n
        invariant
            f <= n,
            n == block@.len(),
            channels >= 1,
            n * channels <= usize::MAX,
            out@.len() == f * channels,
            forall|i: int| 0 <= i < out@.len() ==> out@[i] == block@[i / (channels as int)],
        decreases n - f,
    {
        let v = block[f];
        let mut c: usize = 0;
        proof {
            assert(f * channels + channels <= n * channels) by (nonlinear_arith)
                requires
                    f < n,
                    channels >= 1,
                    f * channels == f * channels,
            ;
        }
        while c < channels
            invariant
                c <= channels,
                f < n,
                n == block@.len(),
                channels >= 1,
                n * channels <= usize::MAX,
                f * channels + channels <= n * channels,
                v == block@[f as int],
                out@.len() == f * channels + c,
                forall|i: int| 0 <= i < out@.len() ==> out@[i] == block@[i / (channels as int)],
            decreases channels - c,
        {
            out.push(v);
            proof {
                let i = out@.len() - 1;
                assert(i == f * channels + c);
                assert(i / (channels as int) == f) by (nonlinear_arith)
                    requires
                        i == f * channels + c,
                        0 <= c < channels,
                        channels >= 1,
                        f >= 0,
                ;
            }
            c += 1;
        }
        proof {
            assert((f + 1) * channels == f * channels + channels) by (nonlinear_arith);
        }
        f += 1;
    }
    proof {
        assert(out@.len() == n * channels);
    }
    out
}

} // verus!
