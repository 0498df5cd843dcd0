use vstd::prelude::*;

verus! {

/// Byte capacity each relay pipe is raised to.
pub const PIPE_BUF_SIZE: usize = 1048576;

/// The two ends of the kernel pipe one relay direction runs through,
/// as raw descriptors.  The surrounding runtime creates the pipe,
/// raises its capacity to `PIPE_BUF_SIZE`, and closes both ends exactly
/// once; this crate only accounts for the bytes inside it.
#[derive(Debug, Clone, Copy, PartialEq, Eq, Structural)]
pub struct Pipe {
    pub r: i32,
    pub w: i32,
}

/// Bookkeeping of one relay direction: how many bytes sit in the pipe
/// and whether the source reached end of stream.  The fill phase may
/// move at most the free room, the drain phase at most what is held, so
/// the pipe never holds more than `PIPE_BUF_SIZE` bytes.
#[derive(Debug, Clone, Copy, PartialEq, Eq, Structural)]
pub struct SpliceState {
    pub held: usize,
    pub done: bool,
}

impl SpliceState {
    /// The pipe never holds more than its capacity.
    pub open spec fn wf(self) -> bool {
        self.held <= PIPE_BUF_SIZE
    }

    pub fn new() -> (r: Self)
        ensures
            r.held == 0,
            !r.done,
            r.wf(),
    {
        SpliceState { held: 0, done: false }
    }

    /// How many bytes the next fill splice may ask for: the free room.
    pub fn fill_budget(&self) -> (n: usize)
        requires
            self.wf(),
        ensures
            n == PIPE_BUF_SIZE - self.held,
    {
        PIPE_BUF_SIZE - self.held
    }

    /// Records a fill splice that moved `n` bytes into the pipe.
    pub fn on_fill(&mut self, n: usize)
        requires
            old(self).wf(),
            n <= PIPE_BUF_SIZE - old(self).held,
        ensures
            final(self).held == old(self).held + n,
            final(self).done == old(self).done,
            final(self).wf(),
    {
        self.held = self.held + n;
    }

    /// Records that the source returned end of stream.
    pub fn on_eof(&mut self)
        ensures
            final(self).held == old(self).held,
            final(self).done,
    {
        self.done = true;
    }

    /// How many bytes the next drain splice may ask for: what is held.
    pub fn drain_budget(&self) -> (n: usize)
        ensures
            n == self.held,
    {
        self.held
    }

    /// Records a drain splice that moved `n` bytes out of the pipe.
    pub fn on_drain(&mut self, n: usize)
        requires
            n <= old(self).held,
        ensures
            final(self).held == old(self).held - n,
            final(self).done == old(self).done,
            old(self).wf() ==> final(self).wf(),
    {
        self.held = self.held - n;
    }

    /// The relay direction is finished once the source reached end of
    /// stream and the pipe has been drained.
    pub fn finished(&self) -> (r: bool)
        ensures
            r == (self.done && self.held == 0),
    {
        self.done && self.held == 0
    }
}

/// The relay schedule run on in-memory bytes: repeatedly fill the
/// bounded intermediate buffer from the source, then drain it to the
/// destination, until the source is exhausted and the buffer is empty —
/// the same alternation the splice loop drives over the kernel pipe.
/// The destination receives exactly the source bytes in order: the
/// relay is bytewise identity.
pub fn relay_buffer(src: &Vec<u8>) -> (dst: Vec<u8>)
    ensures
        dst@ == src@,
{
    let n = src.len();
    let mut dst: Vec<u8> = Vec::new();
    let mut pipe: Vec<u8> = Vec::new();
    let mut pos: usize = 0;
    let mut st = SpliceState::new();
    proof {
        assert(dst@ + pipe@ =~= src@.take(0));
    }
    while !(st.done && pipe.len() == 0)
        invariant
            pos <= n == src@.len(),
            st.wf(),
            st.held == pipe@.len(),
            dst@ + pipe@ == src@.take(pos as int),
            st.done ==> pos == n,
        decreases (n - pos) + pipe@.len() + (if st.done {
            0int
        } else {
            1int
        }),
    {
        // Fill phase: move bytes from the source into the buffer until
        // it is full or the source is exhausted.
        if !st.done {
            let budget = st.fill_budget();
            if pos == n {
                st.on_eof();
            } else {
                let avail = n - pos;
                let k = if budget < avail {
                    budget
                } else {
                    avail
                };
                let mut t: usize = 0;
                while t < k
                    invariant
                        pos + k <= n == src@.len(),
                        t <= k,
                        dst@ + pipe@ == src@.take(pos + t),
                    decreases k - t,
                {
                    proof {
                        assert(src@.take(pos + t + 1).drop_last() =~= src@.take(pos + t));
                        assert((dst@ + pipe@.push(src@[pos + t])) =~= (dst@ + pipe@).push(
                            src@[pos + t],
                        ));
                    }
                    pipe.push(src[pos + t]);
                    t = t + 1;
                }
                st.on_fill(k);
                pos = pos + k;
            }
        }
        // Drain phase: hand the whole buffer to the destination.
        let held = st.drain_budget();
        proof {
            assert((dst@ + pipe@) + Seq::<u8>::empty() =~= dst@ + pipe@);
        }
        dst.append(&mut pipe);
        st.on_drain(held);
    }
    proof {
        assert(src@.take(n as int) =~= src@);
        assert(dst@ + pipe@ =~= dst@);
    }
    dst
}

} // verus!
