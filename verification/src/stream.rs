//! The streaming rewriter as a state machine.
//!
//! The machine owns two buffers of `chunk + 44` bytes and never more, whatever
//! the length of the stream. Its caller owns the source and the sink: it asks
//! the machine what to do next, reads or writes as told, and hands the result
//! back. The machine decides everything else: how much to read, when a window
//! is complete, what to rewrite in it and how much of it may leave.
//!
//! Each window is one chunk and the first 44 bytes of the next, so that an
//! embedded path that lies across the end of the chunk is seen whole. What was
//! rewritten in those 44 bytes is carried into the next window. Every byte
//! that goes in comes out, and what comes out is the canonical form of what
//! went in, whatever the chunk size and however the source cut its reads.

use vstd::prelude::*;
use vstd::slice::slice_subrange;
use crate::hasher::sha256;
use crate::pattern::{rewritten, rewritten_upto};
use crate::rewriter::canonicalize;
use crate::theory::{
    lemma_upto_extend, lemma_upto_nothing, lemma_upto_prefix, lemma_upto_split,
    lemma_upto_tail_raw, lemma_window,
};

verus! {

/// Why a chunk size is refused.
#[derive(Clone, Copy, Debug, PartialEq, Eq, Structural)]
pub enum ChunkError {
    /// The chunk is shorter than an embedded path.
    TooSmall,
    /// The two buffers would not fit in memory.
    TooLarge,
}

/// The largest chunk size that the machine accepts.
pub open spec fn max_chunk() -> int {
    usize::MAX / 2 - 44
}

/// What the caller of the machine has to do next.
#[derive(Clone, Copy, Debug, PartialEq, Eq, Structural)]
pub enum Action {
    /// Read at most this many bytes from the source and `feed` them; feed
    /// nothing when the source is at its end.
    Read(usize),
    /// Write the `pending` bytes to the sink, then `commit`.
    Write,
    /// The stream is done: all of it was written.
    Done,
}

#[derive(Clone, Copy)]
enum Phase {
    FillFirst,
    FillAhead,
    Flush,
    Finished,
}

/// The streaming rewriter.
pub struct StreamRewriter {
    chunk: usize,
    /// The current chunk, then the first 44 bytes of the next.
    buf: Vec<u8>,
    /// The next chunk, then the first 44 bytes of the current one as the
    /// window before left them.
    ahead: Vec<u8>,
    buf_len: usize,
    ahead_len: usize,
    out_len: usize,
    ended: bool,
    last: bool,
    phase: Phase,
    consumed: Ghost<Seq<u8>>,
    emitted: Ghost<Seq<u8>>,
    rounds: Ghost<int>,
}

/// Copies `count` bytes of `src`, from `from` on, over those of `dst` from
/// `at` on.
fn copy_bytes(dst: &mut Vec<u8>, at: usize, src: &[u8], from: usize, count: usize)
    requires
        at + count <= old(dst).len(),
        from + count <= src.len(),
    ensures
        final(dst)@.len() == old(dst)@.len(),
        forall|i: int| 0 <= i < at ==> final(dst)@[i] == old(dst)@[i],
        forall|i: int| at <= i < at + count ==> final(dst)@[i] == src@[from + i - at],
        forall|i: int| at + count <= i < old(dst).len() ==> final(dst)@[i] == old(dst)@[i],
{
    let ghost orig = dst@;
    let mut j: usize = 0;
    while j < count
        invariant
            j <= count,
            at + count <= dst.len(),
            from + count <= src.len(),
            dst@.len() == orig.len(),
            forall|i: int| 0 <= i < at ==> dst@[i] == orig[i],
            forall|i: int| at <= i < at + j ==> dst@[i] == src@[from + i - at],
            forall|i: int| at + j <= i < orig.len() ==> dst@[i] == orig[i],
        decreases count - j,
    {
        let b: u8 = src[from + j];
        dst[at + j] = b;
        j += 1;
    }
}

impl StreamRewriter {
    /// The chunk size.
    pub closed spec fn chunk(&self) -> usize {
        self.chunk
    }

    /// Every byte fed so far.
    pub closed spec fn input(&self) -> Seq<u8> {
        self.consumed@
    }

    /// Every byte committed to the sink so far.
    pub closed spec fn output(&self) -> Seq<u8> {
        self.emitted@
    }

    /// Whether the end of the source was fed.
    pub closed spec fn ended(&self) -> bool {
        self.ended
    }

    /// Whether the machine holds the end of the stream: the source is at its
    /// end, and what was not written yet fits in one window.
    pub open spec fn finishing(&self) -> bool {
        self.ended() && self.input().len() <= self.output().len() + self.chunk() + 44
    }

    /// What the caller has to do next.
    pub closed spec fn next_action(&self) -> Action {
        match self.phase {
            Phase::FillFirst => Action::Read((self.chunk - self.buf_len) as usize),
            Phase::FillAhead => Action::Read((self.chunk - self.ahead_len) as usize),
            Phase::Flush => Action::Write,
            Phase::Finished => Action::Done,
        }
    }

    /// The bytes that wait to be written.
    pub closed spec fn pending_bytes(&self) -> Seq<u8> {
        self.buf@.take(self.out_len as int)
    }

    /// Up to where the embedded paths are rewritten in what was emitted and
    /// carried over.
    spec fn done_to(&self) -> int {
        if self.rounds@ == 0 {
            0
        } else {
            self.emitted@.len() as int + 44
        }
    }

    /// The machine's buffers hold what its history says.
    pub closed spec fn wf(&self) -> bool {
        let x = self.consumed@;
        let base = self.emitted@.len() as int;
        let c = self.chunk as int;
        let m = self.done_to();
        &&& 44 <= c <= max_chunk()
        &&& self.buf@.len() == c + 44
        &&& self.ahead@.len() == c + 44
        &&& self.phase !is Finished ==> {
            &&& 0 <= self.rounds@
            &&& base == self.rounds@ * c
            &&& self.emitted@ == rewritten_upto(x, m).take(base)
        }
        &&& match self.phase {
            Phase::FillFirst => {
                &&& !self.ended
                &&& self.rounds@ == 0
                &&& self.buf_len < c
                &&& x == self.buf@.take(self.buf_len as int)
            },
            Phase::FillAhead => {
                &&& !self.ended
                &&& self.buf_len == c
                &&& self.ahead_len < c
                &&& x.len() == base + c + self.ahead_len
                &&& self.buf@.subrange(44, c) == x.subrange(base + 44, base + c)
                &&& self.ahead@.subrange(c, c + 44) == rewritten_upto(x, m).subrange(
                    base,
                    base + 44,
                )
                &&& self.ahead@.take(self.ahead_len as int) == x.subrange(
                    base + c,
                    base + c + self.ahead_len,
                )
            },
            Phase::Flush => {
                &&& x.len() == base + self.buf_len + self.ahead_len
                &&& self.buf_len <= c
                &&& self.ahead_len <= c
                &&& self.buf_len < c ==> self.ahead_len == 0
                &&& self.rounds@ >= 1 ==> 44 <= self.buf_len
                &&& self.ended == (self.ahead_len < c)
                &&& self.last == (self.ended && self.ahead_len <= 44)
                &&& self.out_len == if self.last {
                    self.buf_len + self.ahead_len
                } else {
                    c
                }
                &&& !self.last ==> self.buf@ == rewritten_upto(x, base + c + 44).subrange(
                    base,
                    base + c + 44,
                )
                &&& self.last ==> self.buf@.take(self.out_len as int) == rewritten_upto(
                    x,
                    base + self.out_len,
                ).subrange(base, base + self.out_len)
                &&& !self.last ==> self.ahead@.take(self.ahead_len as int) == x.subrange(
                    base + c,
                    base + c + self.ahead_len,
                )
            },
            Phase::Finished => {
                &&& self.ended
                &&& self.emitted@ == rewritten(x)
            },
        }
    }

    /// How many bytes the machine's buffers hold.
    pub closed spec fn buffer_bytes(&self) -> nat {
        self.buf@.len() + self.ahead@.len()
    }

    /// Bounded memory: the machine's two buffers are one chunk and 44 bytes
    /// each, however much it has read.
    pub proof fn lemma_bounded_memory(&self)
        requires
            self.wf(),
        ensures
            self.buffer_bytes() == 2 * (self.chunk() + 44),
    {
    }

    /// A machine for chunks of `chunk` bytes that has read nothing. A chunk
    /// shorter than an embedded path is refused: a path could then lie across
    /// more than two buffers.
    pub fn new(chunk: usize) -> (r: Result<Self, ChunkError>)
        ensures
            chunk < 44 ==> r == Err::<Self, ChunkError>(ChunkError::TooSmall),
            chunk > max_chunk() ==> r == Err::<Self, ChunkError>(ChunkError::TooLarge),
            44 <= chunk <= max_chunk() ==> r is Ok,
            r matches Ok(m) ==> {
                &&& m.wf()
                &&& m.chunk() == chunk
                &&& m.input() == Seq::<u8>::empty()
                &&& m.output() == Seq::<u8>::empty()
                &&& !m.ended()
                &&& m.next_action() == Action::Read(chunk)
            },
    {
        if chunk < 44 {
            return Err(ChunkError::TooSmall);
        }
        if chunk > usize::MAX / 2 - 44 {
            return Err(ChunkError::TooLarge);
        }
        let m = Self {
            chunk,
            buf: vec![0u8; chunk + 44],
            ahead: vec![0u8; chunk + 44],
            buf_len: 0,
            ahead_len: 0,
            out_len: 0,
            ended: false,
            last: false,
            phase: Phase::FillFirst,
            consumed: Ghost(Seq::empty()),
            emitted: Ghost(Seq::empty()),
            rounds: Ghost(0),
        };
        proof {
            lemma_upto_nothing(m.consumed@, 0);
            assert(m.buf@.take(0) =~= Seq::<u8>::empty());
            assert(m.emitted@ =~= rewritten_upto(m.consumed@, 0).take(0));
        }
        Ok(m)
    }

    /// What to do next.
    pub fn action(&self) -> (a: Action)
        requires
            self.wf(),
        ensures
            a == self.next_action(),
            a matches Action::Read(n) ==> 0 < n <= self.chunk() && !self.ended(),
            a == Action::Done ==> self.ended() && self.output() == rewritten(self.input()),
    {
        match self.phase {
            Phase::FillFirst => Action::Read(self.chunk - self.buf_len),
            Phase::FillAhead => Action::Read(self.chunk - self.ahead_len),
            Phase::Flush => Action::Write,
            Phase::Finished => Action::Done,
        }
    }

    /// Both fills are over and the window can be put together.
    spec fn ready(&self) -> bool {
        let x = self.consumed@;
        let base = self.emitted@.len() as int;
        let c = self.chunk as int;
        let m = self.done_to();
        let kept = if self.buf_len < 44 {
            self.buf_len as int
        } else {
            44
        };
        &&& 44 <= c <= max_chunk()
        &&& self.buf@.len() == c + 44
        &&& self.ahead@.len() == c + 44
        &&& 0 <= self.rounds@
        &&& base == self.rounds@ * c
        &&& self.emitted@ == rewritten_upto(x, m).take(base)
        &&& x.len() == base + self.buf_len + self.ahead_len
        &&& self.buf_len <= c
        &&& self.ahead_len <= c
        &&& self.buf_len < c ==> self.ahead_len == 0
        &&& self.rounds@ >= 1 ==> 44 <= self.buf_len
        &&& self.ended == (self.ahead_len < c)
        &&& 44 <= self.buf_len ==> self.buf@.subrange(44, self.buf_len as int) == x.subrange(
            base + 44,
            base + self.buf_len,
        )
        &&& self.ahead@.subrange(c, c + kept) == rewritten_upto(x, m).subrange(base, base + kept)
        &&& self.buf_len == c ==> self.ahead@.take(self.ahead_len as int) == x.subrange(
            base + c,
            base + c + self.ahead_len,
        )
    }

    /// Puts the window together, rewrites it, and holds out what may leave:
    /// all of it where the stream ends within the window, else the chunk.
    fn process(&mut self)
        requires
            old(self).ready(),
        ensures
            final(self).wf(),
            final(self).chunk == old(self).chunk,
            final(self).consumed == old(self).consumed,
            final(self).emitted == old(self).emitted,
            final(self).ended == old(self).ended,
            final(self).rounds == old(self).rounds,
            final(self).phase is Flush,
    {
        let c: usize = self.chunk;
        let ghost x = self.consumed@;
        let ghost base = self.emitted@.len() as int;
        let ghost m = self.done_to();
        let ghost z = rewritten_upto(x, m);
        let ghost ahead0 = self.ahead@;
        let ghost buf0 = self.buf@;
        // the end of the window is the beginning of the next chunk
        copy_bytes(&mut self.buf, c, self.ahead.as_slice(), 0, 44);
        // its beginning is as the window before left it
        copy_bytes(&mut self.buf, 0, self.ahead.as_slice(), c, 44);
        let lookahead: usize = if self.ahead_len < 44 {
            self.ahead_len
        } else {
            44
        };
        let proc_len: usize = self.buf_len + lookahead;
        let ghost b = base + proc_len;
        let ghost window = self.buf@;
        proof {
            assert(self.rounds@ >= 1 ==> base >= c) by (nonlinear_arith)
                requires
                    base == self.rounds@ * c,
                    c >= 44,
            ;
            assert(self.rounds@ == 0 ==> base == 0) by (nonlinear_arith)
                requires
                    base == self.rounds@ * c,
            ;
            assert forall|i: int| 0 <= i < proc_len implies window[i] == z[base + i] by {
                if i < 44 {
                    assert(i < self.buf_len);
                    assert(window[i] == ahead0[c + i]);
                    let kept = if self.buf_len < 44 {
                        self.buf_len as int
                    } else {
                        44
                    };
                    assert(ahead0.subrange(c as int, c + kept)[i] == z.subrange(base, base + kept)[i]);
                } else if i < self.buf_len {
                    assert(window[i] == buf0[i]);
                    assert(buf0.subrange(44, self.buf_len as int)[i - 44] == x.subrange(
                        base + 44,
                        base + self.buf_len,
                    )[i - 44]);
                    lemma_upto_tail_raw(x, m, base + i);
                } else {
                    assert(window[i] == ahead0[i - c]);
                    assert(ahead0.take(self.ahead_len as int)[i - c] == x.subrange(
                        base + c,
                        base + c + self.ahead_len,
                    )[i - c]);
                    lemma_upto_tail_raw(x, m, base + i);
                }
            }
            assert(window.take(proc_len as int) =~= z.subrange(base, b));
            lemma_upto_split(window, proc_len as int);
            lemma_window(x, m, base, b);
        }
        canonicalize(&mut self.buf, proc_len);
        // more than the lookahead is left of the stream: this window is not the last
        self.last = self.ended && self.ahead_len <= 44;
        proof {
            assert(self.buf@.take(proc_len as int) =~= rewritten(window.take(proc_len as int)));
            if !self.last {
                assert(self.buf@.take(proc_len as int) =~= self.buf@);
            }
        }
        self.out_len = if self.last {
            proc_len
        } else {
            c
        };
        self.phase = Phase::Flush;
    }

    /// Takes what was read from the source: at most as many bytes as the
    /// last `Read` asked for, none at the end of the source.
    pub fn feed(&mut self, data: &[u8])
        requires
            old(self).wf(),
            old(self).next_action() matches Action::Read(n) && data.len() <= n,
        ensures
            final(self).wf(),
            final(self).chunk() == old(self).chunk(),
            final(self).input() == old(self).input() + data@,
            final(self).output() == old(self).output(),
            final(self).ended() == (data.len() == 0),
            old(self).next_action() matches Action::Read(n) && final(self).next_action() == if 0
                < data.len() < n {
                Action::Read((n - data.len()) as usize)
            } else if data.len() == n && final(self).input().len() == final(self).chunk() {
                Action::Read(final(self).chunk())
            } else {
                Action::Write
            },
    {
        let n: usize = data.len();
        let c: usize = self.chunk;
        let ghost x = self.consumed@;
        let ghost base = self.emitted@.len() as int;
        let ghost m = self.done_to();
        proof {
            assert(self.rounds@ >= 1 ==> base >= c) by (nonlinear_arith)
                requires
                    base == self.rounds@ * c,
                    c >= 44,
            ;
            assert(self.rounds@ == 0 ==> base == 0) by (nonlinear_arith)
                requires
                    base == self.rounds@ * c,
            ;
        }
        match self.phase {
            Phase::FillFirst => {
                let ghost buf0 = self.buf@;
                copy_bytes(&mut self.buf, self.buf_len, data, 0, n);
                self.buf_len += n;
                self.consumed = Ghost(x + data@);
                proof {
                    assert(self.buf@.take(self.buf_len as int) =~= x + data@);
                    lemma_upto_nothing(x + data@, 0);
                    lemma_upto_nothing(x, 0);
                    assert(self.emitted@ =~= rewritten_upto(x + data@, 0).take(0));
                }
                if n == 0 || self.buf_len == c {
                    // what the next window takes over from this one: so far, the raw bytes
                    copy_bytes(&mut self.ahead, c, self.buf.as_slice(), 0, 44);
                    self.ahead_len = 0;
                    proof {
                        let kept = if self.buf_len < 44 {
                            self.buf_len as int
                        } else {
                            44
                        };
                        assert(self.ahead@.subrange(c as int, c + kept) =~= rewritten_upto(
                            x + data@,
                            0,
                        ).subrange(0, kept));
                        if self.buf_len == c {
                            assert(self.ahead@.take(0) =~= (x + data@).subrange(c as int, c as int));
                        }
                        if 44 <= self.buf_len {
                            assert(self.buf@.subrange(44, self.buf_len as int) =~= (x
                                + data@).subrange(44, self.buf_len as int));
                        }
                    }
                    if n == 0 {
                        self.ended = true;
                        self.process();
                    } else {
                        self.phase = Phase::FillAhead;
                        proof {
                            assert(self.ahead@.subrange(c as int, c + 44) =~= rewritten_upto(
                                x + data@,
                                0,
                            ).subrange(0, 44));
                        }
                    }
                }
            },
            Phase::FillAhead => {
                let ghost ahead0 = self.ahead@;
                copy_bytes(&mut self.ahead, self.ahead_len, data, 0, n);
                self.ahead_len += n;
                self.consumed = Ghost(x + data@);
                proof {
                    lemma_upto_extend(x, data@, m);
                    assert(self.emitted@ =~= rewritten_upto(x + data@, m).take(base));
                    let xd = x + data@;
                    let raw_new = self.buf@.subrange(44, c as int);
                    let raw_old = x.subrange(base + 44, base + c);
                    assert(raw_new =~= xd.subrange(base + 44, base + c)) by {
                        assert forall|i: int| 0 <= i < c - 44 implies raw_new[i] == xd[base + 44
                            + i] by {
                            assert(raw_new[i] == raw_old[i]);
                        }
                    }
                    let carry_new = self.ahead@.subrange(c as int, c + 44);
                    let carry_old = ahead0.subrange(c as int, c + 44);
                    let z_old = rewritten_upto(x, m).subrange(base, base + 44);
                    assert(carry_new =~= rewritten_upto(xd, m).subrange(base, base + 44)) by {
                        assert forall|i: int| 0 <= i < 44 implies carry_new[i] == rewritten_upto(
                            xd,
                            m,
                        )[base + i] by {
                            assert(carry_new[i] == carry_old[i]);
                            assert(carry_old[i] == z_old[i]);
                        }
                    }
                    assert(self.ahead@.take(self.ahead_len as int) =~= (x + data@).subrange(
                        base + c,
                        base + c + self.ahead_len,
                    )) by {
                        assert forall|i: int| 0 <= i < self.ahead_len implies self.ahead@[i] == (x
                            + data@)[base + c + i] by {
                            if i < self.ahead_len - n {
                                assert(ahead0.take(self.ahead_len - n)[i] == x.subrange(
                                    base + c,
                                    base + c + self.ahead_len - n,
                                )[i]);
                            }
                        }
                    }
                }
                if n == 0 {
                    self.ended = true;
                    self.process();
                } else if self.ahead_len == c {
                    self.process();
                }
            },
            _ => {},
        }
    }

    /// What the bytes that wait to be written are, after those committed
    /// before them: the next chunk of the canonical form of the input, or, at
    /// the end of the stream, all the rest of it.
    proof fn lemma_pending(&self)
        requires
            self.wf(),
            self.phase is Flush,
        ensures
            self.last == self.finishing(),
            self.last ==> self.emitted@ + self.pending_bytes() == rewritten(self.consumed@),
            !self.last ==> self.pending_bytes().len() == self.chunk,
            !self.last ==> self.emitted@.len() + self.chunk + 44 <= self.consumed@.len(),
            !self.last ==> self.emitted@ + self.pending_bytes() == rewritten(self.consumed@).take(
                self.emitted@.len() + self.chunk,
            ),
            !self.last ==> self.emitted@ + self.pending_bytes() == rewritten_upto(
                self.consumed@,
                self.emitted@.len() + self.chunk + 44,
            ).take(self.emitted@.len() + self.chunk),
    {
        let x = self.consumed@;
        let base = self.emitted@.len() as int;
        let c = self.chunk as int;
        let m = self.done_to();
        let out = self.pending_bytes();
        assert(self.rounds@ == 0 ==> base == 0) by (nonlinear_arith)
            requires
                base == self.rounds@ * c,
        ;
        if self.last {
            let b = base + self.out_len;
            lemma_upto_prefix(x, m, b, base);
            assert(self.emitted@ + out =~= rewritten(x));
        } else {
            let b = base + c + 44;
            lemma_upto_prefix(x, m, b, base);
            assert(self.emitted@ + out =~= rewritten_upto(x, b).take(base + c));
            lemma_upto_prefix(x, b, x.len() as int, base + c);
        }
    }

    /// The bytes to write to the sink: the next chunk of the canonical form
    /// of the input, or, at the end of the stream, all the rest of it.
    pub fn pending(&self) -> (out: &[u8])
        requires
            self.wf(),
            self.next_action() == Action::Write,
        ensures
            out@ == self.pending_bytes(),
            self.output() + out@ == if self.finishing() {
                rewritten(self.input())
            } else {
                rewritten(self.input()).take(self.output().len() + self.chunk())
            },
            !self.finishing() ==> out@.len() == self.chunk(),
    {
        proof {
            self.lemma_pending();
        }
        slice_subrange(self.buf.as_slice(), 0, self.out_len)
    }

    /// Notes that the pending bytes were written. If they were the end of the
    /// stream, the machine is done, and what it has emitted is the canonical
    /// form of all it was fed. Else it goes on to the next chunk: it asks for
    /// more, or, where the source is at its end, holds out the last window.
    pub fn commit(&mut self)
        requires
            old(self).wf(),
            old(self).next_action() == Action::Write,
        ensures
            final(self).wf(),
            final(self).chunk() == old(self).chunk(),
            final(self).input() == old(self).input(),
            final(self).ended() == old(self).ended(),
            final(self).output() == old(self).output() + old(self).pending_bytes(),
            final(self).output() == if old(self).finishing() {
                rewritten(old(self).input())
            } else {
                rewritten(old(self).input()).take(old(self).output().len() + old(self).chunk())
            },
            final(self).next_action() == if old(self).finishing() {
                Action::Done
            } else if old(self).ended() {
                Action::Write
            } else {
                Action::Read(old(self).chunk())
            },
            !old(self).finishing() ==> final(self).output().len() == old(self).output().len()
                + old(self).chunk(),
            !old(self).finishing() ==> final(self).output().len() + 44 <= final(self).input().len(),
            old(self).ended() && !old(self).finishing() ==> final(self).finishing(),
    {
        let c: usize = self.chunk;
        let ghost x = self.consumed@;
        let ghost base = self.emitted@.len() as int;
        let ghost buf0 = self.buf@;
        let ghost ahead0 = self.ahead@;
        proof {
            self.lemma_pending();
        }
        self.emitted = Ghost(self.emitted@ + self.buf@.take(self.out_len as int));
        if self.last {
            self.phase = Phase::Finished;
        } else {
            // the next chunk becomes the current one; the window that was
            // written keeps its last 44 bytes for the next
            std::mem::swap(&mut self.buf, &mut self.ahead);
            self.buf_len = self.ahead_len;
            self.ahead_len = 0;
            self.rounds = Ghost(self.rounds@ + 1);
            proof {
                let b = base + c + 44;
                let len = self.buf_len as int;
                assert((self.rounds@) * c == base + c) by (nonlinear_arith)
                    requires
                        base == (self.rounds@ - 1) * c,
                ;
                assert(self.done_to() == b);
                let raw = self.buf@.subrange(44, len);
                assert(raw =~= x.subrange(base + c + 44, base + c + len)) by {
                    assert forall|i: int| 0 <= i < len - 44 implies raw[i] == x[base + c + 44 + i] by {
                        assert(ahead0.take(len)[44 + i] == x.subrange(base + c, base + c + len)[44
                            + i]);
                    }
                }
                let carry = self.ahead@.subrange(c as int, c + 44);
                assert(carry =~= rewritten_upto(x, b).subrange(base + c, base + c + 44)) by {
                    assert forall|i: int| 0 <= i < 44 implies carry[i] == rewritten_upto(x, b)[base
                        + c + i] by {
                        assert(buf0[c + i] == rewritten_upto(x, b).subrange(base, base + c + 44)[c
                            + i]);
                    }
                }
                if len == c {
                    assert(self.ahead@.take(0) =~= x.subrange(base + c + c, base + c + c));
                }
            }
            if self.ended {
                // the source has no more: what is left is the last window
                self.process();
            } else {
                self.phase = Phase::FillAhead;
            }
        }
    }
}

/// Chunk independence: two machines that are done with the same input have
/// emitted the same bytes, and so bytes of one digest, whatever their chunk
/// sizes and however the input was cut into reads. Both have emitted its
/// canonical form, as long as the input.
pub proof fn lemma_chunk_independence(one: &StreamRewriter, other: &StreamRewriter)
    requires
        one.wf(),
        other.wf(),
        one.next_action() == Action::Done,
        other.next_action() == Action::Done,
        one.input() == other.input(),
    ensures
        one.output() == other.output(),
        sha256(one.output()) == sha256(other.output()),
        one.output() == rewritten(one.input()),
        one.output().len() == one.input().len(),
{
}

} // verus!
