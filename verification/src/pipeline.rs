//! The rewriter run over a stream that is already in memory: into a buffer,
//! or into the hasher sink.

use vstd::prelude::*;
use vstd::slice::slice_subrange;
use crate::hasher::{absorbed, sha256, AsyncSha256Hasher};
use crate::pattern::rewritten;
use crate::stream::{max_chunk, Action, ChunkError, StreamRewriter};

verus! {

/// How far a caller that still has `remaining` bytes to feed is from the end
/// of its work with the machine. Every step brings it down.
pub open spec fn effort(machine: &StreamRewriter, remaining: int) -> int {
    5 * remaining + match machine.next_action() {
        Action::Done => 0int,
        Action::Read(_) => 3int,
        Action::Write => if machine.finishing() {
            1int
        } else if machine.ended() {
            2int
        } else {
            4int
        },
    }
}

/// Runs the streaming rewriter with chunks of `chunk` bytes over `input` and
/// collects what it emits: the canonical form of `input`, whatever the chunk
/// size.
pub fn rewrite_stream(input: &[u8], chunk: usize) -> (r: Result<Vec<u8>, ChunkError>)
    ensures
        chunk < 44 ==> r == Err::<Vec<u8>, ChunkError>(ChunkError::TooSmall),
        chunk > max_chunk() ==> r == Err::<Vec<u8>, ChunkError>(ChunkError::TooLarge),
        44 <= chunk <= max_chunk() ==> r is Ok,
        r matches Ok(out) ==> out@ == rewritten(input@) && out@.len() == input@.len(),
{
    let mut machine = match StreamRewriter::new(chunk) {
        Ok(m) => m,
        Err(e) => {
            return Err(e);
        },
    };
    let mut out: Vec<u8> = Vec::new();
    let mut pos: usize = 0;
    proof {
        assert(input@.take(0) =~= Seq::<u8>::empty());
    }
    loop
        invariant
            machine.wf(),
            machine.chunk() == chunk,
            pos <= input.len(),
            machine.input() == input@.take(pos as int),
            machine.output() == out@,
            machine.ended() ==> pos == input.len(),
        ensures
            out@ == rewritten(input@),
        decreases effort(&machine, input.len() - pos),
    {
        match machine.action() {
            Action::Read(n) => {
                let rest: usize = input.len() - pos;
                let count: usize = if rest < n {
                    rest
                } else {
                    n
                };
                machine.feed(slice_subrange(input, pos, pos + count));
                proof {
                    assert(input@.take(pos as int) + input@.subrange(pos as int, pos + count)
                        =~= input@.take(pos + count));
                }
                pos += count;
            },
            Action::Write => {
                out.extend_from_slice(machine.pending());
                machine.commit();
            },
            Action::Done => {
                proof {
                    assert(input@.take(pos as int) =~= input@);
                }
                break ;
            },
        }
    }
    Ok(out)
}

/// The hashing pipeline: runs the streaming rewriter with chunks of `chunk`
/// bytes over `input`, feeds what it emits into the hasher sink, and hands
/// out the SHA-256 digest of all of it: the digest of the canonical form of
/// `input`, whatever the chunk size.
pub fn normalized_digest(input: &[u8], chunk: usize) -> (r: Result<[u8; 32], ChunkError>)
    ensures
        chunk < 44 ==> r == Err::<[u8; 32], ChunkError>(ChunkError::TooSmall),
        chunk > max_chunk() ==> r == Err::<[u8; 32], ChunkError>(ChunkError::TooLarge),
        44 <= chunk <= max_chunk() ==> r is Ok,
        r matches Ok(digest) ==> digest@ == sha256(rewritten(input@)),
{
    let mut machine = match StreamRewriter::new(chunk) {
        Ok(m) => m,
        Err(e) => {
            return Err(e);
        },
    };
    let mut sink = AsyncSha256Hasher::new();
    let mut pos: usize = 0;
    proof {
        assert(input@.take(0) =~= Seq::<u8>::empty());
    }
    loop
        invariant
            machine.wf(),
            machine.chunk() == chunk,
            pos <= input.len(),
            machine.input() == input@.take(pos as int),
            machine.output() == absorbed(sink),
            machine.ended() ==> pos == input.len(),
        ensures
            absorbed(sink) == rewritten(input@),
        decreases effort(&machine, input.len() - pos),
    {
        match machine.action() {
            Action::Read(n) => {
                let rest: usize = input.len() - pos;
                let count: usize = if rest < n {
                    rest
                } else {
                    n
                };
                machine.feed(slice_subrange(input, pos, pos + count));
                proof {
                    assert(input@.take(pos as int) + input@.subrange(pos as int, pos + count)
                        =~= input@.take(pos + count));
                }
                pos += count;
            },
            Action::Write => {
                sink.write(machine.pending());
                machine.commit();
            },
            Action::Done => {
                proof {
                    assert(input@.take(pos as int) =~= input@);
                }
                break ;
            },
        }
    }
    Ok(sink.finalize())
}

} // verus!
