//! Rewriting a buffer in place: every embedded path that the recognizer
//! reports is overwritten with the canonical replacement.

use vstd::prelude::*;
use vstd::slice::slice_to_vec;
use crate::pattern::{canonical_path, rewritten, rewritten_upto, DASH, SLASH, ZERO};
use crate::recognizer::StorePathAutomaton;
use crate::theory::{lemma_path_in_take, lemma_upto_nothing, lemma_upto_step};

verus! {

/// Byte `pos` of the canonical replacement.
fn canonical_byte(pos: usize) -> (b: u8)
    requires
        pos < 44,
    ensures
        b == canonical_path()[pos as int],
{
    if pos == 0 || pos == 4 || pos == 10 {
        SLASH
    } else if pos == 1 {
        0x6e
    } else if pos == 2 {
        0x69
    } else if pos == 3 {
        0x78
    } else if pos == 5 {
        0x73
    } else if pos == 6 {
        0x74
    } else if pos == 7 {
        0x6f
    } else if pos == 8 {
        0x72
    } else if pos == 9 {
        0x65
    } else if pos < 43 {
        ZERO
    } else {
        DASH
    }
}

/// Overwrites the 44 bytes of `buf` that start at `start` with the canonical
/// replacement.
fn put_canonical(buf: &mut Vec<u8>, start: usize)
    requires
        start + 44 <= old(buf).len(),
    ensures
        final(buf)@ == old(buf)@.subrange(0, start as int) + canonical_path() + old(buf)@.subrange(
            start + 44,
            old(buf).len() as int,
        ),
{
    let ghost orig = buf@;
    let mut j: usize = 0;
    while j < 44
        invariant
            j <= 44,
            start + 44 <= buf.len(),
            buf@.len() == orig.len(),
            forall|i: int| 0 <= i < orig.len() && !(start <= i < start + j) ==> buf@[i] == orig[i],
            forall|i: int| start <= i < start + j ==> buf@[i] == canonical_path()[i - start],
        decreases 44 - j,
    {
        let b: u8 = canonical_byte(j);
        buf[start + j] = b;
        j += 1;
    }
    assert(buf@ =~= orig.subrange(0, start as int) + canonical_path() + orig.subrange(
        start + 44,
        orig.len() as int,
    ));
}

/// Rewrites the first `len` bytes of `buf` in place: every embedded path that
/// lies within them is overwritten with the canonical replacement. The bytes
/// from `len` on are not read, so a path that ends after `len` stays.
pub fn canonicalize(buf: &mut Vec<u8>, len: usize)
    requires
        len <= old(buf).len(),
    ensures
        final(buf)@ == rewritten_upto(old(buf)@, len as int),
{
    let ghost orig = buf@;
    let mut automaton = StorePathAutomaton::new();
    let mut i: usize = 0;
    proof {
        lemma_upto_nothing(orig, 0);
        assert(orig.take(0) =~= Seq::<u8>::empty());
    }
    while i < len
        invariant
            i <= len <= buf.len(),
            automaton.wf(),
            automaton@ == orig.take(i as int),
            buf@ == rewritten_upto(orig, i as int),
        decreases len - i,
    {
        let byte: u8 = buf[i];
        let matched: bool = automaton.next(byte);
        proof {
            assert(byte == orig[i as int]);
            assert(orig.take(i as int).push(byte) =~= orig.take(i + 1));
            lemma_path_in_take(orig, i + 1, i - 43);
            lemma_upto_step(orig, i as int);
        }
        if matched {
            put_canonical(buf, i - 43);
        }
        i += 1;
    }
}

/// The canonical form of `input`: a copy of the same length in which every
/// embedded path is overwritten with the canonical replacement.
pub fn rewrite(input: &[u8]) -> (out: Vec<u8>)
    ensures
        out@ == rewritten(input@),
        out@.len() == input@.len(),
{
    let mut out: Vec<u8> = slice_to_vec(input);
    canonicalize(&mut out, input.len());
    out
}

} // verus!
