//! The lexical shape of an embedded store path, and what it means to rewrite a
//! byte stream into its canonical zero-hash form.
//!
//! An embedded path is the 44-byte token `/nix/store/<H>-`, where `<H>` is 32
//! bytes of the hash alphabet. Everything here is specification: the
//! executable recognizer and rewriter are stated against these definitions.

use vstd::prelude::*;

verus! {

/// Length in bytes of an embedded store path: 11 of `/nix/store/`, 32 of
/// hash, 1 of `-`.
pub const PATH_LEN: usize = 44;

/// ASCII `/`.
pub const SLASH: u8 = 0x2f;

/// ASCII `-`.
pub const DASH: u8 = 0x2d;

/// ASCII `0`.
pub const ZERO: u8 = 0x30;

/// Byte `pos` of the template `/nix/store/nix`. Its first eleven bytes are the
/// literal prefix of an embedded path; the last three are how a second prefix,
/// nested in the hash field of the first, would go on.
pub open spec fn template_at(pos: int) -> u8 {
    if pos == 0 || pos == 4 || pos == 10 {
        SLASH
    } else if pos == 1 || pos == 11 {
        0x6e  // n
    } else if pos == 2 || pos == 12 {
        0x69  // i
    } else if pos == 3 || pos == 13 {
        0x78  // x
    } else if pos == 5 {
        0x73  // s
    } else if pos == 6 {
        0x74  // t
    } else if pos == 7 {
        0x6f  // o
    } else if pos == 8 {
        0x72  // r
    } else {
        0x65  // e
    }
}

/// Whether `b` belongs to the 32-symbol hash alphabet: the digits and the
/// lower-case letters without `e`, `o`, `u` and `t`.
pub open spec fn is_hash_byte(b: u8) -> bool {
    ||| 0x30 <= b <= 0x39  // 0-9
    ||| 0x61 <= b <= 0x64  // a-d
    ||| 0x66 <= b <= 0x6e  // f-n
    ||| 0x70 <= b <= 0x73  // p-s
    ||| 0x76 <= b <= 0x7a  // v-z
}

/// Whether byte `b` may stand at position `pos` of an embedded path.
pub open spec fn fits(pos: int, b: u8) -> bool {
    if 0 <= pos < 11 {
        b == template_at(pos)
    } else if 11 <= pos < 43 {
        is_hash_byte(b)
    } else {
        pos == 43 && b == DASH
    }
}

/// Whether the 44 bytes of `s` that start at offset `p` form an embedded path.
pub open spec fn is_path_at(s: Seq<u8>, p: int) -> bool {
    &&& 0 <= p
    &&& p + 44 <= s.len()
    &&& forall|i: int| p <= i < p + 44 ==> fits(i - p, #[trigger] s[i])
}

/// The canonical replacement: `/nix/store/`, 32 ASCII zeros, `-`.
pub open spec fn canonical_path() -> Seq<u8> {
    Seq::new(
        44,
        |i: int|
            if i < 11 {
                template_at(i)
            } else if i < 43 {
                ZERO
            } else {
                DASH
            },
    )
}

/// Whether offset `i` lies in the hash field of the embedded path of `s` that
/// starts at `p` and ends at or before offset `limit`.
pub open spec fn in_hash_field(s: Seq<u8>, limit: int, p: int, i: int) -> bool {
    &&& is_path_at(s, p)
    &&& p + 44 <= limit
    &&& p + 11 <= i < p + 43
}

/// Whether offset `i` lies in the hash field of some embedded path of `s` that
/// ends at or before offset `limit`.
pub open spec fn hash_covered(s: Seq<u8>, limit: int, i: int) -> bool {
    exists|p: int| in_hash_field(s, limit, p, i)
}

/// `s` with every embedded path that ends at or before offset `limit` put in
/// canonical form: each byte of such a path's hash field is an ASCII zero, and
/// every other byte of `s` is as it was.
pub open spec fn rewritten_upto(s: Seq<u8>, limit: int) -> Seq<u8> {
    Seq::new(
        s.len(),
        |i: int|
            if hash_covered(s, limit, i) {
                ZERO
            } else {
                s[i]
            },
    )
}

/// The canonical zero-hash form of `s`: every embedded path of `s` rewritten.
pub open spec fn rewritten(s: Seq<u8>) -> Seq<u8> {
    rewritten_upto(s, s.len() as int)
}

} // verus!
