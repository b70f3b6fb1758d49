//! Store paths and package names, as the crawler takes them apart.
//!
//! A store path is `/nix/store/<hash>-<name>`; a name is a package name, and
//! after the first `-` that no letter follows, a version.

use vstd::prelude::*;
use vstd::slice::slice_subrange;
use crate::bytes::{find_byte, first_at_or_after, lemma_first_at_or_after};
use crate::narinfo::NEWLINE;
use crate::pattern::DASH;

verus! {

/// Whether `b` is an ASCII letter.
pub open spec fn is_ascii_letter(b: u8) -> bool {
    0x41 <= b <= 0x5a || 0x61 <= b <= 0x7a
}

/// Whether `s` has no line feed from `from` up to `to`.
pub open spec fn no_newline(s: Seq<u8>, from: int, to: int) -> bool {
    forall|j: int| from <= j < to ==> s[j] != NEWLINE
}

/// Whether the `-` at offset `i` may part a package name from a version:
/// something that is no letter follows it, and neither what stands before it
/// nor what stands after that holds a line feed.
pub open spec fn version_starts_at(name: Seq<u8>, i: int) -> bool {
    &&& 0 <= i
    &&& i + 1 < name.len()
    &&& name[i] == DASH
    &&& !is_ascii_letter(name[i + 1])
    &&& no_newline(name, 0, i)
    &&& no_newline(name, i + 2, name.len() as int)
}

/// Whether the `-` at offset `i` is the first that may part a package name
/// from a version.
pub open spec fn is_name_split(name: Seq<u8>, i: int) -> bool {
    &&& version_starts_at(name, i)
    &&& forall|j: int| 0 <= j < i ==> !version_starts_at(name, j)
}

/// The hash and the name of a store path: its bytes 11 to 42, and what
/// follows byte 43. A path of less than 44 bytes has neither.
pub fn split_store_path(path: &[u8]) -> (parts: Option<(&[u8], &[u8])>)
    ensures
        match parts {
            Some((hash, name)) => {
                &&& 44 <= path.len()
                &&& hash@ == path@.subrange(11, 43)
                &&& name@ == path@.skip(44)
            },
            None => path.len() < 44,
        },
{
    if path.len() < 44 {
        return None;
    }
    let hash = slice_subrange(path, 11, 43);
    let name = slice_subrange(path, 44, path.len());
    assert(name@ =~= path@.skip(44));
    Some((hash, name))
}

/// Whether `b` is an ASCII letter.
fn ascii_letter(b: u8) -> (r: bool)
    ensures
        r == is_ascii_letter(b),
{
    (0x41 <= b && b <= 0x5a) || (0x61 <= b && b <= 0x7a)
}

/// Parts a name into package name and version at the first `-` that may
/// part them; the `-` belongs to neither. A name without such a `-` has no
/// version.
pub fn split_name(name: &[u8]) -> (parts: Option<(&[u8], &[u8])>)
    ensures
        match parts {
            Some((pname, version)) => exists|i: int|
                {
                    &&& #[trigger] is_name_split(name@, i)
                    &&& pname@ == name@.take(i)
                    &&& version@ == name@.skip(i + 1)
                },
            None => forall|i: int| !#[trigger] version_starts_at(name@, i),
        },
{
    let n: usize = name.len();
    if n < 2 {
        return None;
    }
    let first_newline: usize = find_byte(name, 0, NEWLINE);
    proof {
        lemma_first_at_or_after(name@, 0, NEWLINE);
    }
    // from `clean` on there is no line feed
    let mut clean: usize = n;
    while clean > 0 && name[clean - 1] != NEWLINE
        invariant
            clean <= n,
            n == name.len(),
            no_newline(name@, clean as int, n as int),
        decreases clean,
    {
        clean -= 1;
    }
    let mut i: usize = 0;
    while i + 1 < n && i <= first_newline
        invariant
            i + 1 <= n,
            2 <= n,
            n == name.len(),
            clean <= n,
            first_newline == first_at_or_after(name@, 0, NEWLINE),
            first_newline <= n,
            first_newline < n ==> name@[first_newline as int] == NEWLINE,
            no_newline(name@, 0, first_newline as int),
            no_newline(name@, clean as int, n as int),
            clean == 0 || name@[clean - 1] == NEWLINE,
            forall|j: int| 0 <= j < i ==> !version_starts_at(name@, j),
        decreases n - i,
    {
        if i + 2 >= clean && name[i] == DASH && !ascii_letter(name[i + 1]) {
            let pname = slice_subrange(name, 0, i);
            let version = slice_subrange(name, i + 1, n);
            proof {
                assert(version_starts_at(name@, i as int));
                assert(is_name_split(name@, i as int));
                assert(pname@ =~= name@.take(i as int));
                assert(version@ =~= name@.skip(i + 1));
            }
            return Some((pname, version));
        }
        proof {
            if version_starts_at(name@, i as int) {
                // then a line feed stands after the byte that follows the `-`
                assert(i + 2 < clean);
                assert(name@[clean - 1] == NEWLINE);
            }
        }
        i += 1;
    }
    proof {
        assert forall|j: int| !#[trigger] version_starts_at(name@, j) by {
            if version_starts_at(name@, j) {
                assert(j >= i);
                assert(j + 1 < n);
                assert(i > first_newline);
                assert(name@[first_newline as int] == NEWLINE);
            }
        }
    }
    None
}

} // verus!
