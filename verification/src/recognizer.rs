//! The store-path recognizer: a byte-at-a-time automaton that reports every
//! embedded path on its closing `-`.
//!
//! The automaton keeps a position `0..=43` in the 44-byte token and one flag.
//! The flag is needed because the token can restart inside itself: in
//! `/nix/store/nix/store/...` the bytes `nix/` are both the first hash bytes of
//! one candidate and the continuation of a second one that began at the third
//! `/`. While the flag holds, the hash bytes read so far still spell the
//! beginning of `nix`, so a `/` after them resumes the second candidate.

use vstd::prelude::*;
use crate::pattern::{fits, is_hash_byte, is_path_at, template_at, DASH, SLASH};

verus! {

/// Whether `s` ends with the first `k` bytes of an embedded path.
pub open spec fn ends_with_partial(s: Seq<u8>, k: int) -> bool {
    &&& 0 <= k <= s.len()
    &&& forall|i: int| s.len() - k <= i < s.len() ==> fits(i - (s.len() - k), #[trigger] s[i])
}

/// Whether `k` is the length of the longest proper beginning of an embedded
/// path that `s` ends with.
pub open spec fn is_progress(s: Seq<u8>, k: int) -> bool {
    &&& 0 <= k <= 43
    &&& ends_with_partial(s, k)
    &&& forall|j: int| k < j <= 43 ==> !#[trigger] ends_with_partial(s, j)
}

/// Whether the hash bytes among the last `k` bytes of `s`, as far as the first
/// three, spell the beginning of `nix`.
pub open spec fn spells_nix(s: Seq<u8>, k: int) -> bool {
    &&& k >= 12 ==> s[s.len() - k + 11] == template_at(11)
    &&& k >= 13 ==> s[s.len() - k + 12] == template_at(12)
    &&& k >= 14 ==> s[s.len() - k + 13] == template_at(13)
}

/// Whether `s` ends with a whole embedded path.
pub open spec fn ends_with_path(s: Seq<u8>) -> bool {
    is_path_at(s, s.len() - 44)
}

/// Where the automaton goes when a byte fits nowhere: position 1 if the byte
/// may open a path, position 0 otherwise, with the flag set again.
pub open spec fn restart(byte: u8) -> (int, bool, bool) {
    (
        if byte == SLASH {
            1
        } else {
            0
        },
        true,
        false,
    )
}

/// One transition: from a position and a flag, on one byte, to the next
/// position, the next flag, and whether an embedded path ends on this byte.
///
/// Positions `0..=10` expect the literal prefix; `/nix/` followed by `n` falls
/// back to `/n`. Positions `11..=42` expect hash bytes; while the flag holds
/// and the bytes go on spelling `nix` the flag stays, and `/nix/store/nix`
/// followed by `/` falls back to `/nix/`. Position 43 expects `-` and
/// reports; after a report the automaton is as new.
pub open spec fn step(state: int, eligible: bool, byte: u8) -> (int, bool, bool) {
    if state <= 10 {
        if byte == template_at(state) {
            (state + 1, eligible, false)
        } else if state == 5 && byte == template_at(1) {
            (2, eligible, false)
        } else {
            restart(byte)
        }
    } else if state <= 42 {
        if eligible && state < 14 && byte == template_at(state) {
            (state + 1, true, false)
        } else if is_hash_byte(byte) {
            (state + 1, eligible && state >= 14, false)
        } else if eligible && state == 14 && byte == SLASH {
            (5, true, false)
        } else {
            restart(byte)
        }
    } else if byte == DASH {
        (0, true, true)
    } else {
        restart(byte)
    }
}

/// The automaton after reading all of `s` from its initial state: position,
/// flag, and whether the last byte was reported.
pub open spec fn run(s: Seq<u8>) -> (int, bool, bool)
    decreases s.len(),
{
    if s.len() == 0 {
        (0, true, false)
    } else {
        let before = run(s.drop_last());
        step(before.0, before.1, s.last())
    }
}

/// Appending a byte extends a partial match of `k` bytes exactly when the
/// byte fits position `k`.
proof fn lemma_partial_push(s: Seq<u8>, b: u8, j: int)
    requires
        1 <= j <= s.len() + 1,
    ensures
        ends_with_partial(s.push(b), j) <==> ends_with_partial(s, j - 1) && fits(j - 1, b),
{
    let t = s.push(b);
    if ends_with_partial(t, j) {
        assert(fits(j - 1, t[t.len() - 1]));
        assert forall|i: int| s.len() - (j - 1) <= i < s.len() implies fits(
            i - (s.len() - (j - 1)),
            #[trigger] s[i],
        ) by {
            assert(s[i] == t[i]);
        }
    }
    if ends_with_partial(s, j - 1) && fits(j - 1, b) {
        assert forall|i: int| t.len() - j <= i < t.len() implies fits(
            i - (t.len() - j),
            #[trigger] t[i],
        ) by {
            if i < s.len() {
                assert(t[i] == s[i]);
            }
        }
    }
}

/// A partial match of `k` bytes holds a shorter one of `j` bytes only where
/// the token can restart inside itself: after `/nix/`, or at the third `/`
/// while the hash bytes spell the beginning of `nix`.
proof fn lemma_shorter_partial(s: Seq<u8>, k: int, j: int)
    requires
        ends_with_partial(s, k),
        ends_with_partial(s, j),
        1 <= j < k <= 43,
    ensures
        (k == 5 && j == 1) || (11 <= k <= 14 && j == k - 10 && spells_nix(s, k)),
{
    let n = s.len() as int;
    // the first byte of the shorter match is `/`
    assert(fits(0, s[n - j]));
    assert(fits(k - j, s[n - j]));
    assert(k - j == 4 || k - j == 10);
    if k - j == 4 {
        if j >= 2 {
            assert(fits(1, s[n - j + 1]));
            assert(fits(5, s[n - j + 1]));
        }
    } else {
        if j >= 2 {
            assert(fits(1, s[n - j + 1]));
        }
        if j >= 3 {
            assert(fits(2, s[n - j + 2]));
        }
        if j >= 4 {
            assert(fits(3, s[n - j + 3]));
        }
        if j >= 5 {
            assert(fits(4, s[n - j + 4]));
            assert(fits(14, s[n - j + 4]));
        }
    }
}

/// Where the token can restart inside itself, the shorter match is there.
proof fn lemma_nested_partial(s: Seq<u8>, k: int)
    requires
        ends_with_partial(s, k),
        k == 5 || (11 <= k <= 14 && spells_nix(s, k)),
    ensures
        ends_with_partial(s, if k == 5 { 1 } else { k - 10 }),
{
    let n = s.len() as int;
    let j = if k == 5 { 1 } else { k - 10 };
    assert forall|i: int| n - j <= i < n implies fits(i - (n - j), #[trigger] s[i]) by {
        assert(fits(i - (n - k), s[i]));
    }
}

/// One transition keeps the automaton in step with what it has read, and it
/// reports exactly when the bytes read end with an embedded path.
pub proof fn lemma_step(s: Seq<u8>, k: int, eligible: bool, b: u8)
    requires
        is_progress(s, k),
        eligible == spells_nix(s, k),
    ensures
        is_progress(s.push(b), step(k, eligible, b).0),
        step(k, eligible, b).1 == spells_nix(s.push(b), step(k, eligible, b).0),
        step(k, eligible, b).2 == ends_with_path(s.push(b)),
{
    let t = s.push(b);
    let n = s.len() as int;
    let k2 = step(k, eligible, b).0;
    // every partial match of the longer input is one of the shorter, extended
    assert forall|j: int| 1 <= j <= 44 && j <= n + 1 implies (ends_with_partial(t, j)
        <==> ends_with_partial(s, j - 1) && fits(j - 1, b)) by {
        lemma_partial_push(s, b, j);
    }
    assert(ends_with_partial(s, 0));
    assert(ends_with_partial(t, 0));
    if k == 5 || (11 <= k <= 14 && eligible) {
        lemma_nested_partial(s, k);
    }
    assert forall|j: int| k2 < j <= 43 implies !#[trigger] ends_with_partial(t, j) by {
        if ends_with_partial(t, j) {
            assert(j <= n + 1);
            assert(ends_with_partial(s, j - 1) && fits(j - 1, b));
            if j - 1 > k {
                assert(!ends_with_partial(s, j - 1));
            } else if 1 <= j - 1 < k {
                lemma_shorter_partial(s, k, j - 1);
            }
        }
    }
    assert(ends_with_partial(t, k2)) by {
        if k2 >= 1 {
            assert(k2 <= n + 1);
        }
    }
    // the flag
    assert(step(k, eligible, b).1 == spells_nix(t, k2)) by {
        if k2 >= 12 {
            assert(k2 == k + 1);
            assert(t[t.len() - k2 + 11] == if k >= 12 { s[n - k + 11] } else { b });
            if k2 >= 13 {
                assert(t[t.len() - k2 + 12] == if k >= 13 { s[n - k + 12] } else { b });
            }
            if k2 >= 14 {
                assert(t[t.len() - k2 + 13] == if k >= 14 { s[n - k + 13] } else { b });
            }
        }
    }
    // the report
    if ends_with_path(t) {
        assert(n + 1 >= 44);
        assert forall|i: int| t.len() - 44 <= i < t.len() implies fits(
            i - (t.len() - 44),
            #[trigger] t[i],
        ) by {}
        assert(ends_with_partial(t, 44));
        lemma_partial_push(s, b, 44);
        assert(ends_with_partial(s, 43));
        assert(k == 43);
    }
    if k == 43 && b == DASH {
        lemma_partial_push(s, b, 44);
        assert(ends_with_partial(t, 44));
        assert forall|i: int| t.len() - 44 <= i < t.len() + 44 - 44 implies fits(
            i - (t.len() - 44),
            #[trigger] t[i],
        ) by {}
    }
}

/// The automaton that has read `s` from its initial state is in step with
/// `s`: its position is the length of the longest unfinished path that `s`
/// ends with, and it has just reported exactly if `s` ends with an embedded
/// path.
pub proof fn lemma_run(s: Seq<u8>)
    ensures
        is_progress(s, run(s).0),
        run(s).1 == spells_nix(s, run(s).0),
        run(s).2 == ends_with_path(s),
    decreases s.len(),
{
    if s.len() > 0 {
        let before = s.drop_last();
        lemma_run(before);
        assert(before.push(s.last()) =~= s);
        lemma_step(before, run(before).0, run(before).1, s.last());
    }
}

/// Soundness and completeness. Reading `s` from the initial state, the
/// automaton reports on the byte at offset `i` exactly if the 44 bytes that
/// end there form an embedded path. So every report stands for 44 bytes that
/// match, and no embedded path goes unreported, wherever it begins: after a
/// broken candidate, inside one, or right after another path.
pub proof fn lemma_reports_are_paths(s: Seq<u8>, i: int)
    requires
        0 <= i < s.len(),
    ensures
        run(s.take(i + 1)).2 <==> is_path_at(s, i - 43),
{
    let t = s.take(i + 1);
    lemma_run(t);
    if is_path_at(t, i - 43) {
        assert forall|j: int| i - 43 <= j < i + 1 implies fits(j - (i - 43), #[trigger] s[j]) by {
            assert(fits(j - (i - 43), t[j]));
        }
    }
    if is_path_at(s, i - 43) {
        assert forall|j: int| i - 43 <= j < i + 1 implies fits(j - (i - 43), #[trigger] t[j]) by {
            assert(fits(j - (i - 43), s[j]));
        }
    }
}

/// How many times the automaton reports while it reads `s`.
pub open spec fn report_count(s: Seq<u8>) -> nat
    decreases s.len(),
{
    if s.len() == 0 {
        0
    } else {
        report_count(s.drop_last()) + if run(s).2 {
            1nat
        } else {
            0nat
        }
    }
}

/// The offsets at which `s` holds an embedded path.
pub open spec fn path_offsets(s: Seq<u8>) -> Set<int> {
    Set::new(|p: int| is_path_at(s, p))
}

/// The automaton reports as many times as the stream holds embedded paths.
pub proof fn lemma_report_count(s: Seq<u8>)
    ensures
        path_offsets(s).finite(),
        report_count(s) == path_offsets(s).len(),
    decreases s.len(),
{
    if s.len() == 0 {
        assert(path_offsets(s) =~= Set::<int>::empty());
    } else {
        let before = s.drop_last();
        let last = s.len() - 44;
        lemma_report_count(before);
        lemma_run(s);
        assert forall|p: int| is_path_at(before, p) <==> is_path_at(s, p) && p != last by {
            if is_path_at(before, p) {
                assert forall|j: int| p <= j < p + 44 implies fits(j - p, #[trigger] s[j]) by {
                    assert(fits(j - p, before[j]));
                }
            }
            if is_path_at(s, p) && p != last {
                assert forall|j: int| p <= j < p + 44 implies fits(j - p, #[trigger] before[j]) by {
                    assert(fits(j - p, s[j]));
                }
            }
        }
        if run(s).2 {
            assert(path_offsets(s) =~= path_offsets(before).insert(last));
        } else {
            assert(path_offsets(s) =~= path_offsets(before));
        }
    }
}

/// Recognizer for embedded store paths. Feed it a stream byte by byte; it
/// answers `true` on the closing `-` of every embedded path.
pub struct StorePathAutomaton {
    state: usize,
    overlapping_matchs: bool,
    seen: Ghost<Seq<u8>>,
}

impl View for StorePathAutomaton {
    type V = Seq<u8>;

    /// The bytes read so far.
    closed spec fn view(&self) -> Seq<u8> {
        self.seen@
    }
}

impl StorePathAutomaton {
    /// The position in the token, `0..=43`.
    pub closed spec fn position(&self) -> int {
        self.state as int
    }

    /// The flag: whether a second, nested candidate is still possible.
    pub closed spec fn overlap_eligible(&self) -> bool {
        self.overlapping_matchs
    }

    /// The automaton is in step with the bytes it has read: its position is
    /// the length of the longest unfinished path that they end with, and its
    /// flag says whether that path's first hash bytes still spell `nix`.
    pub open spec fn wf(&self) -> bool {
        &&& is_progress(self@, self.position())
        &&& self.overlap_eligible() == spells_nix(self@, self.position())
    }

    /// A recognizer in step with what it has read is where `run` says.
    pub proof fn lemma_follows_run(&self)
        requires
            self.wf(),
        ensures
            self.position() == run(self@).0,
            self.overlap_eligible() == run(self@).1,
    {
        lemma_run(self@);
        let k = self.position();
        let r = run(self@).0;
        if k < r {
            assert(!ends_with_partial(self@, r));
        } else if r < k {
            assert(!ends_with_partial(self@, k));
        }
    }

    /// A recognizer that has read nothing.
    pub fn new() -> (r: Self)
        ensures
            r.wf(),
            r@ == Seq::<u8>::empty(),
            r.position() == 0,
            r.overlap_eligible(),
    {
        Self { state: 0, overlapping_matchs: true, seen: Ghost(Seq::empty()) }
    }

    /// Reads one byte. Returns `true` exactly when the bytes read so far end
    /// with an embedded path, which is when `byte` is that path's closing `-`.
    pub fn next(&mut self, byte: u8) -> (matched: bool)
        requires
            old(self).wf(),
        ensures
            final(self).wf(),
            final(self)@ == old(self)@.push(byte),
            matched == ends_with_path(final(self)@),
            (final(self).position(), final(self).overlap_eligible(), matched) == step(
                old(self).position(),
                old(self).overlap_eligible(),
                byte,
            ),
    {
        proof {
            lemma_step(self.seen@, self.state as int, self.overlapping_matchs, byte);
        }
        self.seen = Ghost(self.seen@.push(byte));
        let restart = if self.state <= 10 {
            // matching "/nix/store/"
            if byte == template_byte(self.state) {
                false
            } else if self.state == 5 && byte == template_byte(1) {
                // "/nix/n": fall back to "/n"
                self.state = 1;
                false
            } else {
                true
            }
        } else if self.state <= 42 {
            // matching the 32 hash bytes
            if self.overlapping_matchs && self.state < 14 && byte == template_byte(self.state) {
                // "/nix/store/nix" so far: two candidates at once
                false
            } else {
                if self.state < 14 {
                    self.overlapping_matchs = false;
                }
                if hash_byte(byte) {
                    false
                } else if self.overlapping_matchs && self.state == 14 && byte == SLASH {
                    // "/nix/store/nix/": fall back to "/nix/"
                    self.state = 4;
                    false
                } else {
                    true
                }
            }
        } else if byte == DASH {
            // the closing "-"
            self.state = 0;
            self.overlapping_matchs = true;
            return true;
        } else {
            true
        };
        if restart {
            self.overlapping_matchs = true;
            if byte == SLASH {
                self.state = 1;
            } else {
                self.state = 0;
            }
        } else {
            self.state += 1;
        }
        false
    }
}

/// Byte `pos` of the template `/nix/store/nix`.
fn template_byte(pos: usize) -> (b: u8)
    requires
        pos < 14,
    ensures
        b == template_at(pos as int),
{
    if pos == 0 || pos == 4 || pos == 10 {
        SLASH
    } else if pos == 1 || pos == 11 {
        0x6e
    } else if pos == 2 || pos == 12 {
        0x69
    } else if pos == 3 || pos == 13 {
        0x78
    } else if pos == 5 {
        0x73
    } else if pos == 6 {
        0x74
    } else if pos == 7 {
        0x6f
    } else if pos == 8 {
        0x72
    } else {
        0x65
    }
}

/// Whether `b` belongs to the hash alphabet.
fn hash_byte(b: u8) -> (r: bool)
    ensures
        r == is_hash_byte(b),
{
    (0x30 <= b && b <= 0x39) || (0x61 <= b && b <= 0x64) || (0x66 <= b && b <= 0x6e) || (0x70 <= b
        && b <= 0x73) || (0x76 <= b && b <= 0x7a)
}

} // verus!
