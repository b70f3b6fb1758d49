use nar_alike_deduper::pipeline::rewrite_stream;
use nar_alike_deduper::rewriter::{canonicalize, rewrite};
use nar_alike_deduper::stream::{Action, ChunkError, StreamRewriter};

const CANONICAL: &[u8] = b"/nix/store/00000000000000000000000000000000-";
const PATH: &[u8] = b"/nix/store/abcdfghijklmnpqrsvwxyz0123456789-";

/// Rewrites every embedded path, found by plain search.
fn reference(input: &[u8]) -> Vec<u8> {
    let alphabet = b"0123456789abcdfghijklmnpqrsvwxyz";
    let mut out = input.to_vec();
    let mut p = 0;
    while p + 44 <= input.len() {
        let w = &input[p..p + 44];
        if &w[..11] == b"/nix/store/" && w[11..43].iter().all(|b| alphabet.contains(b)) && w[43] == b'-' {
            out[p..p + 44].copy_from_slice(CANONICAL);
        }
        p += 1;
    }
    out
}

/// Runs the machine by hand, reading at most `read` bytes at a time.
fn run_machine(input: &[u8], chunk: usize, read: usize) -> Vec<u8> {
    let mut machine = StreamRewriter::new(chunk).unwrap();
    let mut out = Vec::new();
    let mut pos = 0;
    loop {
        match machine.action() {
            Action::Read(n) => {
                let count = n.min(read).min(input.len() - pos);
                machine.feed(&input[pos..pos + count]);
                pos += count;
            }
            Action::Write => {
                out.extend_from_slice(machine.pending());
                machine.commit();
            }
            Action::Done => break,
        }
    }
    out
}

fn sample(len: usize, seed: u64) -> Vec<u8> {
    let mut state = seed;
    let mut out = Vec::new();
    while out.len() < len {
        state = state.wrapping_mul(6364136223846793005).wrapping_add(1442695040888963407);
        match (state >> 33) % 5 {
            0 => out.extend_from_slice(PATH),
            1 => out.extend_from_slice(b"/nix/store/nix"),
            2 => out.extend_from_slice(b"/nix/store/e000"),
            3 => out.push((state >> 40) as u8),
            _ => out.extend_from_slice(b"/nix/store/0123456789abcdfghijklmnpqrsvwxyz-"),
        }
    }
    out.truncate(len);
    out
}

#[test]
fn test_replace_nix_paths() {
    let r = b"/nix/store/abcdfghijklmnpqrsvwxyz0000000000-";
    let w = rewrite_stream(r, 50).unwrap();
    assert_eq!(w, b"/nix/store/00000000000000000000000000000000-");
}

#[test]
fn rewrites_a_path_of_digits() {
    let w = rewrite_stream(b"/nix/store/01234567890000000000000000000000-", 50).unwrap();
    assert_eq!(w, CANONICAL);
}

#[test]
fn invalid_hash_byte_is_left_alone() {
    let input = b"/nix/store/e0000000000000000000000000000000-";
    assert_eq!(rewrite_stream(input, 50).unwrap(), input);
}

#[test]
fn leading_garbage_is_left_alone() {
    let input = b"@nix/store/00000000000000000000000000000000-";
    assert_eq!(rewrite_stream(input, 50).unwrap(), input);
}

#[test]
fn nested_prefix_keeps_its_length() {
    let input = b"/nix/store/nix/store/00000000000000000000000000000000-";
    assert_eq!(rewrite_stream(input, 50).unwrap(), input);
    let input = b"/nix/store/nix/store/abcdfghijklmnpqrsvwxyz0123456789-";
    assert_eq!(
        rewrite_stream(input, 50).unwrap(),
        b"/nix/store/nix/store/00000000000000000000000000000000-"
    );
}

#[test]
fn empty_input_gives_empty_output() {
    assert_eq!(rewrite_stream(b"", 44).unwrap(), b"");
    assert_eq!(rewrite_stream(b"", 4096).unwrap(), b"");
}

#[test]
fn input_shorter_than_a_path_is_unchanged() {
    let input = b"/nix/store/00000000000000000000000000000000";
    assert_eq!(input.len(), 43);
    for chunk in [44, 50, 64, 4096] {
        assert_eq!(rewrite_stream(input, chunk).unwrap(), input);
    }
}

#[test]
fn input_of_exactly_one_path() {
    for chunk in [44, 45, 50, 64, 4096, 65536] {
        assert_eq!(rewrite_stream(PATH, chunk).unwrap(), CANONICAL);
    }
}

#[test]
fn path_starting_at_the_last_byte_of_a_chunk() {
    for chunk in [44usize, 50, 64] {
        let mut input = vec![b'x'; chunk - 1];
        input.extend_from_slice(PATH);
        let mut expected = vec![b'x'; chunk - 1];
        expected.extend_from_slice(CANONICAL);
        assert_eq!(rewrite_stream(&input, chunk).unwrap(), expected);
    }
}

#[test]
fn path_at_every_offset_around_a_chunk_boundary() {
    let chunk = 50usize;
    for start in 0..120usize {
        let mut input = vec![b'.'; start];
        input.extend_from_slice(PATH);
        input.extend_from_slice(b"tail");
        let out = rewrite_stream(&input, chunk).unwrap();
        assert_eq!(out, reference(&input), "start {}", start);
    }
}

#[test]
fn path_ending_at_the_end_of_the_stream() {
    // with chunks of 50 bytes the lengths leave a last partial chunk of
    // 44, 47 (more than a path) and 0 bytes
    for before in [100usize, 53, 6] {
        let mut input = vec![b'#'; before];
        input.extend_from_slice(PATH);
        let mut expected = vec![b'#'; before];
        expected.extend_from_slice(CANONICAL);
        for chunk in [44usize, 50, 64, 4096] {
            assert_eq!(rewrite_stream(&input, chunk).unwrap(), expected, "{} {}", before, chunk);
        }
    }
}

#[test]
fn path_at_the_end_of_97_bytes() {
    let mut input = vec![b'#'; 53];
    input.extend_from_slice(b"/nix/store/abcdfghijklmnpqrsvwxyz0000000000-");
    let mut expected = vec![b'#'; 53];
    expected.extend_from_slice(CANONICAL);
    let out = rewrite_stream(&input, 50).unwrap();
    assert_eq!(out.len(), 97);
    assert_eq!(out, expected);
}

#[test]
fn ten_paths_with_four_chunk_sizes() {
    let mut input = Vec::new();
    let mut expected = Vec::new();
    for _ in 0..10 {
        input.extend_from_slice(PATH);
        expected.extend_from_slice(CANONICAL);
    }
    for chunk in [44, 64, 4096, 65536] {
        let out = rewrite_stream(&input, chunk).unwrap();
        assert_eq!(out.len(), 440);
        assert_eq!(out, expected);
    }
}

#[test]
fn last_partial_chunk_longer_than_a_path_leaves_whole() {
    // 98 = 50 + 48, 97 = 50 + 47, 149 = 2 * 50 + 49
    for len in [95usize, 97, 98, 99, 145, 149] {
        let input = vec![b'z'; len];
        assert_eq!(rewrite_stream(&input, 50).unwrap(), input);
    }
    let mut input = vec![b'z'; 50];
    input.extend_from_slice(PATH);
    input.extend_from_slice(b"end");
    let mut expected = vec![b'z'; 50];
    expected.extend_from_slice(CANONICAL);
    expected.extend_from_slice(b"end");
    assert_eq!(rewrite_stream(&input, 50).unwrap(), expected);
}

#[test]
fn output_is_the_rewrite_of_the_input() {
    for seed in 0..40u64 {
        for len in [0usize, 1, 43, 44, 45, 87, 88, 89, 97, 98, 100, 131, 149, 300, 1000] {
            let input = sample(len, seed);
            for chunk in [44usize, 45, 50, 64, 100, 4096] {
                let out = rewrite_stream(&input, chunk).unwrap();
                assert_eq!(out, reference(&input), "seed {} len {} chunk {}", seed, len, chunk);
            }
        }
    }
}

#[test]
fn every_length_with_chunks_of_50_bytes() {
    for len in 0..260usize {
        let input = sample(len, len as u64);
        let out = rewrite_stream(&input, 50).unwrap();
        assert_eq!(out.len(), len);
        assert_eq!(out, reference(&input), "len {}", len);
    }
}

#[test]
fn short_reads_do_not_matter() {
    for seed in 0..10u64 {
        let input = sample(700, seed);
        for chunk in [44usize, 50, 64] {
            let whole = rewrite_stream(&input, chunk).unwrap();
            for read in [1usize, 2, 7, 43, 44, 45, 1000] {
                assert_eq!(run_machine(&input, chunk, read), whole);
            }
        }
    }
}

#[test]
fn rewriting_keeps_the_length() {
    for seed in 0..20u64 {
        let input = sample(997, seed);
        for chunk in [44usize, 50, 64, 500, 4096] {
            assert_eq!(rewrite_stream(&input, chunk).unwrap().len(), input.len());
        }
    }
}

#[test]
fn rewriting_twice_is_rewriting_once() {
    for seed in 0..20u64 {
        let input = sample(600, seed);
        let once = rewrite_stream(&input, 50).unwrap();
        let twice = rewrite_stream(&once, 50).unwrap();
        assert_eq!(once, twice);
    }
}

#[test]
fn rewriting_parts_without_a_path_across_the_seam() {
    let mut x = b"head ".to_vec();
    x.extend_from_slice(PATH);
    let mut y = PATH.to_vec();
    y.extend_from_slice(b" tail");
    let mut whole = x.clone();
    whole.extend_from_slice(&y);
    for chunk in [44usize, 50, 64] {
        let mut parts = rewrite_stream(&x, chunk).unwrap();
        parts.extend_from_slice(&rewrite_stream(&y, chunk).unwrap());
        assert_eq!(rewrite_stream(&whole, chunk).unwrap(), parts);
    }
    // 97 bytes and 3 bytes with chunks of 50
    let x = vec![b'a'; 97];
    let y = vec![b'b'; 3];
    let mut whole = x.clone();
    whole.extend_from_slice(&y);
    let mut parts = rewrite_stream(&x, 50).unwrap();
    parts.extend_from_slice(&rewrite_stream(&y, 50).unwrap());
    assert_eq!(parts.len(), 100);
    assert_eq!(rewrite_stream(&whole, 50).unwrap(), parts);
}

#[test]
fn chunk_shorter_than_a_path_is_refused() {
    assert_eq!(rewrite_stream(b"abc", 43).unwrap_err(), ChunkError::TooSmall);
    assert_eq!(rewrite_stream(b"abc", usize::MAX).unwrap_err(), ChunkError::TooLarge);
    assert!(matches!(StreamRewriter::new(0), Err(ChunkError::TooSmall)));
    assert!(matches!(StreamRewriter::new(usize::MAX / 2 - 43), Err(ChunkError::TooLarge)));
    assert!(StreamRewriter::new(44).is_ok());
}

#[test]
fn canonicalize_whole_buffer() {
    let mut buf = b"x/nix/store/abcdfghijklmnpqrsvwxyz0123456789-y".to_vec();
    let len = buf.len();
    canonicalize(&mut buf, len);
    assert_eq!(buf, b"x/nix/store/00000000000000000000000000000000-y");
}

#[test]
fn canonicalize_leaves_a_path_that_ends_after_the_limit() {
    let mut buf = PATH.to_vec();
    buf.extend_from_slice(PATH);
    canonicalize(&mut buf, 87);
    let mut expected = CANONICAL.to_vec();
    expected.extend_from_slice(PATH);
    assert_eq!(buf, expected);
    canonicalize(&mut buf, 0);
    assert_eq!(buf, expected);
}

#[test]
fn machine_steps_through_one_full_chunk_and_a_rest() {
    let mut m = StreamRewriter::new(44).unwrap();
    assert_eq!(m.action(), Action::Read(44));
    m.feed(&PATH[..10]);
    assert_eq!(m.action(), Action::Read(34));
    m.feed(&PATH[10..]);
    assert_eq!(m.action(), Action::Read(44));
    m.feed(b"rest");
    assert_eq!(m.action(), Action::Read(40));
    m.feed(b"");
    assert_eq!(m.action(), Action::Write);
    assert_eq!(m.pending(), b"/nix/store/00000000000000000000000000000000-rest");
    m.commit();
    assert_eq!(m.action(), Action::Done);
}

#[test]
fn machine_emits_a_chunk_once_the_next_is_read() {
    let mut m = StreamRewriter::new(44).unwrap();
    m.feed(PATH);
    m.feed(PATH);
    assert_eq!(m.action(), Action::Write);
    assert_eq!(m.pending(), CANONICAL);
    m.commit();
    assert_eq!(m.action(), Action::Read(44));
    m.feed(b"");
    assert_eq!(m.action(), Action::Write);
    assert_eq!(m.pending(), CANONICAL);
    m.commit();
    assert_eq!(m.action(), Action::Done);
}

#[test]
fn rewriting_agrees_with_the_pattern() {
    let regex =
        regex::bytes::Regex::new(r"/nix/store/[0-9abcdfghijklmnpqrsvwxyz]{32}\-").unwrap();
    for seed in 100..160u64 {
        for len in [0usize, 44, 88, 89, 500, 2000] {
            let input = sample(len, seed);
            let expected = regex.replace_all(&input, CANONICAL).into_owned();
            for chunk in [44usize, 50, 64, 4096] {
                assert_eq!(rewrite_stream(&input, chunk).unwrap(), expected);
            }
            let mut buf = input.clone();
            canonicalize(&mut buf, len);
            assert_eq!(buf, expected);
        }
    }
}

#[test]
fn rewrite_of_the_named_inputs() {
    assert_eq!(rewrite(b"/nix/store/abcdfghijklmnpqrsvwxyz0000000000-"), CANONICAL);
    assert_eq!(rewrite(b"/nix/store/01234567890000000000000000000000-"), CANONICAL);
    let bad = b"/nix/store/e0000000000000000000000000000000-";
    assert_eq!(rewrite(bad), bad);
    let garbage = b"@nix/store/00000000000000000000000000000000-";
    assert_eq!(rewrite(garbage), garbage);
    assert_eq!(rewrite(b""), b"");
    assert_eq!(
        rewrite(b"/nix/store/nix/store/abcdfghijklmnpqrsvwxyz0123456789-"),
        b"/nix/store/nix/store/00000000000000000000000000000000-"
    );
}

#[test]
fn rewrite_keeps_the_length_of_every_input() {
    for seed in 0..30u64 {
        for len in [0usize, 1, 44, 97, 98, 440, 1234] {
            let input = sample(len, seed);
            let out = rewrite(&input);
            assert_eq!(out.len(), len);
            assert_eq!(out, reference(&input));
            assert_eq!(rewrite(&out), out);
        }
    }
}

#[test]
fn ten_paths_rewritten_whole() {
    let mut input = Vec::new();
    let mut expected = Vec::new();
    for _ in 0..10 {
        input.extend_from_slice(PATH);
        expected.extend_from_slice(CANONICAL);
    }
    assert_eq!(rewrite(&input), expected);
    assert_eq!(rewrite(&input).len(), 440);
}

#[test]
fn machine_holds_out_the_last_window_after_a_long_rest() {
    // 97 bytes with chunks of 50: a chunk, then the 47 bytes that are left
    let mut input = vec![b'#'; 53];
    input.extend_from_slice(PATH);
    let mut m = StreamRewriter::new(50).unwrap();
    m.feed(&input[..50]);
    assert_eq!(m.action(), Action::Read(50));
    m.feed(&input[50..]);
    assert_eq!(m.action(), Action::Read(3));
    m.feed(b"");
    assert_eq!(m.action(), Action::Write);
    let mut out = m.pending().to_vec();
    assert_eq!(out.len(), 50);
    m.commit();
    assert_eq!(m.action(), Action::Write);
    out.extend_from_slice(m.pending());
    m.commit();
    assert_eq!(m.action(), Action::Done);
    let mut expected = vec![b'#'; 53];
    expected.extend_from_slice(CANONICAL);
    assert_eq!(out, expected);
}
