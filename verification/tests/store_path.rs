use nar_alike_deduper::store_path::{split_name, split_store_path};
use regex::Regex;

fn split(name: &str) -> Option<(&str, &str)> {
    split_name(name.as_bytes())
        .map(|(p, v)| (std::str::from_utf8(p).unwrap(), std::str::from_utf8(v).unwrap()))
}

#[test]
fn store_path_gives_hash_and_name() {
    let (hash, name) =
        split_store_path(b"/nix/store/0q43idch209zsdngl8yl79x0y79aajib-nix-2.8.1").unwrap();
    assert_eq!(hash, b"0q43idch209zsdngl8yl79x0y79aajib");
    assert_eq!(name, b"nix-2.8.1");
}

#[test]
fn store_path_without_name() {
    let (hash, name) = split_store_path(b"/nix/store/0q43idch209zsdngl8yl79x0y79aajib-").unwrap();
    assert_eq!(hash, b"0q43idch209zsdngl8yl79x0y79aajib");
    assert_eq!(name, b"");
}

#[test]
fn store_path_too_short() {
    assert_eq!(split_store_path(b""), None);
    assert_eq!(split_store_path(b"/nix/store/0q43idch209zsdngl8yl79x0y79aajib"), None);
}

#[test]
fn name_and_version() {
    assert_eq!(split("nix-2.8.1"), Some(("nix", "2.8.1")));
    assert_eq!(split("hello-2.12"), Some(("hello", "2.12")));
    assert_eq!(split("gcc-wrapper-12.3.0"), Some(("gcc-wrapper", "12.3.0")));
    assert_eq!(split("python3.11-requests-2.31.0"), Some(("python3.11-requests", "2.31.0")));
    assert_eq!(split("a-1-2"), Some(("a", "1-2")));
    assert_eq!(split("-1"), Some(("", "1")));
    assert_eq!(split("a--b"), Some(("a", "-b")));
}

#[test]
fn name_without_version() {
    assert_eq!(split("hello"), None);
    assert_eq!(split("hello-world"), None);
    assert_eq!(split("hello-"), None);
    assert_eq!(split("-"), None);
    assert_eq!(split(""), None);
}

#[test]
fn line_feeds_in_a_name() {
    assert_eq!(split("a\n-1"), None);
    assert_eq!(split("a-1\n"), None);
    assert_eq!(split("a-\n"), Some(("a", "\n")));
    assert_eq!(split("a-\n1"), Some(("a", "\n1")));
    assert_eq!(split("a-\n\n"), None);
    assert_eq!(split("a-b-\n"), Some(("a-b", "\n")));
}

#[test]
fn split_name_agrees_with_the_pattern() {
    let regex = Regex::new(r"^(.*?)-([^a-zA-Z].*)$").unwrap();
    let pieces = ["a", "Z", "-", "1", ".", "\n", "é", "-2", "x-", "\r"];
    let mut state = 12345u64;
    for _ in 0..20000 {
        let mut name = String::new();
        state = state.wrapping_mul(6364136223846793005).wrapping_add(1442695040888963407);
        let len = (state >> 60) as usize % 8;
        for _ in 0..len {
            state = state.wrapping_mul(6364136223846793005).wrapping_add(1442695040888963407);
            name.push_str(pieces[(state >> 33) as usize % pieces.len()]);
        }
        let expected = regex
            .captures(&name)
            .map(|c| (c.get(1).unwrap().as_str(), c.get(2).unwrap().as_str()));
        assert_eq!(split(&name), expected, "name {:?}", name);
    }
}
