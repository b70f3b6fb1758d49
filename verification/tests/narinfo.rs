use nar_alike_deduper::bytes::{bytes_eq, ends_with, find_byte, starts_with};
use nar_alike_deduper::frontend::{
    archive_location, cache_info, classify, failure_status, nar_file_name, reply_status,
    upstream_location, Failure, NarIndex, Request,
};
use nar_alike_deduper::narinfo::{
    is_consumed_key, strip_algorithm, substitute, Record, RecordError,
};

const UPSTREAM: &[u8] = b"StorePath: /nix/store/abc-hello\n\
URL: nar/filehash.nar.xz\n\
Compression: xz\n\
FileHash: sha256:filehash\n\
FileSize: 100\n\
NarHash: sha256:narhash\n\
NarSize: 400\n\
References: abc-hello def-world\n\
Sig: cache.nixos.org-1:sig==\n";

#[test]
fn parse_keeps_fields_in_order() {
    let r = Record::parse(UPSTREAM);
    assert_eq!(r.len(), 9);
    assert_eq!(r.get(b"StorePath").unwrap(), b"/nix/store/abc-hello");
    assert_eq!(r.get(b"Sig").unwrap(), b"cache.nixos.org-1:sig==");
    assert_eq!(r.get(b"Missing"), None);
    assert_eq!(r.render(), UPSTREAM);
}

#[test]
fn parse_splits_at_the_first_separator() {
    let r = Record::parse(b"a: b: c\n");
    assert_eq!(r.get(b"a").unwrap(), b"b: c");
    assert_eq!(r.get(b"a: b"), None);
}

#[test]
fn parse_passes_over_lines_without_separator() {
    let r = Record::parse(b"nothing here\nkey:value\n\nkey: value\n: \n");
    assert_eq!(r.len(), 2);
    assert_eq!(r.get(b"key").unwrap(), b"value");
    assert_eq!(r.get(b"").unwrap(), b"");
}

#[test]
fn parse_takes_the_last_of_two_values() {
    let r = Record::parse(b"a: 1\nb: 2\na: 3\n");
    assert_eq!(r.len(), 2);
    assert_eq!(r.get(b"a").unwrap(), b"3");
    assert_eq!(r.render(), b"a: 3\nb: 2\n");
}

#[test]
fn parse_line_endings() {
    let r = Record::parse(b"a: 1\r\nb: 2\rx\nc: 3");
    assert_eq!(r.get(b"a").unwrap(), b"1");
    assert_eq!(r.get(b"b").unwrap(), b"2\rx");
    assert_eq!(r.get(b"c").unwrap(), b"3");
    let r = Record::parse(b"a: 1\r");
    assert_eq!(r.get(b"a").unwrap(), b"1\r");
}

#[test]
fn empty_record() {
    let r = Record::parse(b"");
    assert_eq!(r.len(), 0);
    assert_eq!(r.render(), b"\n");
    assert_eq!(Record::new().len(), 0);
}

#[test]
fn put_and_remove() {
    let mut r = Record::new();
    r.put(b"a", b"1");
    r.put(b"b", b"2");
    r.put(b"a", b"3");
    assert_eq!(r.render(), b"a: 3\nb: 2\n");
    r.remove(b"a");
    r.remove(b"zzz");
    assert_eq!(r.render(), b"b: 2\n");
    assert_eq!(r.get(b"a"), None);
}

#[test]
fn strip_algorithm_takes_what_follows_the_first_colon() {
    assert_eq!(strip_algorithm(b"sha256:abc").unwrap(), b"abc");
    assert_eq!(strip_algorithm(b"sha256:abc:def").unwrap(), b"abc:def");
    assert_eq!(strip_algorithm(b"sha256:").unwrap(), b"");
    assert_eq!(strip_algorithm(b"abc"), None);
    assert_eq!(strip_algorithm(b""), None);
}

#[test]
fn substitute_answers_for_the_rewritten_archive() {
    let s = substitute(Record::parse(UPSTREAM)).unwrap();
    assert_eq!(s.nar_name, b"narhash.nar");
    assert_eq!(s.archive_id, b"filehash");
    assert_eq!(
        s.record.render(),
        b"StorePath: /nix/store/abc-hello\n\
URL: nar/narhash.nar\n\
FileHash: sha256:narhash\n\
FileSize: 400\n\
NarHash: sha256:narhash\n\
NarSize: 400\n\
References: abc-hello def-world\n\
Sig: cache.nixos.org-1:sig==\n"
    );
    assert_eq!(s.record.get(b"Compression"), None);
}

#[test]
fn substitute_adds_fields_that_upstream_left_out() {
    let s = substitute(Record::parse(b"NarHash: sha256:n\nFileHash: sha256:f\nNarSize: 7\n")).unwrap();
    assert_eq!(
        s.record.render(),
        b"NarHash: sha256:n\nFileHash: sha256:n\nNarSize: 7\nFileSize: 7\nURL: nar/n.nar\n"
    );
}

#[test]
fn substitute_says_what_is_wrong() {
    let err = |text: &[u8]| substitute(Record::parse(text)).err().unwrap();
    assert_eq!(err(b""), RecordError::MissingNarHash);
    assert_eq!(err(b"FileHash: sha256:f\nNarSize: 1\n"), RecordError::MissingNarHash);
    assert_eq!(err(b"NarHash: n\nFileHash: sha256:f\nNarSize: 1\n"), RecordError::MalformedNarHash);
    assert_eq!(err(b"NarHash: sha256:n\nNarSize: 1\n"), RecordError::MissingFileHash);
    assert_eq!(err(b"NarHash: sha256:n\nFileHash: f\nNarSize: 1\n"), RecordError::MalformedFileHash);
    assert_eq!(err(b"NarHash: sha256:n\nFileHash: sha256:f\n"), RecordError::MissingNarSize);
}

#[test]
fn classify_requests() {
    assert_eq!(classify(b"/nix-cache-info"), Request::CacheInfo);
    assert_eq!(classify(b"/abc.narinfo"), Request::Narinfo);
    assert_eq!(classify(b"/nar/abc.nar.xz"), Request::CompressedNar);
    assert_eq!(classify(b"/nar/abc.nar"), Request::RewrittenNar);
    assert_eq!(classify(b"/nar/abc.narinfo"), Request::Unsupported);
    assert_eq!(classify(b"/nar/abc"), Request::Unsupported);
    assert_eq!(classify(b"/abc.nar"), Request::Unsupported);
    assert_eq!(classify(b"/"), Request::Unsupported);
    assert_eq!(classify(b""), Request::Unsupported);
    assert_eq!(classify(b"/nix-cache-info/"), Request::Unsupported);
}

#[test]
fn upstream_locations() {
    assert_eq!(upstream_location(b"/abc.narinfo"), b"https://cache.nixos.org/abc.narinfo");
    assert_eq!(upstream_location(b"/nar/abc.nar.xz"), b"https://cache.nixos.org/nar/abc.nar.xz");
    assert_eq!(archive_location(b"filehash"), b"https://cache.nixos.org/nar/filehash.nar.xz");
    assert_eq!(nar_file_name(b"/nar/narhash.nar"), b"narhash.nar");
}

#[test]
fn reply_statuses() {
    assert_eq!(reply_status(200), 200);
    assert_eq!(reply_status(204), 200);
    assert_eq!(reply_status(299), 200);
    assert_eq!(reply_status(404), 404);
    assert_eq!(reply_status(199), 500);
    assert_eq!(reply_status(300), 500);
    assert_eq!(reply_status(403), 500);
    assert_eq!(reply_status(500), 500);
    assert_eq!(reply_status(502), 500);
}

#[test]
fn cache_info_body() {
    assert_eq!(cache_info(), b"StoreDir: /nix/store\nWantMassQuery: 1\nPriority: 30\n");
}

#[test]
fn index_holds_the_later_of_two_entries() {
    let mut index = NarIndex::new();
    assert_eq!(index.get(b"n.nar"), None);
    index.put(b"n.nar", b"f1");
    index.put(b"m.nar", b"f2");
    index.put(b"n.nar", b"f3");
    assert_eq!(index.get(b"n.nar").unwrap(), b"f3");
    assert_eq!(index.get(b"m.nar").unwrap(), b"f2");
    assert_eq!(index.get(b"n"), None);
}

#[test]
fn a_record_leads_from_the_rewritten_archive_to_the_upstream_one() {
    let s = substitute(Record::parse(UPSTREAM)).unwrap();
    let mut index = NarIndex::new();
    index.put(&s.nar_name, &s.archive_id);
    let url = s.record.get(b"URL").unwrap().clone();
    let mut path = b"/".to_vec();
    path.extend_from_slice(&url);
    assert_eq!(classify(&path), Request::RewrittenNar);
    let id = index.get(nar_file_name(&path)).unwrap();
    assert_eq!(archive_location(id), b"https://cache.nixos.org/nar/filehash.nar.xz");
}

#[test]
fn byte_searches() {
    assert!(bytes_eq(b"abc", b"abc"));
    assert!(!bytes_eq(b"abc", b"abd"));
    assert!(!bytes_eq(b"abc", b"ab"));
    assert!(ends_with(b"abc.nar", b".nar"));
    assert!(!ends_with(b"nar", b".nar"));
    assert!(starts_with(b"/nar/x", b"/nar/"));
    assert!(!starts_with(b"/na", b"/nar/"));
    assert_eq!(find_byte(b"a:b:c", 0, b':'), 1);
    assert_eq!(find_byte(b"a:b:c", 2, b':'), 3);
    assert_eq!(find_byte(b"a:b:c", 4, b':'), 5);
}

#[test]
fn failure_statuses() {
    assert_eq!(failure_status(Failure::Transport), 500);
    assert_eq!(failure_status(Failure::Status(404)), 404);
    assert_eq!(failure_status(Failure::Status(403)), 500);
    assert_eq!(failure_status(Failure::Status(503)), 500);
    assert_eq!(failure_status(Failure::Decoding), 500);
    assert_eq!(failure_status(Failure::LookupMiss), 404);
}

#[test]
fn consumed_keys() {
    for key in ["NarHash", "NarSize", "FileHash", "FileSize", "URL", "Compression"] {
        assert!(is_consumed_key(key.as_bytes()), "{}", key);
    }
    for key in ["References", "Deriver", "StorePath", "Sig", "narhash", "URL ", ""] {
        assert!(!is_consumed_key(key.as_bytes()), "{}", key);
    }
}

#[test]
fn fields_by_position() {
    let r = Record::parse(b"a: 1\nb: 2\n");
    assert_eq!(r.key_at(0), b"a");
    assert_eq!(r.value_at(0), b"1");
    assert_eq!(r.key_at(1), b"b");
    assert_eq!(r.value_at(1), b"2");
}
