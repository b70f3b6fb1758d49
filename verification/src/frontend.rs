//! What the substituter front-end decides: which kind of request a path is,
//! where to fetch upstream, with which status to answer, and which upstream
//! archive stands behind a rewritten one.

use vstd::prelude::*;
use vstd::slice::slice_subrange;
use vstd::string::StringSliceAdditionalSpecFns;
use crate::bytes::{bytes_eq, ends_with, has_prefix, has_suffix, starts_with};
use crate::narinfo::{lookup, with_field, Record};

verus! {

/// The kinds of request.
#[derive(Clone, Copy, Debug, PartialEq, Eq, Structural)]
pub enum Request {
    /// `/nix-cache-info`: the description of the cache.
    CacheInfo,
    /// `/<archive id>.narinfo`: a metadata record.
    Narinfo,
    /// `/nar/<archive id>.nar.xz`: the upstream archive as it is.
    CompressedNar,
    /// `/nar/<nar hash>.nar`: the archive, decompressed and rewritten.
    RewrittenNar,
    /// Anything else.
    Unsupported,
}

/// The kind of request that `path` is.
pub open spec fn classified(path: Seq<u8>) -> Request {
    if path == "/nix-cache-info".spec_bytes() {
        Request::CacheInfo
    } else if has_prefix(path, "/nar/".spec_bytes()) {
        if has_suffix(path, ".nar.xz".spec_bytes()) {
            Request::CompressedNar
        } else if has_suffix(path, ".nar".spec_bytes()) {
            Request::RewrittenNar
        } else {
            Request::Unsupported
        }
    } else if has_suffix(path, ".narinfo".spec_bytes()) {
        Request::Narinfo
    } else {
        Request::Unsupported
    }
}

/// Says which kind of request `path` is.
pub fn classify(path: &[u8]) -> (r: Request)
    ensures
        r == classified(path@),
{
    if bytes_eq(path, "/nix-cache-info".as_bytes()) {
        Request::CacheInfo
    } else if starts_with(path, "/nar/".as_bytes()) {
        if ends_with(path, ".nar.xz".as_bytes()) {
            Request::CompressedNar
        } else if ends_with(path, ".nar".as_bytes()) {
            Request::RewrittenNar
        } else {
            Request::Unsupported
        }
    } else if ends_with(path, ".narinfo".as_bytes()) {
        Request::Narinfo
    } else {
        Request::Unsupported
    }
}

/// The upstream cache.
pub open spec fn upstream() -> Seq<u8> {
    "https://cache.nixos.org".spec_bytes()
}

/// Where upstream the same path is.
pub fn upstream_location(path: &[u8]) -> (url: Vec<u8>)
    ensures
        url@ == upstream() + path@,
{
    let mut url: Vec<u8> = Vec::new();
    url.extend_from_slice("https://cache.nixos.org".as_bytes());
    url.extend_from_slice(path);
    url
}

/// Where upstream the compressed archive `archive_id` is.
pub fn archive_location(archive_id: &[u8]) -> (url: Vec<u8>)
    ensures
        url@ == upstream() + "/nar/".spec_bytes() + archive_id@ + ".nar.xz".spec_bytes(),
{
    let mut url: Vec<u8> = Vec::new();
    url.extend_from_slice("https://cache.nixos.org".as_bytes());
    url.extend_from_slice("/nar/".as_bytes());
    url.extend_from_slice(archive_id);
    url.extend_from_slice(".nar.xz".as_bytes());
    url
}

/// The file name that a request for an archive asks for: its path after
/// `/nar/`.
pub fn nar_file_name(path: &[u8]) -> (name: &[u8])
    requires
        has_prefix(path@, "/nar/".spec_bytes()),
    ensures
        name@ == path@.skip("/nar/".spec_bytes().len() as int),
{
    let from: usize = "/nar/".as_bytes().len();
    slice_subrange(path, from, path.len())
}

/// The status to answer with, from the status that upstream answered with:
/// 200 where upstream succeeded, 404 where it had nothing, 500 otherwise.
pub open spec fn answered(upstream_status: u16) -> u16 {
    if 200 <= upstream_status <= 299 {
        200
    } else if upstream_status == 404 {
        404
    } else {
        500
    }
}

/// The status to answer with.
pub fn reply_status(upstream_status: u16) -> (status: u16)
    ensures
        status == answered(upstream_status),
{
    if 200 <= upstream_status && upstream_status <= 299 {
        200
    } else if upstream_status == 404 {
        404
    } else {
        500
    }
}

/// What can go wrong while a request is answered.
#[derive(Clone, Copy, Debug, PartialEq, Eq, Structural)]
pub enum Failure {
    /// Upstream could not be reached or read.
    Transport,
    /// Upstream answered with this status, which is no success.
    Status(u16),
    /// The archive or the record from upstream is malformed.
    Decoding,
    /// No record was answered yet for the archive that is asked for.
    LookupMiss,
}

/// The status to answer a failure with: 404 where upstream had nothing or the
/// archive is not known, 500 otherwise.
pub open spec fn failure_answer(failure: Failure) -> u16 {
    match failure {
        Failure::Transport => 500,
        Failure::Status(status) => if status == 404 {
            404
        } else {
            500
        },
        Failure::Decoding => 500,
        Failure::LookupMiss => 404,
    }
}

/// The status to answer a failure with.
pub fn failure_status(failure: Failure) -> (status: u16)
    ensures
        status == failure_answer(failure),
{
    match failure {
        Failure::Transport => 500,
        Failure::Status(status) => if status == 404 {
            404
        } else {
            500
        },
        Failure::Decoding => 500,
        Failure::LookupMiss => 404,
    }
}

/// The description of the cache: store directory, mass queries, priority.
pub fn cache_info() -> (body: Vec<u8>)
    ensures
        body@ == "StoreDir: /nix/store\nWantMassQuery: 1\nPriority: 30\n".spec_bytes(),
{
    vstd::slice::slice_to_vec("StoreDir: /nix/store\nWantMassQuery: 1\nPriority: 30\n".as_bytes())
}

/// Which upstream archive stands behind each rewritten archive that a
/// record was answered for. Of two entries for one file name the later one
/// holds.
pub struct NarIndex {
    entries: Record,
}

impl View for NarIndex {
    type V = Seq<(Seq<u8>, Seq<u8>)>;

    closed spec fn view(&self) -> Seq<(Seq<u8>, Seq<u8>)> {
        self.entries@
    }
}

impl NarIndex {
    /// No file name occurs twice.
    pub closed spec fn wf(&self) -> bool {
        self.entries.wf()
    }

    /// An index without entries.
    pub fn new() -> (index: Self)
        ensures
            index.wf(),
            index@ == Seq::<(Seq<u8>, Seq<u8>)>::empty(),
    {
        Self { entries: Record::new() }
    }

    /// Notes that `archive_id` stands behind `nar_name`.
    pub fn put(&mut self, nar_name: &[u8], archive_id: &[u8])
        requires
            old(self).wf(),
        ensures
            final(self).wf(),
            final(self)@ == with_field(old(self)@, nar_name@, archive_id@),
    {
        self.entries.put(nar_name, archive_id);
    }

    /// The upstream archive that stands behind `nar_name`.
    pub fn get(&self, nar_name: &[u8]) -> (archive_id: Option<&Vec<u8>>)
        ensures
            match archive_id {
                Some(id) => lookup(self@, nar_name@) == Some(id@),
                None => lookup(self@, nar_name@) is None,
            },
    {
        self.entries.get(nar_name)
    }
}

} // verus!
