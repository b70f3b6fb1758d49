//! The metadata record of an archive: text of `Key: Value` lines.
//!
//! A record is parsed into its fields, in the order in which their keys first
//! occur and with the last value of each key. The substituter answers with a
//! record that speaks of the rewritten, uncompressed archive in place of the
//! compressed one.

use vstd::prelude::*;
use vstd::slice::{slice_subrange, slice_to_vec};
use vstd::string::StringSliceAdditionalSpecFns;
use crate::bytes::{bytes_eq, find_byte, first_at_or_after, lemma_first_at_or_after};

verus! {

/// ASCII line feed.
pub const NEWLINE: u8 = 0x0a;

/// ASCII carriage return.
pub const CARRIAGE_RETURN: u8 = 0x0d;

/// ASCII `:`.
pub const COLON: u8 = 0x3a;

/// ASCII space.
pub const SPACE: u8 = 0x20;

/// Where the line of `s` that begins at `start` ends: at its line feed, or at
/// the end of `s`.
pub open spec fn line_end(s: Seq<u8>, start: int) -> int {
    first_at_or_after(s, start, NEWLINE)
}

/// The line of `s` that begins at `start`, without its line feed and without
/// a carriage return before the line feed.
pub open spec fn line_at(s: Seq<u8>, start: int) -> Seq<u8> {
    let end = line_end(s, start);
    if end < s.len() && start < end && s[end - 1] == CARRIAGE_RETURN {
        s.subrange(start, end - 1)
    } else {
        s.subrange(start, end)
    }
}

/// The offset of the first `: ` in `line` at or after `from`, or the length
/// of `line` if there is none.
pub open spec fn separator_from(line: Seq<u8>, from: int) -> int
    decreases line.len() - from,
{
    if from < 0 || from + 1 >= line.len() {
        line.len() as int
    } else if line[from] == COLON && line[from + 1] == SPACE {
        from
    } else {
        separator_from(line, from + 1)
    }
}

/// The field that a line holds: what stands before its first `: ` is the
/// key, what stands after it the value. A line without `: ` holds none.
pub open spec fn field_of(line: Seq<u8>) -> Option<(Seq<u8>, Seq<u8>)> {
    let at = separator_from(line, 0);
    if at < line.len() {
        Some((line.take(at), line.skip(at + 2)))
    } else {
        None
    }
}

/// The offset of the first field with key `key` at or after `from`, or the
/// number of fields if there is none.
pub open spec fn key_index_from(fields: Seq<(Seq<u8>, Seq<u8>)>, key: Seq<u8>, from: int) -> int
    decreases fields.len() - from,
{
    if from < 0 || from >= fields.len() {
        fields.len() as int
    } else if fields[from].0 == key {
        from
    } else {
        key_index_from(fields, key, from + 1)
    }
}

/// The offset of the field with key `key`, or the number of fields if there
/// is none.
pub open spec fn key_index(fields: Seq<(Seq<u8>, Seq<u8>)>, key: Seq<u8>) -> int {
    key_index_from(fields, key, 0)
}

/// The value of the field with key `key`.
pub open spec fn lookup(fields: Seq<(Seq<u8>, Seq<u8>)>, key: Seq<u8>) -> Option<Seq<u8>> {
    let at = key_index(fields, key);
    if at < fields.len() {
        Some(fields[at].1)
    } else {
        None
    }
}

/// `fields` with `key` set to `value`: in the place of the field that had the
/// key, or at the end.
pub open spec fn with_field(fields: Seq<(Seq<u8>, Seq<u8>)>, key: Seq<u8>, value: Seq<u8>) -> Seq<
    (Seq<u8>, Seq<u8>),
> {
    let at = key_index(fields, key);
    if at < fields.len() {
        fields.update(at, (key, value))
    } else {
        fields.push((key, value))
    }
}

/// `fields` without the field with key `key`.
pub open spec fn without_field(fields: Seq<(Seq<u8>, Seq<u8>)>, key: Seq<u8>) -> Seq<
    (Seq<u8>, Seq<u8>),
> {
    let at = key_index(fields, key);
    if at < fields.len() {
        fields.remove(at)
    } else {
        fields
    }
}

/// No key occurs twice.
pub open spec fn unique_keys(fields: Seq<(Seq<u8>, Seq<u8>)>) -> bool {
    forall|i: int, j: int| 0 <= i < j < fields.len() ==> (#[trigger] fields[i]).0 != (
    #[trigger] fields[j]).0
}

/// The fields of the lines of `s` from offset `start` on, added to `so_far`.
pub open spec fn parse_from(s: Seq<u8>, start: int, so_far: Seq<(Seq<u8>, Seq<u8>)>) -> Seq<
    (Seq<u8>, Seq<u8>),
>
    decreases s.len() + 1 - start,
{
    if start < 0 || start >= s.len() {
        so_far
    } else {
        let next = match field_of(line_at(s, start)) {
            Some((key, value)) => with_field(so_far, key, value),
            None => so_far,
        };
        proof {
            lemma_first_at_or_after(s, start, NEWLINE);
        }
        parse_from(s, line_end(s, start) + 1, next)
    }
}

/// The fields of a record's text.
pub open spec fn parsed(text: Seq<u8>) -> Seq<(Seq<u8>, Seq<u8>)> {
    parse_from(text, 0, Seq::empty())
}

/// The line that a field is written as.
pub open spec fn field_line(field: (Seq<u8>, Seq<u8>)) -> Seq<u8> {
    field.0 + seq![COLON, SPACE] + field.1
}

/// The lines of `fields` with a line feed between each two.
pub open spec fn joined_lines(fields: Seq<(Seq<u8>, Seq<u8>)>) -> Seq<u8>
    decreases fields.len(),
{
    if fields.len() == 0 {
        Seq::empty()
    } else if fields.len() == 1 {
        field_line(fields[0])
    } else {
        joined_lines(fields.drop_last()) + seq![NEWLINE] + field_line(fields.last())
    }
}

/// The text of a record: its lines with a line feed between each two and one
/// at the end.
pub open spec fn rendered(fields: Seq<(Seq<u8>, Seq<u8>)>) -> Seq<u8> {
    joined_lines(fields) + seq![NEWLINE]
}

/// Where the first field with the key is, there it is and none before it.
pub proof fn lemma_key_index_from(fields: Seq<(Seq<u8>, Seq<u8>)>, key: Seq<u8>, from: int)
    requires
        0 <= from <= fields.len(),
    ensures
        from <= key_index_from(fields, key, from) <= fields.len(),
        key_index_from(fields, key, from) < fields.len() ==> fields[key_index_from(
            fields,
            key,
            from,
        )].0 == key,
        forall|j: int| from <= j < key_index_from(fields, key, from) ==> (#[trigger] fields[j]).0
            != key,
    decreases fields.len() - from,
{
    if from < fields.len() && fields[from].0 != key {
        lemma_key_index_from(fields, key, from + 1);
    }
}

/// Setting a field keeps the keys apart.
pub proof fn lemma_with_field_unique(fields: Seq<(Seq<u8>, Seq<u8>)>, key: Seq<u8>, value: Seq<u8>)
    requires
        unique_keys(fields),
    ensures
        unique_keys(with_field(fields, key, value)),
{
    lemma_key_index_from(fields, key, 0);
    let at = key_index(fields, key);
    let after = with_field(fields, key, value);
    assert forall|i: int, j: int| 0 <= i < j < after.len() implies (#[trigger] after[i]).0 != (
    #[trigger] after[j]).0 by {
        if at < fields.len() {
            assert(after[i].0 == fields[i].0);
            assert(after[j].0 == fields[j].0);
        } else if j < fields.len() {
            assert(after[i] == fields[i]);
            assert(after[j] == fields[j]);
        } else {
            assert(after[i] == fields[i]);
        }
    }
}

/// Taking a field out keeps the keys apart.
pub proof fn lemma_without_field_unique(fields: Seq<(Seq<u8>, Seq<u8>)>, key: Seq<u8>)
    requires
        unique_keys(fields),
    ensures
        unique_keys(without_field(fields, key)),
{
    lemma_key_index_from(fields, key, 0);
    let at = key_index(fields, key);
    let after = without_field(fields, key);
    assert forall|i: int, j: int| 0 <= i < j < after.len() implies (#[trigger] after[i]).0 != (
    #[trigger] after[j]).0 by {
        if at < fields.len() {
            let i0 = if i < at { i } else { i + 1 };
            let j0 = if j < at { j } else { j + 1 };
            assert(after[i] == fields[i0]);
            assert(after[j] == fields[j0]);
        }
    }
}

/// One field of a record.
pub struct Field {
    pub key: Vec<u8>,
    pub value: Vec<u8>,
}

impl View for Field {
    type V = (Seq<u8>, Seq<u8>);

    open spec fn view(&self) -> (Seq<u8>, Seq<u8>) {
        (self.key@, self.value@)
    }
}

/// A metadata record: its fields in order, no key twice.
pub struct Record {
    fields: Vec<Field>,
}

impl View for Record {
    type V = Seq<(Seq<u8>, Seq<u8>)>;

    closed spec fn view(&self) -> Seq<(Seq<u8>, Seq<u8>)> {
        self.fields@.map_values(|f: Field| f@)
    }
}

/// Finds the first `: ` in `line`.
fn find_separator(line: &[u8]) -> (at: usize)
    ensures
        at == separator_from(line@, 0),
        at <= line.len(),
        at < line.len() ==> at + 2 <= line.len(),
{
    if line.len() < 2 {
        return line.len();
    }
    let mut i: usize = 0;
    while i < line.len() - 1 && !(line[i] == COLON && line[i + 1] == SPACE)
        invariant
            2 <= line.len(),
            i <= line.len() - 1,
            separator_from(line@, 0) == separator_from(line@, i as int),
        decreases line.len() - i,
    {
        i += 1;
    }
    if i < line.len() - 1 {
        i
    } else {
        line.len()
    }
}

impl Record {
    /// No key occurs twice.
    pub open spec fn wf(&self) -> bool {
        unique_keys(self@)
    }

    /// A record without fields.
    pub fn new() -> (r: Self)
        ensures
            r.wf(),
            r@ == Seq::<(Seq<u8>, Seq<u8>)>::empty(),
    {
        let r = Self { fields: Vec::new() };
        assert(r@ =~= Seq::<(Seq<u8>, Seq<u8>)>::empty());
        r
    }

    /// The number of fields.
    pub fn len(&self) -> (n: usize)
        ensures
            n == self@.len(),
    {
        self.fields.len()
    }

    /// The key of field `i`.
    pub fn key_at(&self, i: usize) -> (key: &Vec<u8>)
        requires
            i < self@.len(),
        ensures
            key@ == self@[i as int].0,
    {
        &self.fields[i].key
    }

    /// The value of field `i`.
    pub fn value_at(&self, i: usize) -> (value: &Vec<u8>)
        requires
            i < self@.len(),
        ensures
            value@ == self@[i as int].1,
    {
        &self.fields[i].value
    }

    /// Where the field with key `key` is, or the number of fields.
    fn key_position(&self, key: &[u8]) -> (at: usize)
        ensures
            at == key_index(self@, key@),
            at <= self.fields.len(),
    {
        let mut i: usize = 0;
        while i < self.fields.len()
            invariant
                i <= self.fields.len(),
                key_index(self@, key@) == key_index_from(self@, key@, i as int),
            decreases self.fields.len() - i,
        {
            if bytes_eq(self.fields[i].key.as_slice(), key) {
                return i;
            }
            i += 1;
        }
        i
    }

    /// The value of the field with key `key`.
    pub fn get(&self, key: &[u8]) -> (value: Option<&Vec<u8>>)
        ensures
            match value {
                Some(v) => lookup(self@, key@) == Some(v@),
                None => lookup(self@, key@) is None,
            },
    {
        let at: usize = self.key_position(key);
        if at < self.fields.len() {
            Some(&self.fields[at].value)
        } else {
            None
        }
    }

    /// Sets `key` to `value`: in the place of the field that had the key, or
    /// at the end.
    pub fn put(&mut self, key: &[u8], value: &[u8])
        requires
            old(self).wf(),
        ensures
            final(self).wf(),
            final(self)@ == with_field(old(self)@, key@, value@),
    {
        let at: usize = self.key_position(key);
        let field = Field { key: slice_to_vec(key), value: slice_to_vec(value) };
        proof {
            lemma_with_field_unique(self@, key@, value@);
        }
        let ghost before = self@;
        if at < self.fields.len() {
            self.fields[at] = field;
        } else {
            self.fields.push(field);
        }
        assert(self@ =~= with_field(before, key@, value@));
    }

    /// Takes out the field with key `key`, if there is one.
    pub fn remove(&mut self, key: &[u8])
        requires
            old(self).wf(),
        ensures
            final(self).wf(),
            final(self)@ == without_field(old(self)@, key@),
    {
        let at: usize = self.key_position(key);
        proof {
            lemma_without_field_unique(self@, key@);
        }
        let ghost before = self@;
        if at < self.fields.len() {
            self.fields.remove(at);
        }
        assert(self@ =~= without_field(before, key@));
    }

    /// Reads a record from its text. A line without `: ` is passed over; of
    /// two lines with one key the second gives the value.
    pub fn parse(text: &[u8]) -> (r: Self)
        ensures
            r.wf(),
            r@ == parsed(text@),
    {
        let mut record = Record::new();
        let mut start: usize = 0;
        while start < text.len()
            invariant
                start <= text.len(),
                record.wf(),
                parsed(text@) == parse_from(text@, start as int, record@),
            decreases text.len() - start,
        {
            let end: usize = find_byte(text, start, NEWLINE);
            let content_end: usize = if end < text.len() && start < end && text[end - 1]
                == CARRIAGE_RETURN {
                end - 1
            } else {
                end
            };
            let line = slice_subrange(text, start, content_end);
            let at: usize = find_separator(line);
            let ghost before = record@;
            if at < line.len() {
                let key = slice_subrange(line, 0, at);
                let value = slice_subrange(line, at + 2, line.len());
                proof {
                    assert(key@ =~= line@.take(at as int));
                    assert(value@ =~= line@.skip(at + 2));
                }
                record.put(key, value);
            }
            proof {
                assert(line@ == line_at(text@, start as int));
                assert(end == line_end(text@, start as int));
                assert(parse_from(text@, start as int, before) == parse_from(
                    text@,
                    end + 1,
                    record@,
                ));
                if end == text.len() {
                    assert(parse_from(text@, end + 1, record@) == record@);
                    assert(parse_from(text@, end as int, record@) == record@);
                }
            }
            start = if end < text.len() {
                end + 1
            } else {
                end
            };
        }
        record
    }

    /// Writes the record as text: one line for each field, each closed by a
    /// line feed; the text of a record without fields is one line feed.
    pub fn render(&self) -> (text: Vec<u8>)
        ensures
            text@ == rendered(self@),
    {
        let mut out: Vec<u8> = Vec::new();
        let mut i: usize = 0;
        proof {
            assert(self@.take(0) =~= Seq::<(Seq<u8>, Seq<u8>)>::empty());
        }
        while i < self.fields.len()
            invariant
                i <= self.fields.len(),
                out@ == joined_lines(self@.take(i as int)),
            decreases self.fields.len() - i,
        {
            let ghost before = out@;
            if i > 0 {
                out.push(NEWLINE);
            }
            out.extend_from_slice(self.fields[i].key.as_slice());
            out.push(COLON);
            out.push(SPACE);
            out.extend_from_slice(self.fields[i].value.as_slice());
            proof {
                let now = self@.take(i + 1);
                assert(now.drop_last() =~= self@.take(i as int));
                assert(now.last() == self@[i as int]);
                assert(seq![COLON, SPACE] =~= seq![COLON].push(SPACE));
                if i == 0 {
                    assert(out@ =~= field_line(now[0]));
                } else {
                    assert(out@ =~= before + seq![NEWLINE] + field_line(now.last()));
                }
            }
            i += 1;
        }
        proof {
            assert(self@.take(i as int) =~= self@);
        }
        out.push(NEWLINE);
        out
    }
}

/// The key of the hash of the uncompressed archive.
pub open spec fn nar_hash_key() -> Seq<u8> {
    "NarHash".spec_bytes()
}

/// The key of the size of the uncompressed archive.
pub open spec fn nar_size_key() -> Seq<u8> {
    "NarSize".spec_bytes()
}

/// The key of the hash of the archive as it is served.
pub open spec fn file_hash_key() -> Seq<u8> {
    "FileHash".spec_bytes()
}

/// The key of the size of the archive as it is served.
pub open spec fn file_size_key() -> Seq<u8> {
    "FileSize".spec_bytes()
}

/// The key of the place of the archive.
pub open spec fn url_key() -> Seq<u8> {
    "URL".spec_bytes()
}

/// The key of the compression of the archive as it is served.
pub open spec fn compression_key() -> Seq<u8> {
    "Compression".spec_bytes()
}

/// Whether `key` is one of the fields that the substituter reads or writes.
/// Of any other field it knows nothing; it hands it on as it is.
pub open spec fn is_consumed(key: Seq<u8>) -> bool {
    ||| key == nar_hash_key()
    ||| key == nar_size_key()
    ||| key == file_hash_key()
    ||| key == file_size_key()
    ||| key == url_key()
    ||| key == compression_key()
}

/// Whether `key` is one of the fields that the substituter reads or writes.
pub fn is_consumed_key(key: &[u8]) -> (r: bool)
    ensures
        r == is_consumed(key@),
{
    bytes_eq(key, "NarHash".as_bytes()) || bytes_eq(key, "NarSize".as_bytes()) || bytes_eq(
        key,
        "FileHash".as_bytes(),
    ) || bytes_eq(key, "FileSize".as_bytes()) || bytes_eq(key, "URL".as_bytes()) || bytes_eq(
        key,
        "Compression".as_bytes(),
    )
}

/// A hash without the name of its algorithm: what follows the first `:`.
/// A value without `:` has no such part.
pub open spec fn stripped(value: Seq<u8>) -> Option<Seq<u8>> {
    let at = first_at_or_after(value, 0, COLON);
    if at < value.len() {
        Some(value.skip(at + 1))
    } else {
        None
    }
}

/// The file name under which the rewritten archive with hash `nar_id` is
/// served.
pub open spec fn nar_name(nar_id: Seq<u8>) -> Seq<u8> {
    nar_id + ".nar".spec_bytes()
}

/// The place under which the rewritten archive with hash `nar_id` is served.
pub open spec fn nar_url(nar_id: Seq<u8>) -> Seq<u8> {
    "nar/".spec_bytes() + nar_name(nar_id)
}

/// Why a record cannot be answered.
#[derive(Clone, Copy, Debug, PartialEq, Eq, Structural)]
pub enum RecordError {
    /// The record has no `NarHash`.
    MissingNarHash,
    /// The `NarHash` does not name its algorithm.
    MalformedNarHash,
    /// The record has no `FileHash`.
    MissingFileHash,
    /// The `FileHash` does not name its algorithm.
    MalformedFileHash,
    /// The record has no `NarSize`.
    MissingNarSize,
}

/// What the substituter makes of an upstream record.
pub struct Substitution {
    /// The record to answer with.
    pub record: Record,
    /// The file name under which the rewritten archive will be asked for.
    pub nar_name: Vec<u8>,
    /// The upstream archive to fetch for it.
    pub archive_id: Vec<u8>,
}

/// The record that the substituter answers with, the file name under which
/// the rewritten archive will be asked for, and the upstream archive to
/// fetch then.
///
/// The answer has every field of the upstream record but `Compression`;
/// `FileHash` and `FileSize` are those of the uncompressed archive, and `URL`
/// is the place of the rewritten archive.
pub open spec fn substituted(fields: Seq<(Seq<u8>, Seq<u8>)>) -> Result<
    (Seq<(Seq<u8>, Seq<u8>)>, Seq<u8>, Seq<u8>),
    RecordError,
> {
    match lookup(fields, nar_hash_key()) {
        None => Err(RecordError::MissingNarHash),
        Some(nar_hash) => match stripped(nar_hash) {
            None => Err(RecordError::MalformedNarHash),
            Some(nar_id) => match lookup(fields, file_hash_key()) {
                None => Err(RecordError::MissingFileHash),
                Some(file_hash) => match stripped(file_hash) {
                    None => Err(RecordError::MalformedFileHash),
                    Some(archive_id) => match lookup(fields, nar_size_key()) {
                        None => Err(RecordError::MissingNarSize),
                        Some(nar_size) => Ok(
                            (
                                with_field(
                                    with_field(
                                        with_field(
                                            without_field(fields, compression_key()),
                                            file_hash_key(),
                                            nar_hash,
                                        ),
                                        file_size_key(),
                                        nar_size,
                                    ),
                                    url_key(),
                                    nar_url(nar_id),
                                ),
                                nar_name(nar_id),
                                archive_id,
                            ),
                        ),
                    },
                },
            },
        },
    }
}

/// What follows the first `:` of `value`.
pub fn strip_algorithm(value: &[u8]) -> (rest: Option<&[u8]>)
    ensures
        match rest {
            Some(r) => stripped(value@) == Some(r@),
            None => stripped(value@) is None,
        },
{
    let at: usize = find_byte(value, 0, COLON);
    if at < value.len() {
        let rest = slice_subrange(value, at + 1, value.len());
        assert(rest@ =~= value@.skip(at + 1));
        Some(rest)
    } else {
        None
    }
}

/// Makes of an upstream record the record to answer with, and says under
/// which file name the rewritten archive will be asked for and which
/// upstream archive to fetch then.
pub fn substitute(upstream: Record) -> (r: Result<Substitution, RecordError>)
    requires
        upstream.wf(),
    ensures
        match r {
            Ok(s) => s.record.wf() && substituted(upstream@) == Ok::<
                (Seq<(Seq<u8>, Seq<u8>)>, Seq<u8>, Seq<u8>),
                RecordError,
            >((s.record@, s.nar_name@, s.archive_id@)),
            Err(e) => substituted(upstream@) == Err::<
                (Seq<(Seq<u8>, Seq<u8>)>, Seq<u8>, Seq<u8>),
                RecordError,
            >(e),
        },
{
    let mut record = upstream;
    let nar_hash: Vec<u8> = match record.get("NarHash".as_bytes()) {
        Some(v) => slice_to_vec(v.as_slice()),
        None => {
            return Err(RecordError::MissingNarHash);
        },
    };
    let nar_id: Vec<u8> = match strip_algorithm(nar_hash.as_slice()) {
        Some(v) => slice_to_vec(v),
        None => {
            return Err(RecordError::MalformedNarHash);
        },
    };
    let file_hash: Vec<u8> = match record.get("FileHash".as_bytes()) {
        Some(v) => slice_to_vec(v.as_slice()),
        None => {
            return Err(RecordError::MissingFileHash);
        },
    };
    let archive_id: Vec<u8> = match strip_algorithm(file_hash.as_slice()) {
        Some(v) => slice_to_vec(v),
        None => {
            return Err(RecordError::MalformedFileHash);
        },
    };
    let nar_size: Vec<u8> = match record.get("NarSize".as_bytes()) {
        Some(v) => slice_to_vec(v.as_slice()),
        None => {
            return Err(RecordError::MissingNarSize);
        },
    };
    let mut name: Vec<u8> = Vec::new();
    name.extend_from_slice(nar_id.as_slice());
    name.extend_from_slice(".nar".as_bytes());
    let mut url: Vec<u8> = Vec::new();
    url.extend_from_slice("nar/".as_bytes());
    url.extend_from_slice(name.as_slice());
    proof {
        assert(name@ =~= nar_name(nar_id@));
        assert(url@ =~= nar_url(nar_id@));
    }
    record.remove("Compression".as_bytes());
    record.put("FileHash".as_bytes(), nar_hash.as_slice());
    record.put("FileSize".as_bytes(), nar_size.as_slice());
    record.put("URL".as_bytes(), url.as_slice());
    Ok(Substitution { record, nar_name: name, archive_id })
}

} // verus!
