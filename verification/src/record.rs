//! The records of the log: one line of text each, its fields separated by
//! white space.

use vstd::prelude::*;

verus! {

/// Why a log could not be used.
#[derive(Debug, PartialEq, Eq)]
pub enum LogError {
    /// The storage underneath failed.
    IoError,
    /// A record is malformed.
    LogCorrupt,
}

/// A record as it stands in the log, its fields still text.
#[derive(Debug)]
pub enum Record {
    Insert { key: Vec<u8>, value: Vec<u8> },
    Delete { key: Vec<u8> },
}

/// What a record says, over byte sequences.
pub enum RecordText {
    Insert { key: Seq<u8>, value: Seq<u8> },
    Delete { key: Seq<u8> },
}

impl View for Record {
    type V = RecordText;

    open spec fn view(&self) -> RecordText {
        match self {
            Record::Insert { key, value } => RecordText::Insert { key: key@, value: value@ },
            Record::Delete { key } => RecordText::Delete { key: key@ },
        }
    }
}

/// The byte is white space. The grammar of the log is one of bytes, and its
/// white space is that of ASCII: a blank, or one of the control characters
/// from tab to carriage return. No other byte separates fields, so that a
/// character outside ASCII, whatever it looks like, is part of the field it
/// stands in.
pub open spec fn is_space(b: u8) -> bool {
    b == 32 || (9 <= b <= 13)
}

/// No byte of `s` is white space.
pub open spec fn spaceless(s: Seq<u8>) -> bool {
    forall|i: int| 0 <= i < s.len() ==> !is_space(#[trigger] s[i])
}

/// The word that opens an insertion record.
pub open spec fn insert_word() -> Seq<u8> {
    seq![73u8, 78u8, 83u8, 69u8, 82u8, 84u8]
}

/// The word that opens a deletion record.
pub open spec fn delete_word() -> Seq<u8> {
    seq![68u8, 69u8, 76u8, 69u8, 84u8, 69u8]
}

/// First position from `i` on that holds no white space; the length of `s`
/// where there is none.
pub open spec fn skip_spaces(s: Seq<u8>, i: int) -> int
    decreases s.len() - i,
{
    if 0 <= i < s.len() && is_space(s[i]) {
        skip_spaces(s, i + 1)
    } else {
        i
    }
}

/// First position from `i` on that holds white space; the length of `s`
/// where there is none.
pub open spec fn skip_word(s: Seq<u8>, i: int) -> int
    decreases s.len() - i,
{
    if 0 <= i < s.len() && !is_space(s[i]) {
        skip_word(s, i + 1)
    } else {
        i
    }
}

/// The fields of `s` from position `i` on: its maximal runs of bytes that
/// are not white space.
pub open spec fn fields_from(s: Seq<u8>, i: int) -> Seq<Seq<u8>>
    decreases s.len() - i,
{
    let start = skip_spaces(s, i);
    let end = skip_word(s, start);
    if 0 <= i <= start < end <= s.len() {
        seq![s.subrange(start, end)] + fields_from(s, end)
    } else {
        Seq::empty()
    }
}

/// The fields of a line.
pub open spec fn fields(s: Seq<u8>) -> Seq<Seq<u8>> {
    fields_from(s, 0)
}

/// What a line of the log says: an insertion with its two fields, a deletion
/// with its one, and nothing where the first field is neither word or a
/// field is missing. Fields beyond those are ignored. Fields are separated
/// by ASCII white space only (see `is_space`).
pub open spec fn parsed(s: Seq<u8>) -> Result<RecordText, LogError> {
    let f = fields(s);
    if f.len() >= 3 && f[0] == insert_word() {
        Ok(RecordText::Insert { key: f[1], value: f[2] })
    } else if f.len() >= 2 && f[0] == delete_word() {
        Ok(RecordText::Delete { key: f[1] })
    } else {
        Err(LogError::LogCorrupt)
    }
}

/// The line that records an insertion.
pub open spec fn insert_line(key: Seq<u8>, value: Seq<u8>) -> Seq<u8> {
    insert_word().push(32u8) + key + seq![32u8] + value + seq![10u8]
}

/// The line that records a deletion.
pub open spec fn delete_line(key: Seq<u8>) -> Seq<u8> {
    delete_word().push(32u8) + key + seq![10u8]
}

/// White space from `a` up to `b`, and none at `b`, lead from `a` to `b`.
pub proof fn lemma_skip_spaces_to(s: Seq<u8>, a: int, b: int)
    requires
        0 <= a <= b <= s.len(),
        forall|j: int| a <= j < b ==> is_space(#[trigger] s[j]),
        b < s.len() ==> !is_space(s[b]),
    ensures
        skip_spaces(s, a) == b,
    decreases b - a,
{
    if a < b {
        lemma_skip_spaces_to(s, a + 1, b);
    }
}

/// A word from `a` up to `b`, and white space or the end at `b`, lead from
/// `a` to `b`.
pub proof fn lemma_skip_word_to(s: Seq<u8>, a: int, b: int)
    requires
        0 <= a <= b <= s.len(),
        forall|j: int| a <= j < b ==> !is_space(#[trigger] s[j]),
        b < s.len() ==> is_space(s[b]),
    ensures
        skip_word(s, a) == b,
    decreases b - a,
{
    if a < b {
        lemma_skip_word_to(s, a + 1, b);
    }
}

/// Where a word stands from `a` up to `b` after white space from `i` on,
/// the fields from `i` on are that word and the fields from `b` on.
pub proof fn lemma_field_at(s: Seq<u8>, i: int, a: int, b: int)
    requires
        0 <= i <= a < b <= s.len(),
        forall|j: int| i <= j < a ==> is_space(#[trigger] s[j]),
        forall|j: int| a <= j < b ==> !is_space(#[trigger] s[j]),
        b < s.len() ==> is_space(s[b]),
    ensures
        fields_from(s, i) == seq![s.subrange(a, b)] + fields_from(s, b),
{
    lemma_skip_spaces_to(s, i, a);
    lemma_skip_word_to(s, a, b);
}

/// The fields of a line that starts with a six-byte word, a blank and a
/// field, then white space: the word, the field, and what follows.
proof fn lemma_two_fields(s: Seq<u8>, word: Seq<u8>, key: Seq<u8>)
    requires
        word.len() == 6,
        spaceless(word),
        key.len() > 0,
        spaceless(key),
        s.len() > 7 + key.len() as int,
        s.subrange(0, 6) == word,
        s[6] == 32u8,
        s.subrange(7, 7 + key.len() as int) == key,
        is_space(s[7 + key.len() as int]),
    ensures
        fields(s) == seq![word, key] + fields_from(s, 7 + key.len() as int),
{
    let k1: int = 7 + key.len() as int;
    assert forall|j: int| 0 <= j < 6 implies !is_space(#[trigger] s[j]) by {
        assert(s[j] == s.subrange(0, 6)[j]);
    }
    assert forall|j: int| 7 <= j < k1 implies !is_space(#[trigger] s[j]) by {
        assert(s[j] == s.subrange(7, k1)[j - 7]);
    }
    lemma_field_at(s, 0, 0, 6);
    lemma_field_at(s, 6, 7, k1);
    assert(fields(s) =~= seq![word, key] + fields_from(s, k1));
}

/// The line of an insertion: where its parts stand.
proof fn lemma_insert_line(key: Seq<u8>, value: Seq<u8>)
    ensures
        insert_line(key, value).len() == 9 + key.len() as int + value.len() as int,
        insert_line(key, value).subrange(0, 6) == insert_word(),
        insert_line(key, value)[6] == 32u8,
        insert_line(key, value).subrange(7, 7 + key.len() as int) == key,
        insert_line(key, value)[7 + key.len() as int] == 32u8,
        insert_line(key, value).subrange(8 + key.len() as int, 8 + key.len() as int + value.len() as int) == value,
        insert_line(key, value)[8 + key.len() as int + value.len() as int] == 10u8,
{
    let s = insert_line(key, value);
    assert(s.subrange(0, 6) =~= insert_word());
    assert(s.subrange(7, 7 + key.len() as int) =~= key);
    assert(s.subrange(8 + key.len() as int, 8 + key.len() as int + value.len() as int) =~= value);
}

/// The line of a deletion: where its parts stand.
proof fn lemma_delete_line(key: Seq<u8>)
    ensures
        delete_line(key).len() == 8 + key.len() as int,
        delete_line(key).subrange(0, 6) == delete_word(),
        delete_line(key)[6] == 32u8,
        delete_line(key).subrange(7, 7 + key.len() as int) == key,
        delete_line(key)[7 + key.len() as int] == 10u8,
{
    let s = delete_line(key);
    assert(s.subrange(0, 6) =~= delete_word());
    assert(s.subrange(7, 7 + key.len() as int) =~= key);
}

/// Record round trip, deletions: the line written for a deletion, with a
/// key that is not empty and holds no white space, reads back as that
/// deletion.
pub proof fn law_delete_round_trip(key: Seq<u8>)
    requires
        key.len() > 0,
        spaceless(key),
    ensures
        parsed(delete_line(key)) == Ok::<RecordText, LogError>(RecordText::Delete { key }),
{
    let d = delete_line(key);
    lemma_delete_line(key);
    lemma_two_fields(d, delete_word(), key);
    assert(insert_word()[0] != delete_word()[0]);
    let f = fields(d);
    assert(f[0] == delete_word());
    assert(f[1] == key);
}

/// Record round trip, insertions: the line written for an insertion, with
/// fields that are not empty and hold no white space, reads back as that
/// insertion.
pub proof fn law_insert_round_trip(key: Seq<u8>, value: Seq<u8>)
    requires
        key.len() > 0,
        value.len() > 0,
        spaceless(key),
        spaceless(value),
    ensures
        parsed(insert_line(key, value)) == Ok::<RecordText, LogError>(
            RecordText::Insert { key, value },
        ),
{
    let s = insert_line(key, value);
    let k1: int = 7 + key.len() as int;
    let v0: int = k1 + 1;
    let v1: int = v0 + value.len() as int;
    lemma_insert_line(key, value);
    lemma_two_fields(s, insert_word(), key);
    assert forall|j: int| v0 <= j < v1 implies !is_space(#[trigger] s[j]) by {
        assert(s[j] == s.subrange(v0, v1)[j - v0]);
    }
    lemma_field_at(s, k1, v0, v1);
    let f = fields(s);
    assert(f =~= seq![insert_word(), key] + (seq![value] + fields_from(s, v1)));
    assert(f[0] == insert_word());
    assert(f[1] == key);
    assert(f[2] == value);
}

/// Whether the byte is white space.
fn is_space_byte(b: u8) -> (r: bool)
    ensures
        r == is_space(b),
{
    b == 32 || (9 <= b && b <= 13)
}

/// The bounds of the first field of `line` from `from` on, if there is one.
fn next_field(line: &[u8], from: usize) -> (r: Option<(usize, usize)>)
    requires
        from <= line@.len(),
    ensures
        match r {
            Some((start, end)) => from <= start < end <= line@.len() && fields_from(
                line@,
                from as int,
            ) == seq![line@.subrange(start as int, end as int)] + fields_from(line@, end as int),
            None => fields_from(line@, from as int).len() == 0,
        },
{
    let n = line.len();
    let mut start = from;
    while start < n && is_space_byte(line[start])
        invariant
            n == line@.len(),
            from <= start <= n,
            forall|j: int| from <= j < start ==> is_space(#[trigger] line@[j]),
        decreases n - start,
    {
        start += 1;
    }
    proof {
        lemma_skip_spaces_to(line@, from as int, start as int);
    }
    let mut end = start;
    while end < n && !is_space_byte(line[end])
        invariant
            n == line@.len(),
            start <= end <= n,
            forall|j: int| start <= j < end ==> !is_space(#[trigger] line@[j]),
        decreases n - end,
    {
        end += 1;
    }
    proof {
        lemma_skip_word_to(line@, start as int, end as int);
    }
    if start < end {
        Some((start, end))
    } else {
        None
    }
}

/// A copy of the bytes of `line` from `start` up to `end`.
fn copy_field(line: &[u8], start: usize, end: usize) -> (field: Vec<u8>)
    requires
        start <= end <= line@.len(),
    ensures
        field@ == line@.subrange(start as int, end as int),
{
    let mut field: Vec<u8> = Vec::new();
    let mut i = start;
    while i < end
        invariant
            start <= i <= end <= line@.len(),
            field@ == line@.subrange(start as int, i as int),
        decreases end - i,
    {
        field.push(line[i]);
        i += 1;
        assert(field@ =~= line@.subrange(start as int, i as int));
    }
    field
}

/// Whether the bytes of `line` from `start` up to `end` are the six of `word`.
fn is_word(line: &[u8], start: usize, end: usize, word: &[u8; 6]) -> (same: bool)
    requires
        start <= end <= line@.len(),
    ensures
        same == (line@.subrange(start as int, end as int) == word@),
{
    if end - start != 6 {
        assert(line@.subrange(start as int, end as int).len() != word@.len());
        return false;
    }
    let mut i: usize = 0;
    while i < 6
        invariant
            i <= 6,
            start + 6 == end <= line@.len(),
            forall|j: int| 0 <= j < i ==> line@[start + j] == #[trigger] word@[j],
        decreases 6 - i,
    {
        if line[start + i] != word[i] {
            proof {
                assert(line@.subrange(start as int, end as int)[i as int] != word@[i as int]);
            }
            return false;
        }
        i += 1;
    }
    assert(line@.subrange(start as int, end as int) =~= word@);
    true
}

/// Reads one line of the log. The first field says which record it is; an
/// insertion takes the next two fields, a deletion the next one. A line
/// that opens with neither word, or lacks a field, is corrupt.
pub fn parse_record(line: &[u8]) -> (r: Result<Record, LogError>)
    ensures
        match r {
            Ok(record) => parsed(line@) == Ok::<RecordText, LogError>(record@),
            Err(e) => e == LogError::LogCorrupt && parsed(line@) is Err,
        },
{
    let insert: [u8; 6] = [73, 78, 83, 69, 82, 84];
    let delete: [u8; 6] = [68, 69, 76, 69, 84, 69];
    assert(insert@ =~= insert_word());
    assert(delete@ =~= delete_word());
    let first = match next_field(line, 0) {
        Some(bounds) => bounds,
        None => {
            return Err(LogError::LogCorrupt);
        },
    };
    if is_word(line, first.0, first.1, &insert) {
        let second = match next_field(line, first.1) {
            Some(bounds) => bounds,
            None => {
                return Err(LogError::LogCorrupt);
            },
        };
        let third = match next_field(line, second.1) {
            Some(bounds) => bounds,
            None => {
                return Err(LogError::LogCorrupt);
            },
        };
        let key = copy_field(line, second.0, second.1);
        let value = copy_field(line, third.0, third.1);
        Ok(Record::Insert { key, value })
    } else if is_word(line, first.0, first.1, &delete) {
        let second = match next_field(line, first.1) {
            Some(bounds) => bounds,
            None => {
                return Err(LogError::LogCorrupt);
            },
        };
        let key = copy_field(line, second.0, second.1);
        Ok(Record::Delete { key })
    } else {
        Err(LogError::LogCorrupt)
    }
}

/// Appends the bytes of `bytes` to `out`.
fn append_bytes(out: &mut Vec<u8>, bytes: &[u8])
    ensures
        final(out)@ == old(out)@ + bytes@,
{
    let ghost start = out@;
    let mut i: usize = 0;
    while i < bytes.len()
        invariant
            i <= bytes@.len(),
            out@ == start + bytes@.subrange(0, i as int),
        decreases bytes@.len() - i,
    {
        out.push(bytes[i]);
        i += 1;
        assert(out@ =~= start + bytes@.subrange(0, i as int));
    }
    assert(out@ =~= start + bytes@);
}

/// The line that records the insertion of `key` with `value`, both given as
/// text.
pub fn encode_insert(key: &[u8], value: &[u8]) -> (line: Vec<u8>)
    ensures
        line@ == insert_line(key@, value@),
{
    let word: [u8; 6] = [73, 78, 83, 69, 82, 84];
    let mut line: Vec<u8> = Vec::new();
    append_bytes(&mut line, &word);
    line.push(32);
    append_bytes(&mut line, key);
    line.push(32);
    append_bytes(&mut line, value);
    line.push(10);
    assert(word@ =~= insert_word());
    assert(line@ =~= insert_line(key@, value@));
    line
}

/// The line that records the deletion of `key`, given as text.
pub fn encode_delete(key: &[u8]) -> (line: Vec<u8>)
    ensures
        line@ == delete_line(key@),
{
    let word: [u8; 6] = [68, 69, 76, 69, 84, 69];
    let mut line: Vec<u8> = Vec::new();
    append_bytes(&mut line, &word);
    line.push(32);
    append_bytes(&mut line, key);
    line.push(10);
    assert(word@ =~= delete_word());
    assert(line@ =~= delete_line(key@));
    line
}

} // verus!
