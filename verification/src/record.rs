//! The commands of the log and the text that stands for them.
//!
//! A record is the text of one command. Records follow each other in the
//! log with nothing between them: a record ends where its closing braces
//! end. The two strings of a command are JSON string literals; the frame
//! around them is fixed.

use vstd::prelude::*;
use vstd::slice::slice_subrange;
use crate::error::KvsError;
use crate::json::{
    agree, json_form, json_read, lemma_read_ends_inside, lemma_read_is_local, lemma_written_is_read,
    read_string,
    write_string,
};

verus! {

/// A command, as the log holds it.
#[derive(Debug, Clone, PartialEq, Eq)]
pub enum LogCommand {
    /// The key has the value from now on; written `Set` in the log.
    Put {
        /// The key.
        key: String,
        /// Its new value.
        value: String,
    },
    /// The key has no value from now on; written `Rm` in the log.
    Rm {
        /// The key.
        key: String,
    },
}

/// What a command says, over sequences of characters.
pub enum Record {
    Put { key: Seq<char>, value: Seq<char> },
    Rm { key: Seq<char> },
}

impl Record {
    /// The key that the command is about.
    pub open spec fn key(self) -> Seq<char> {
        match self {
            Record::Put { key, .. } => key,
            Record::Rm { key } => key,
        }
    }
}

impl View for LogCommand {
    type V = Record;

    open spec fn view(&self) -> Record {
        match self {
            LogCommand::Put { key, value } => Record::Put { key: key@, value: value@ },
            LogCommand::Rm { key } => Record::Rm { key: key@ },
        }
    }
}

/// `{"Set":{"key":`
#[verifier::opaque]
pub open spec fn set_head() -> Seq<u8> {
    seq![123u8, 34u8, 83u8, 101u8, 116u8, 34u8, 58u8, 123u8, 34u8, 107u8, 101u8, 121u8, 34u8, 58u8]
}

/// `,"value":`
#[verifier::opaque]
pub open spec fn value_mark() -> Seq<u8> {
    seq![44u8, 34u8, 118u8, 97u8, 108u8, 117u8, 101u8, 34u8, 58u8]
}

/// `{"Rm":{"key":`
#[verifier::opaque]
pub open spec fn rm_head() -> Seq<u8> {
    seq![123u8, 34u8, 82u8, 109u8, 34u8, 58u8, 123u8, 34u8, 107u8, 101u8, 121u8, 34u8, 58u8]
}

/// `}}`
#[verifier::opaque]
pub open spec fn record_end() -> Seq<u8> {
    seq![125u8, 125u8]
}

/// The `Set` record around the texts of a key and of a value.
pub open spec fn set_text(k: Seq<u8>, v: Seq<u8>) -> Seq<u8> {
    set_head() + (k + (value_mark() + (v + record_end())))
}

/// The `Rm` record around the text of a key.
pub open spec fn rm_text(k: Seq<u8>) -> Seq<u8> {
    rm_head() + (k + record_end())
}

/// The text of a command, where both of its strings can be written.
pub open spec fn text_of(rec: Record) -> Option<Seq<u8>> {
    match rec {
        Record::Put { key, value } => match (json_form(key), json_form(value)) {
            (Some(k), Some(v)) => Some(set_text(k, v)),
            _ => None,
        },
        Record::Rm { key } => match json_form(key) {
            Some(k) => Some(rm_text(k)),
            None => None,
        },
    }
}

/// The `Set` record at the start of `bytes`, which begin with its head.
pub open spec fn read_set(bytes: Seq<u8>) -> Option<(Record, int)> {
    let key_at = set_head().len() as int;
    match json_read(bytes.skip(key_at)) {
        None => None,
        Some((key, key_len)) => {
            let mark_at = key_at + key_len;
            let value_at = mark_at + value_mark().len();
            if !value_mark().is_prefix_of(bytes.skip(mark_at)) {
                None
            } else {
                match json_read(bytes.skip(value_at)) {
                    None => None,
                    Some((value, value_len)) => {
                        let end_at = value_at + value_len;
                        if record_end().is_prefix_of(bytes.skip(end_at)) {
                            Some((Record::Put { key, value }, end_at + record_end().len()))
                        } else {
                            None
                        }
                    },
                }
            }
        },
    }
}

/// The `Rm` record at the start of `bytes`, which begin with its head.
pub open spec fn read_rm(bytes: Seq<u8>) -> Option<(Record, int)> {
    let key_at = rm_head().len() as int;
    match json_read(bytes.skip(key_at)) {
        None => None,
        Some((key, key_len)) => {
            let end_at = key_at + key_len;
            if record_end().is_prefix_of(bytes.skip(end_at)) {
                Some((Record::Rm { key }, end_at + record_end().len()))
            } else {
                None
            }
        },
    }
}

/// The record at the start of `bytes` and the offset at which it ends, or
/// `None` where the bytes do not start with a record.
#[verifier::opaque]
pub open spec fn read_record(bytes: Seq<u8>) -> Option<(Record, int)> {
    if set_head().is_prefix_of(bytes) {
        read_set(bytes)
    } else if rm_head().is_prefix_of(bytes) {
        read_rm(bytes)
    } else {
        None
    }
}

/// Byte strings that agree at their start agree behind an offset.
proof fn lemma_agree_skip(a: Seq<u8>, b: Seq<u8>, n: int, at: int, m: int)
    requires
        agree(a, b, n),
        0 <= at,
        0 <= m,
        at + m <= n,
    ensures
        agree(a.skip(at), b.skip(at), m),
{
    assert forall|i: int| 0 <= i < m implies a.skip(at)[i] == b.skip(at)[i] by {
        assert(a[at + i] == b[at + i]);
    }
}

/// What stands at an offset of a byte string stands there in every byte
/// string that agrees with it so far.
proof fn lemma_prefix_carries(a: Seq<u8>, b: Seq<u8>, n: int, at: int, pat: Seq<u8>)
    requires
        agree(a, b, n),
        0 <= at <= a.len(),
        pat.is_prefix_of(a.skip(at)),
        at + pat.len() <= n,
    ensures
        pat.is_prefix_of(b.skip(at)),
{
    let m = pat.len() as int;
    assert forall|i: int| 0 <= i < m implies pat[i] == b.skip(at).subrange(0, m)[i] by {
        assert(pat[i] == a.skip(at).subrange(0, m)[i]);
        assert(a[at + i] == b[at + i]);
    }
    assert(pat =~= b.skip(at).subrange(0, m));
}

/// Where two pieces stand at an offset one behind the other, the first
/// stands there and the second behind it.
proof fn lemma_front(bytes: Seq<u8>, at: int, front: Seq<u8>, rest: Seq<u8>)
    requires
        0 <= at <= bytes.len(),
        (front + rest).is_prefix_of(bytes.skip(at)),
    ensures
        front.is_prefix_of(bytes.skip(at)),
        at + front.len() <= bytes.len(),
        rest.is_prefix_of(bytes.skip(at + front.len())),
{
    let whole = front + rest;
    let tail = bytes.skip(at);
    let f = front.len() as int;
    assert forall|i: int| 0 <= i < f implies front[i] == tail.subrange(0, f)[i] by {
        assert(whole[i] == tail.subrange(0, whole.len() as int)[i]);
    }
    assert(front =~= tail.subrange(0, f));
    let next = bytes.skip(at + f);
    let m = rest.len() as int;
    assert forall|i: int| 0 <= i < m implies rest[i] == next.subrange(0, m)[i] by {
        assert(whole[f + i] == tail.subrange(0, whole.len() as int)[f + i]);
    }
    assert(rest =~= next.subrange(0, m));
}

/// A record that is read ends inside the bytes it was read from, and is
/// not empty.
pub proof fn lemma_record_ends_inside(bytes: Seq<u8>)
    requires
        read_record(bytes) is Some,
    ensures
        0 < read_record(bytes).unwrap().1 <= bytes.len(),
{
    reveal(read_record);
    reveal(record_end);
    if set_head().is_prefix_of(bytes) {
        let key_at = set_head().len() as int;
        lemma_read_ends_inside(bytes.skip(key_at));
        let mark_at = key_at + json_read(bytes.skip(key_at)).unwrap().1;
        let value_at = mark_at + value_mark().len();
        lemma_read_ends_inside(bytes.skip(value_at));
    } else {
        lemma_read_ends_inside(bytes.skip(rm_head().len() as int));
    }
}

/// The record at the start of a byte string depends on nothing behind
/// that record.
pub proof fn lemma_record_is_local(a: Seq<u8>, b: Seq<u8>, rec: Record, end: int)
    requires
        read_record(a) == Some((rec, end)),
        agree(a, b, end),
    ensures
        read_record(b) == Some((rec, end)),
{
    reveal(read_record);
    lemma_record_ends_inside(a);
    if set_head().is_prefix_of(a) {
        let key_at = set_head().len() as int;
        let (key, key_len) = json_read(a.skip(key_at)).unwrap();
        let mark_at = key_at + key_len;
        let value_at = mark_at + value_mark().len();
        let (value, value_len) = json_read(a.skip(value_at)).unwrap();
        let end_at = value_at + value_len;
        lemma_read_ends_inside(a.skip(key_at));
        lemma_read_ends_inside(a.skip(value_at));
        lemma_prefix_carries(a, b, end, 0, set_head());
        assert(a.skip(0) =~= a);
        assert(b.skip(0) =~= b);
        lemma_agree_skip(a, b, end, key_at, key_len);
        lemma_read_is_local(a.skip(key_at), b.skip(key_at), key, key_len);
        lemma_prefix_carries(a, b, end, mark_at, value_mark());
        lemma_agree_skip(a, b, end, value_at, value_len);
        lemma_read_is_local(a.skip(value_at), b.skip(value_at), value, value_len);
        lemma_prefix_carries(a, b, end, end_at, record_end());
    } else {
        let key_at = rm_head().len() as int;
        let (key, key_len) = json_read(a.skip(key_at)).unwrap();
        let end_at = key_at + key_len;
        lemma_read_ends_inside(a.skip(key_at));
        lemma_prefix_carries(a, b, end, 0, rm_head());
        assert(a.skip(0) =~= a);
        assert(b.skip(0) =~= b);
        lemma_heads_differ(b);
        lemma_agree_skip(a, b, end, key_at, key_len);
        lemma_read_is_local(a.skip(key_at), b.skip(key_at), key, key_len);
        lemma_prefix_carries(a, b, end, end_at, record_end());
    }
}

/// The text of a `Set` record is read back as that record.
proof fn lemma_written_set_is_read(key: Seq<char>, value: Seq<char>, bytes: Seq<u8>)
    requires
        json_form(key) is Some,
        json_form(value) is Some,
        set_text(json_form(key).unwrap(), json_form(value).unwrap()).is_prefix_of(bytes),
    ensures
        set_head().is_prefix_of(bytes),
        read_set(bytes) == Some(
            (
                Record::Put { key, value },
                set_text(json_form(key).unwrap(), json_form(value).unwrap()).len() as int,
            ),
        ),
{
    let k = json_form(key).unwrap();
    let v = json_form(value).unwrap();
    let key_at = set_head().len() as int;
    let mark_at = key_at + k.len();
    let value_at = mark_at + value_mark().len();
    let end_at = value_at + v.len();
    assert(bytes.skip(0) =~= bytes);
    lemma_front(bytes, 0, set_head(), k + (value_mark() + (v + record_end())));
    lemma_front(bytes, key_at, k, value_mark() + (v + record_end()));
    lemma_written_is_read(key, k, bytes.skip(key_at));
    lemma_front(bytes, mark_at, value_mark(), v + record_end());
    lemma_front(bytes, value_at, v, record_end());
    lemma_written_is_read(value, v, bytes.skip(value_at));
}

/// The text of an `Rm` record is read back as that record.
proof fn lemma_written_rm_is_read(key: Seq<char>, bytes: Seq<u8>)
    requires
        json_form(key) is Some,
        rm_text(json_form(key).unwrap()).is_prefix_of(bytes),
    ensures
        rm_head().is_prefix_of(bytes),
        read_rm(bytes) == Some(
            (Record::Rm { key }, rm_text(json_form(key).unwrap()).len() as int),
        ),
{
    let k = json_form(key).unwrap();
    let key_at = rm_head().len() as int;
    assert(bytes.skip(0) =~= bytes);
    lemma_front(bytes, 0, rm_head(), k + record_end());
    lemma_front(bytes, key_at, k, record_end());
    lemma_written_is_read(key, k, bytes.skip(key_at));
}

/// No bytes start with the heads of both kinds of record.
proof fn lemma_heads_differ(bytes: Seq<u8>)
    ensures
        !(set_head().is_prefix_of(bytes) && rm_head().is_prefix_of(bytes)),
{
    reveal(set_head);
    reveal(rm_head);
    if set_head().is_prefix_of(bytes) && rm_head().is_prefix_of(bytes) {
        assert(bytes.subrange(0, set_head().len() as int)[2] == 83u8);
        assert(bytes.subrange(0, rm_head().len() as int)[2] == 82u8);
    }
}

/// The text of a command is read back as that command, wherever it is
/// followed by other bytes.
pub proof fn lemma_written_record_is_read(rec: Record, text: Seq<u8>, bytes: Seq<u8>)
    requires
        text_of(rec) == Some(text),
        text.is_prefix_of(bytes),
    ensures
        read_record(bytes) == Some((rec, text.len() as int)),
{
    reveal(read_record);
    match rec {
        Record::Put { key, value } => {
            lemma_written_set_is_read(key, value, bytes);
        },
        Record::Rm { key } => {
            lemma_written_rm_is_read(key, bytes);
            lemma_heads_differ(bytes);
        },
    }
}

/// The bytes of `set_head`.
fn set_head_bytes() -> (r: [u8; 14])
    ensures
        r@ == set_head(),
{
    let r: [u8; 14] = [
        123u8, 34u8, 83u8, 101u8, 116u8, 34u8, 58u8, 123u8, 34u8, 107u8, 101u8, 121u8, 34u8, 58u8,
    ];
    reveal(set_head);
    assert(r@ =~= set_head());
    r
}

/// The bytes of `value_mark`.
fn value_mark_bytes() -> (r: [u8; 9])
    ensures
        r@ == value_mark(),
{
    let r: [u8; 9] = [44u8, 34u8, 118u8, 97u8, 108u8, 117u8, 101u8, 34u8, 58u8];
    reveal(value_mark);
    assert(r@ =~= value_mark());
    r
}

/// The bytes of `rm_head`.
fn rm_head_bytes() -> (r: [u8; 13])
    ensures
        r@ == rm_head(),
{
    let r: [u8; 13] = [
        123u8, 34u8, 82u8, 109u8, 34u8, 58u8, 123u8, 34u8, 107u8, 101u8, 121u8, 34u8, 58u8,
    ];
    reveal(rm_head);
    assert(r@ =~= rm_head());
    r
}

/// The bytes of `record_end`.
fn record_end_bytes() -> (r: [u8; 2])
    ensures
        r@ == record_end(),
{
    let r: [u8; 2] = [125u8, 125u8];
    reveal(record_end);
    assert(r@ =~= record_end());
    r
}

/// Frames the texts of a key and of a value as a `Set` record.
pub fn frame_set(key_text: &[u8], value_text: &[u8]) -> (out: Vec<u8>)
    ensures
        out@ == set_text(key_text@, value_text@),
{
    let mut out: Vec<u8> = Vec::new();
    let head = set_head_bytes();
    let mark = value_mark_bytes();
    let end = record_end_bytes();
    out.extend_from_slice(head.as_slice());
    out.extend_from_slice(key_text);
    out.extend_from_slice(mark.as_slice());
    out.extend_from_slice(value_text);
    out.extend_from_slice(end.as_slice());
    assert(out@ =~= set_text(key_text@, value_text@));
    out
}

/// Frames the text of a key as an `Rm` record.
pub fn frame_rm(key_text: &[u8]) -> (out: Vec<u8>)
    ensures
        out@ == rm_text(key_text@),
{
    let mut out: Vec<u8> = Vec::new();
    let head = rm_head_bytes();
    let end = record_end_bytes();
    out.extend_from_slice(head.as_slice());
    out.extend_from_slice(key_text);
    out.extend_from_slice(end.as_slice());
    assert(out@ =~= rm_text(key_text@));
    out
}

/// Writes a command as a record.
pub fn encode(cmd: &LogCommand) -> (r: Result<Vec<u8>, KvsError>)
    ensures
        match r {
            Ok(text) => text_of(cmd@) == Some(text@),
            Err(e) => e is ParseError && text_of(cmd@) is None,
        },
{
    match cmd {
        LogCommand::Put { key, value } => {
            let k = match write_string(key.as_str()) {
                Ok(k) => k,
                Err(e) => {
                    return Err(e);
                },
            };
            let v = match write_string(value.as_str()) {
                Ok(v) => v,
                Err(e) => {
                    return Err(e);
                },
            };
            Ok(frame_set(k.as_slice(), v.as_slice()))
        },
        LogCommand::Rm { key } => {
            let k = match write_string(key.as_str()) {
                Ok(k) => k,
                Err(e) => {
                    return Err(e);
                },
            };
            Ok(frame_rm(k.as_slice()))
        },
    }
}

/// Whether `pat` stands in `bytes` at offset `at`.
fn starts_with(bytes: &[u8], at: usize, pat: &[u8]) -> (r: bool)
    requires
        at <= bytes@.len(),
    ensures
        r == pat@.is_prefix_of(bytes@.skip(at as int)),
{
    if pat.len() > bytes.len() - at {
        return false;
    }
    let ghost rest = bytes@.skip(at as int);
    let mut i: usize = 0;
    while i < pat.len()
        invariant
            at + pat@.len() <= bytes@.len() <= usize::MAX,
            i <= pat@.len(),
            rest == bytes@.skip(at as int),
            forall|j: int| 0 <= j < i ==> pat@[j] == bytes@[at + j],
        decreases pat@.len() - i,
    {
        if pat[i] != bytes[at + i] {
            proof {
                assert(rest.subrange(0, pat@.len() as int)[i as int] == bytes@[at + i]);
            }
            return false;
        }
        i += 1;
    }
    proof {
        assert(pat@ =~= rest.subrange(0, pat@.len() as int));
    }
    true
}

/// Reads the record at the start of `bytes`, and says where it ends. The
/// frame must stand byte for byte; before a string, white space is passed
/// over as in any JSON text.
pub fn decode(bytes: &[u8]) -> (r: Result<(LogCommand, usize), KvsError>)
    ensures
        match r {
            Ok((cmd, end)) => read_record(bytes@) == Some((cmd@, end as int)),
            Err(e) => e is ParseError && read_record(bytes@) is None,
        },
{
    reveal(read_record);
    let len = bytes.len();
    let set_head = set_head_bytes();
    let rm_head = rm_head_bytes();
    let mark = value_mark_bytes();
    let end = record_end_bytes();
    proof {
        assert(bytes@.skip(0) =~= bytes@);
    }
    if starts_with(bytes, 0, set_head.as_slice()) {
        let key_at: usize = 14;
        let (key, key_len) = match read_string(slice_subrange(bytes, key_at, len)) {
            Ok(found) => found,
            Err(e) => {
                return Err(e);
            },
        };
        proof {
            lemma_read_ends_inside(bytes@.skip(key_at as int));
        }
        let mark_at = key_at + key_len;
        if !starts_with(bytes, mark_at, mark.as_slice()) {
            return Err(KvsError::ParseError);
        }
        let value_at = mark_at + 9;
        let (value, value_len) = match read_string(slice_subrange(bytes, value_at, len)) {
            Ok(found) => found,
            Err(e) => {
                return Err(e);
            },
        };
        proof {
            lemma_read_ends_inside(bytes@.skip(value_at as int));
        }
        let end_at = value_at + value_len;
        if !starts_with(bytes, end_at, end.as_slice()) {
            return Err(KvsError::ParseError);
        }
        Ok((LogCommand::Put { key, value }, end_at + 2))
    } else if starts_with(bytes, 0, rm_head.as_slice()) {
        let key_at: usize = 13;
        let (key, key_len) = match read_string(slice_subrange(bytes, key_at, len)) {
            Ok(found) => found,
            Err(e) => {
                return Err(e);
            },
        };
        proof {
            lemma_read_ends_inside(bytes@.skip(key_at as int));
        }
        let end_at = key_at + key_len;
        if !starts_with(bytes, end_at, end.as_slice()) {
            return Err(KvsError::ParseError);
        }
        Ok((LogCommand::Rm { key }, end_at + 2))
    } else {
        Err(KvsError::ParseError)
    }
}

} // verus!
