//! JSON string literals, written and read by `serde_json`.
//!
//! What `serde_json` writes for a string, and what it reads at the start of
//! some bytes, is not spelled out here: both are named, and the two
//! functions that call `serde_json` say of their results what the rest of
//! the library builds on. A literal is read up to its closing quote and no
//! further, so what is read does not depend on the bytes behind it, and a
//! literal that was written is read back as the string it was written for.

use vstd::prelude::*;
use crate::error::KvsError;

verus! {

/// The error type of `serde_json`, of which nothing is looked at.
#[verifier::external_type_specification]
#[verifier::external_body]
pub struct ExJsonError(serde_json::Error);

/// The bytes that `serde_json::to_string` writes for the string `s`, or
/// `None` where it reports an error.
pub uninterp spec fn json_text(s: Seq<char>) -> Option<Seq<u8>>;

/// The first item that a `serde_json` stream of strings yields on `bytes`,
/// with the offset at which the item ends, or `None` where the stream
/// yields an error or nothing.
pub uninterp spec fn json_parse(bytes: Seq<u8>) -> Option<(Seq<char>, int)>;

/// `text` is read as `s`, and as nothing longer, whatever follows it.
pub open spec fn reads_as(text: Seq<u8>, s: Seq<char>) -> bool {
    forall|bytes: Seq<u8>|
        text.is_prefix_of(bytes) ==> #[trigger] json_parse(bytes) == Some((s, text.len() as int))
}

/// Calls `serde_json::to_string` on a string slice, which writes a quote,
/// the characters of `s` with the quote, the backslash and the control
/// characters escaped, and a quote. The contract names the outcome, and
/// claims that what was written is read back as `s` by a stream of
/// strings, up to the closing quote and no further: the reader undoes the
/// escapes and stops behind the first quote that is not escaped.
#[verifier::external_body]
fn to_json(s: &str) -> (r: Result<Vec<u8>, serde_json::Error>)
    ensures
        match r {
            Ok(text) => json_text(s@) == Some(text@) && reads_as(text@, s@),
            Err(_) => json_text(s@) is None,
        },
{
    match serde_json::to_string(s) {
        Ok(text) => Ok(text.into_bytes()),
        Err(e) => Err(e),
    }
}

/// Makes a stream of strings on `bytes` with
/// `serde_json::Deserializer::from_slice` and `into_iter`, takes its first
/// item with `next` and the place where it ends with `byte_offset`. The
/// stream passes over white space and reads a string literal up to its
/// closing quote. The contract names the outcome, and claims that a string
/// that was read ends inside `bytes` and is read the same way whatever
/// follows that end: the stream looks at no byte behind the closing quote.
#[verifier::external_body]
fn from_json(bytes: &[u8]) -> (r: (Option<Result<String, serde_json::Error>>, usize))
    ensures
        match r.0 {
            Some(Ok(s)) => json_parse(bytes@) == Some((s@, r.1 as int)) && r.1 <= bytes@.len()
                && reads_as(bytes@.take(r.1 as int), s@),
            _ => json_parse(bytes@) is None,
        },
{
    let mut stream = serde_json::Deserializer::from_slice(bytes).into_iter::<String>();
    let item = stream.next();
    (item, stream.byte_offset())
}

/// The text that is written for `s`, taken only where it is read back as
/// `s` whatever follows it: `write_string` finds that of every text it
/// hands out.
#[verifier::opaque]
pub open spec fn json_form(s: Seq<char>) -> Option<Seq<u8>> {
    match json_text(s) {
        Some(text) => if reads_as(text, s) {
            Some(text)
        } else {
            None
        },
        None => None,
    }
}

/// The string that is read at the start of `bytes` and the offset at which
/// its text ends, taken only where the text ends inside `bytes` and is read
/// the same way whatever follows it: `read_string` finds that of every
/// string it hands out.
#[verifier::opaque]
pub open spec fn json_read(bytes: Seq<u8>) -> Option<(Seq<char>, int)> {
    match json_parse(bytes) {
        Some((s, end)) => if 0 <= end <= bytes.len() && reads_as(bytes.take(end), s) {
            Some((s, end))
        } else {
            None
        },
        None => None,
    }
}

/// Two byte strings hold the same `n` bytes at their start.
pub open spec fn agree(a: Seq<u8>, b: Seq<u8>, n: int) -> bool {
    &&& 0 <= n <= a.len()
    &&& n <= b.len()
    &&& forall|i: int| 0 <= i < n ==> a[i] == b[i]
}

/// What is read at the start of a byte string depends on nothing behind
/// the text that was read.
pub proof fn lemma_read_is_local(a: Seq<u8>, b: Seq<u8>, s: Seq<char>, end: int)
    requires
        json_read(a) == Some((s, end)),
        agree(a, b, end),
    ensures
        json_read(b) == Some((s, end)),
{
    reveal(json_read);
    assert(a.take(end) =~= b.take(end));
    assert(a.take(end).is_prefix_of(b));
}

/// A string that is read ends inside the bytes it was read from.
pub proof fn lemma_read_ends_inside(bytes: Seq<u8>)
    requires
        json_read(bytes) is Some,
    ensures
        0 <= json_read(bytes).unwrap().1 <= bytes.len(),
{
    reveal(json_read);
}

/// The text written for a string is read back as that string, wherever it
/// is followed by other bytes.
pub proof fn lemma_written_is_read(s: Seq<char>, text: Seq<u8>, bytes: Seq<u8>)
    requires
        json_form(s) == Some(text),
        text.is_prefix_of(bytes),
    ensures
        json_read(bytes) == Some((s, text.len() as int)),
{
    reveal(json_read);
    reveal(json_form);
    assert(bytes.take(text.len() as int) =~= text);
}

/// Writes `s` as a JSON string literal.
pub fn write_string(s: &str) -> (r: Result<Vec<u8>, KvsError>)
    ensures
        match r {
            Ok(text) => json_form(s@) == Some(text@),
            Err(e) => e is ParseError && json_form(s@) is None,
        },
{
    reveal(json_form);
    match to_json(s) {
        Ok(text) => Ok(text),
        Err(_) => Err(KvsError::ParseError),
    }
}

/// Reads the JSON string literal at the start of `bytes`, and says where
/// its text ends. White space before the literal is passed over and
/// counted.
pub fn read_string(bytes: &[u8]) -> (r: Result<(String, usize), KvsError>)
    ensures
        match r {
            Ok((s, end)) => json_read(bytes@) == Some((s@, end as int)),
            Err(e) => e is ParseError && json_read(bytes@) is None,
        },
{
    reveal(json_read);
    let (item, end) = from_json(bytes);
    match item {
        Some(Ok(s)) => Ok((s, end)),
        _ => Err(KvsError::ParseError),
    }
}

} // verus!
