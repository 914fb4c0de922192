//! Sequences of updates: what a store holds after them, and what opening
//! its log again gives.

use vstd::prelude::*;
use crate::model::{
    apply, apply_all, lemma_appended, lemma_compacted, Model, COMPACT_THRESHOLD,
};
use crate::record::{text_of, Record};

verus! {

/// The store after a sequence of updates none of which reports a failure.
pub open spec fn perform_all(m: Model, ops: Seq<Record>) -> Option<Model>
    decreases ops.len(),
{
    if ops.len() == 0 {
        Some(m)
    } else {
        match perform_all(m, ops.drop_last()) {
            Some(before) => before.updated(ops.last()),
            None => None,
        }
    }
}

/// An update that reports no failure keeps the store well formed, does to
/// the values what its command says, and leaves no more dead bytes than
/// the threshold.
pub proof fn lemma_updated(m: Model, op: Record)
    requires
        m.wf(),
        m.updated(op) is Some,
    ensures
        m.updated(op).unwrap().wf(),
        m.updated(op).unwrap().contents() == apply(m.contents(), op),
        m.updated(op).unwrap().garbage <= COMPACT_THRESHOLD,
{
    let text = text_of(op).unwrap();
    let written = m.appended(op, text);
    lemma_appended(m, op, text);
    if written.garbage > COMPACT_THRESHOLD {
        lemma_compacted(written);
    }
}

/// Updates that report no failure keep the store well formed and do to the
/// values what their commands say, in their order.
pub proof fn lemma_perform_all(m: Model, ops: Seq<Record>)
    requires
        m.wf(),
        perform_all(m, ops) is Some,
    ensures
        perform_all(m, ops).unwrap().wf(),
        perform_all(m, ops).unwrap().contents() == apply_all(m.contents(), ops),
    decreases ops.len(),
{
    if ops.len() > 0 {
        lemma_perform_all(m, ops.drop_last());
        lemma_updated(perform_all(m, ops.drop_last()).unwrap(), ops.last());
    }
}

/// The last command about a key decides: after a sequence of commands a
/// key has the value of the last `Set` for it, and no value where an `Rm`
/// for it came later.
pub proof fn lemma_last_command_decides(
    contents: Map<Seq<char>, Seq<char>>,
    ops: Seq<Record>,
    i: int,
)
    requires
        0 <= i < ops.len(),
        forall|j: int| i < j < ops.len() ==> (#[trigger] ops[j]).key() != ops[i].key(),
    ensures
        match ops[i] {
            Record::Put { key, value } => apply_all(contents, ops).contains_key(key) && apply_all(
                contents,
                ops,
            )[key] == value,
            Record::Rm { key } => !apply_all(contents, ops).contains_key(key),
        },
    decreases ops.len(),
{
    if i < ops.len() - 1 {
        let front = ops.drop_last();
        assert(ops.last().key() != ops[i].key());
        assert forall|j: int| i < j < front.len() implies (#[trigger] front[j]).key()
            != front[i].key() by {
            assert(front[j] == ops[j]);
        }
        lemma_last_command_decides(contents, front, i);
    }
}

/// A key that no command is about keeps what it had.
pub proof fn lemma_untouched_key(
    contents: Map<Seq<char>, Seq<char>>,
    ops: Seq<Record>,
    key: Seq<char>,
)
    requires
        forall|j: int| 0 <= j < ops.len() ==> (#[trigger] ops[j]).key() != key,
    ensures
        apply_all(contents, ops).contains_key(key) == contents.contains_key(key),
        contents.contains_key(key) ==> apply_all(contents, ops)[key] == contents[key],
    decreases ops.len(),
{
    if ops.len() > 0 {
        let front = ops.drop_last();
        assert(ops.last().key() != key);
        assert forall|j: int| 0 <= j < front.len() implies (#[trigger] front[j]).key() != key by {
            assert(front[j] == ops[j]);
        }
        lemma_untouched_key(contents, front, key);
    }
}

/// After a sequence of updates that report no failure, the store holds
/// for each key what the last update about that key says.
pub proof fn lemma_store_holds_last_update(m: Model, ops: Seq<Record>, i: int)
    requires
        m.wf(),
        perform_all(m, ops) is Some,
        0 <= i < ops.len(),
        forall|j: int| i < j < ops.len() ==> (#[trigger] ops[j]).key() != ops[i].key(),
    ensures
        match ops[i] {
            Record::Put { key, value } => perform_all(m, ops).unwrap().contents().contains_key(key)
                && perform_all(m, ops).unwrap().contents()[key] == value,
            Record::Rm { key } => !perform_all(m, ops).unwrap().contents().contains_key(key),
        },
{
    lemma_perform_all(m, ops);
    lemma_last_command_decides(m.contents(), ops, i);
}

/// After a sequence of updates that report no failure, opening the store's
/// log gives the same store: the same index, the same dead bytes and so
/// the same value for every key.
pub proof fn lemma_reopen_agrees(m: Model, ops: Seq<Record>)
    requires
        m.wf(),
        perform_all(m, ops) is Some,
    ensures
        Model::opened(perform_all(m, ops).unwrap().file_number, perform_all(m, ops).unwrap().log)
            == Some(perform_all(m, ops).unwrap()),
{
    lemma_perform_all(m, ops);
}

/// Setting a key to a value twice leaves every key with the value it has
/// after the first time.
pub proof fn lemma_set_twice(m: Model, key: Seq<char>, value: Seq<char>)
    requires
        m.wf(),
        m.updated(Record::Put { key, value }) is Some,
        m.updated(Record::Put { key, value }).unwrap().updated(Record::Put { key, value })
            is Some,
    ensures
        m.updated(Record::Put { key, value }).unwrap().updated(
            Record::Put { key, value },
        ).unwrap().contents() == m.updated(Record::Put { key, value }).unwrap().contents(),
{
    let op = Record::Put { key, value };
    let once = m.updated(op).unwrap();
    lemma_updated(m, op);
    lemma_updated(once, op);
    assert(apply(apply(m.contents(), op), op) =~= apply(m.contents(), op));
}

/// After a key was removed it has no value, so removing it again reports
/// that it was not found.
pub proof fn lemma_remove_twice(m: Model, key: Seq<char>)
    requires
        m.wf(),
        m.updated(Record::Rm { key }) is Some,
    ensures
        !m.updated(Record::Rm { key }).unwrap().contents().contains_key(key),
        m.updated(Record::Rm { key }).unwrap().updated(Record::Rm { key }) is None,
{
    lemma_updated(m, Record::Rm { key });
}

/// The log is compacted by an update exactly where the update leaves more
/// dead bytes than the threshold; the compacted log has no dead bytes and
/// the next file number.
pub proof fn lemma_compaction_trigger(m: Model)
    requires
        m.wf(),
        m.settled().1 is Ok,
    ensures
        m.garbage <= COMPACT_THRESHOLD ==> m.settled().0 == m,
        m.garbage > COMPACT_THRESHOLD ==> m.settled().0.file_number == m.file_number + 1
            && m.settled().0.garbage == 0 && m.settled().0.contents() == m.contents(),
{
    if m.garbage > COMPACT_THRESHOLD {
        lemma_compacted(m);
    }
}

} // verus!
