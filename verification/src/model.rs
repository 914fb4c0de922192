//! The state of a store as mathematics: the bytes of the active log, the
//! entries of the index, the count of dead bytes and the number of the log
//! file; and what replaying a log, appending a record and rewriting the
//! log do to it.

use vstd::prelude::*;
use crate::index::{
    del, distinct, has_key, lemma_del, lemma_put, lemma_slot_of, lemma_total_covers,
    lemma_total_push, lemma_total_remove, lemma_total_update, lookup, moved, put, slot_of,
    total_size, LogPointer, Slot,
};
use crate::error::KvsError;
use crate::json::agree;
use crate::record::{
    lemma_record_ends_inside, lemma_record_is_local, lemma_written_record_is_read, read_record,
    text_of, Record,
};

verus! {

/// The number of dead bytes above which the log is compacted: 1 MiB.
pub const COMPACT_THRESHOLD: usize = 1024 * 1024;

/// The index and the dead bytes found so far while a log is replayed.
pub struct Scan {
    pub slots: Seq<Slot>,
    pub garbage: nat,
}

/// The pointer to `size` bytes at `offset`.
pub open spec fn pointer(offset: int, size: int) -> LogPointer {
    LogPointer { offset: offset as usize, size: size as usize }
}

/// The bytes that die when the key's record is superseded or removed.
pub open spec fn freed(slots: Seq<Slot>, key: Seq<char>) -> nat {
    match lookup(slots, key) {
        Some(ptr) => ptr.size as nat,
        None => 0,
    }
}

/// What one record of `size` bytes at `offset` does to the index and to
/// the dead bytes: a `Set` points its key at the record, an `Rm` takes its
/// key out, and either lets the record die that the key had before.
pub open spec fn step(scan: Scan, rec: Record, offset: int, size: int) -> Scan {
    Scan {
        slots: match rec {
            Record::Put { key, .. } => put(scan.slots, key, pointer(offset, size)),
            Record::Rm { key } => del(scan.slots, key),
        },
        garbage: scan.garbage + freed(scan.slots, rec.key()),
    }
}

/// Replays the records of `log` from offset `at` on, or gives `None` where
/// the bytes at the end of some record do not start another one.
pub open spec fn replay_from(log: Seq<u8>, at: int, scan: Scan) -> Option<Scan>
    decreases log.len() - at,
{
    if at >= log.len() {
        Some(scan)
    } else {
        match read_record(log.skip(at)) {
            Some((rec, size)) => if 0 < size <= log.len() - at {
                replay_from(log, at + size, step(scan, rec, at, size))
            } else {
                None
            },
            None => None,
        }
    }
}

/// Replays a whole log, starting with no entries and no dead bytes.
pub open spec fn replay(log: Seq<u8>) -> Option<Scan> {
    replay_from(log, 0, Scan { slots: Seq::empty(), garbage: 0 })
}

/// The records of `log` from offset `at` on, in their order, or `None`
/// where the bytes at the end of some record do not start another one.
pub open spec fn records_from(log: Seq<u8>, at: int) -> Option<Seq<Record>>
    decreases log.len() - at,
{
    if at >= log.len() {
        Some(Seq::empty())
    } else {
        match read_record(log.skip(at)) {
            Some((rec, size)) => if 0 < size <= log.len() - at {
                match records_from(log, at + size) {
                    Some(rest) => Some(seq![rec] + rest),
                    None => None,
                }
            } else {
                None
            },
            None => None,
        }
    }
}

/// The records of a whole log, in their order.
pub open spec fn records(log: Seq<u8>) -> Option<Seq<Record>> {
    records_from(log, 0)
}

/// The entry's bytes lie in the log and are one `Set` record for its key.
pub open spec fn points_at(log: Seq<u8>, slot: Slot) -> bool {
    let from = slot.ptr.offset as int;
    let to = from + slot.ptr.size;
    &&& to <= log.len()
    &&& match read_record(log.subrange(from, to)) {
        Some((Record::Put { key, value }, end)) => key == slot.key && end == slot.ptr.size,
        _ => false,
    }
}

/// The value of the record that the pointer points to.
pub open spec fn value_at(log: Seq<u8>, ptr: LogPointer) -> Seq<char> {
    match read_record(log.subrange(ptr.offset as int, ptr.offset + ptr.size)) {
        Some((Record::Put { key, value }, end)) => value,
        _ => Seq::empty(),
    }
}

/// The value of each key that has an entry: the value of the record that
/// the entry points to.
pub open spec fn contents_of(log: Seq<u8>, slots: Seq<Slot>) -> Map<Seq<char>, Seq<char>> {
    Map::new(
        |key: Seq<char>| has_key(slots, key),
        |key: Seq<char>| value_at(log, slots[slot_of(slots, key)].ptr),
    )
}

/// The values of the keys after a command took effect.
pub open spec fn apply(contents: Map<Seq<char>, Seq<char>>, op: Record) -> Map<
    Seq<char>,
    Seq<char>,
> {
    match op {
        Record::Put { key, value } => contents.insert(key, value),
        Record::Rm { key } => contents.remove(key),
    }
}

/// The values of the keys after the commands took effect, one after the
/// other.
pub open spec fn apply_all(contents: Map<Seq<char>, Seq<char>>, ops: Seq<Record>) -> Map<
    Seq<char>,
    Seq<char>,
>
    decreases ops.len(),
{
    if ops.len() == 0 {
        contents
    } else {
        apply(apply_all(contents, ops.drop_last()), ops.last())
    }
}

/// The entries and the dead bytes fit the first `upto` bytes of the log:
/// no key has two entries, each entry points to a `Set` record for its key
/// that lies in those bytes, and the live and the dead bytes together are
/// no more than those bytes.
pub open spec fn scan_ok(log: Seq<u8>, upto: int, scan: Scan) -> bool {
    &&& 0 <= upto <= log.len()
    &&& distinct(scan.slots)
    &&& forall|i: int|
        0 <= i < scan.slots.len() ==> points_at(log.take(upto), #[trigger] scan.slots[i])
    &&& scan.garbage + total_size(scan.slots) <= upto
}

/// The entries lie in the log one after the other, in their order, with
/// nothing before, between or behind them.
pub open spec fn tiled(slots: Seq<Slot>, log: Seq<u8>) -> bool {
    &&& forall|i: int|
        0 <= i < slots.len() ==> (#[trigger] slots[i]).ptr.offset == total_size(slots.take(i))
    &&& total_size(slots) == log.len()
}

/// The `Set` records that stand for the first `n` entries: each gives the
/// entry's key the value that the entry points to.
pub open spec fn live_records(log: Seq<u8>, slots: Seq<Slot>, n: nat) -> Seq<Record> {
    Seq::new(n, |i: int| Record::Put { key: slots[i].key, value: value_at(log, slots[i].ptr) })
}

/// The first `n` entries, each with the pointer given for it.
pub open spec fn first_moved(slots: Seq<Slot>, ptrs: Seq<LogPointer>, n: nat) -> Seq<Slot> {
    Seq::new(n, |i: int| Slot { key: slots[i].key, ptr: ptrs[i] })
}

/// The state of a store.
#[verifier::ext_equal]
pub struct Model {
    /// The bytes of the active log.
    pub log: Seq<u8>,
    /// The entries of the index, in their order.
    pub slots: Seq<Slot>,
    /// The bytes of the records that were superseded or removed.
    pub garbage: nat,
    /// The number in the name of the active log file.
    pub file_number: nat,
}

impl Model {
    /// The index and the dead bytes.
    pub open spec fn scan(self) -> Scan {
        Scan { slots: self.slots, garbage: self.garbage }
    }

    /// The index and the dead bytes are those that replaying the log
    /// gives, and they fit the log.
    pub open spec fn wf(self) -> bool {
        &&& self.log.len() <= usize::MAX
        &&& self.file_number <= usize::MAX
        &&& replay(self.log) == Some(self.scan())
        &&& scan_ok(self.log, self.log.len() as int, self.scan())
    }

    /// The value of each key that has one.
    pub open spec fn contents(self) -> Map<Seq<char>, Seq<char>> {
        contents_of(self.log, self.slots)
    }

    /// The store on an empty log.
    pub open spec fn fresh(file_number: nat) -> Model {
        Model { log: Seq::empty(), slots: Seq::empty(), garbage: 0, file_number }
    }

    /// The store that opening a log gives, where the log can be replayed.
    pub open spec fn opened(file_number: nat, log: Seq<u8>) -> Option<Model> {
        match replay(log) {
            Some(scan) => Some(
                Model { log, slots: scan.slots, garbage: scan.garbage, file_number },
            ),
            None => None,
        }
    }

    /// The store after the text of a command was appended to the log and
    /// the command was applied to the index.
    pub open spec fn appended(self, rec: Record, text: Seq<u8>) -> Model {
        let scan = step(self.scan(), rec, self.log.len() as int, text.len() as int);
        Model {
            log: self.log + text,
            slots: scan.slots,
            garbage: scan.garbage,
            file_number: self.file_number,
        }
    }

    /// The log that holds the records of the first `n` entries, each read
    /// from the log and written anew, with the new pointers; `None` where
    /// one of them cannot be read or written.
    pub open spec fn rewritten(self, n: nat) -> Option<(Seq<u8>, Seq<LogPointer>)>
        decreases n,
    {
        if n == 0 {
            Some((Seq::empty(), Seq::empty()))
        } else {
            match self.rewritten((n - 1) as nat) {
                None => None,
                Some((out, ptrs)) => {
                    let ptr = self.slots[n - 1].ptr;
                    match read_record(self.log.subrange(ptr.offset as int, ptr.offset + ptr.size)) {
                        None => None,
                        Some((rec, end)) => match text_of(rec) {
                            None => None,
                            Some(text) => Some(
                                (
                                    out + text,
                                    ptrs.push(pointer(out.len() as int, text.len() as int)),
                                ),
                            ),
                        },
                    }
                },
            }
        }
    }

    /// The store after compaction: the log holds the live records and
    /// nothing else, and the file number is the next one. Compaction fails
    /// with `CantOpen` where no next log file can be had, because the file
    /// numbers are used up or the new log is too long to hold, and with
    /// `ParseError` where a live record cannot be read or written anew.
    pub open spec fn compacted(self) -> Result<Model, KvsError> {
        if self.file_number >= usize::MAX {
            Err(KvsError::CantOpen)
        } else {
            match self.rewritten(self.slots.len()) {
                Some((out, ptrs)) => if out.len() <= usize::MAX {
                    Ok(
                        Model {
                            log: out,
                            slots: moved(self.slots, ptrs),
                            garbage: 0,
                            file_number: self.file_number + 1,
                        },
                    )
                } else {
                    Err(KvsError::CantOpen)
                },
                None => Err(KvsError::ParseError),
            }
        }
    }

    /// The store after an update that reports no failure, or `None` where
    /// the update reports one: the command has no text, the log cannot
    /// grow by that text, the key to remove has no value, or the compaction
    /// that the update sets off fails.
    pub open spec fn updated(self, op: Record) -> Option<Model> {
        match text_of(op) {
            None => None,
            Some(text) => {
                let (after, r) = self.appended(op, text).settled();
                if self.log.len() + text.len() > usize::MAX {
                    None
                } else if op is Rm && !self.contents().contains_key(op.key()) {
                    None
                } else if r is Ok {
                    Some(after)
                } else {
                    None
                }
            },
        }
    }

    /// What an update that left the store as `self` ends with: the log is
    /// compacted exactly where more than the threshold of its bytes are
    /// dead, and a compaction that fails leaves the store as it was.
    pub open spec fn settled(self) -> (Model, Result<(), KvsError>) {
        if self.garbage <= COMPACT_THRESHOLD {
            (self, Ok(()))
        } else {
            match self.compacted() {
                Ok(after) => (after, Ok(())),
                Err(e) => (self, Err(e)),
            }
        }
    }
}

/// The log of `after` is the log of `before` with more bytes at its end,
/// or it is a new log under the next file number.
pub open spec fn grown_or_replaced(before: Model, after: Model) -> bool {
    ||| after.file_number == before.file_number && before.log.is_prefix_of(after.log)
    ||| after.file_number == before.file_number + 1
}

/// An entry that points into a log points into every log that holds the
/// same bytes up to the entry's end.
pub proof fn lemma_points_at_carries(log: Seq<u8>, other: Seq<u8>, slot: Slot)
    requires
        points_at(log, slot),
        agree(log, other, slot.ptr.offset + slot.ptr.size),
    ensures
        points_at(other, slot),
        value_at(other, slot.ptr) == value_at(log, slot.ptr),
{
    let from = slot.ptr.offset as int;
    let to = from + slot.ptr.size;
    assert(log.subrange(from, to) =~= other.subrange(from, to));
}

/// One more record keeps the index and the dead bytes fitting the log.
pub proof fn lemma_step_ok(log: Seq<u8>, at: int, scan: Scan, rec: Record, size: int)
    requires
        log.len() <= usize::MAX,
        scan_ok(log, at, scan),
        read_record(log.skip(at)) == Some((rec, size)),
    ensures
        0 < size,
        at + size <= log.len(),
        scan_ok(log, at + size, step(scan, rec, at, size)),
{
    lemma_record_ends_inside(log.skip(at));
    let next = step(scan, rec, at, size);
    let ptr = pointer(at, size);
    let seen = log.take(at + size);
    assert forall|i: int| 0 <= i < scan.slots.len() implies points_at(
        seen,
        #[trigger] scan.slots[i],
    ) by {
        lemma_points_at_carries(log.take(at), seen, scan.slots[i]);
    }
    match rec {
        Record::Put { key, value } => {
            let slot = Slot { key, ptr };
            assert(points_at(seen, slot)) by {
                let range = seen.subrange(at, at + size);
                assert(agree(log.skip(at), range, size));
                lemma_record_is_local(log.skip(at), range, rec, size);
            }
            lemma_put(scan.slots, key, ptr);
            if has_key(scan.slots, key) {
                let j = slot_of(scan.slots, key);
                lemma_total_update(scan.slots, j, slot);
                lemma_total_covers(scan.slots, j);
            } else {
                lemma_total_push(scan.slots, slot);
            }
            assert forall|i: int| 0 <= i < next.slots.len() implies points_at(
                seen,
                #[trigger] next.slots[i],
            ) by {
                if next.slots[i] != slot {
                    assert(next.slots[i] == scan.slots[i]);
                }
            }
        },
        Record::Rm { key } => {
            lemma_del(scan.slots, key);
            if has_key(scan.slots, key) {
                let j = slot_of(scan.slots, key);
                lemma_total_remove(scan.slots, j);
                lemma_total_covers(scan.slots, j);
                assert forall|i: int| 0 <= i < next.slots.len() implies points_at(
                    seen,
                    #[trigger] next.slots[i],
                ) by {
                    if i < j {
                        assert(next.slots[i] == scan.slots[i]);
                    } else {
                        assert(next.slots[i] == scan.slots[i + 1]);
                    }
                }
            }
        },
    }
}

/// Replaying a log gives an index and dead bytes that fit the log.
pub proof fn lemma_replay_ok(log: Seq<u8>, at: int, scan: Scan)
    requires
        log.len() <= usize::MAX,
        scan_ok(log, at, scan),
        replay_from(log, at, scan) is Some,
    ensures
        scan_ok(log, log.len() as int, replay_from(log, at, scan).unwrap()),
    decreases log.len() - at,
{
    if at < log.len() {
        let (rec, size) = read_record(log.skip(at)).unwrap();
        lemma_step_ok(log, at, scan, rec, size);
        lemma_replay_ok(log, at + size, step(scan, rec, at, size));
    } else {
        assert(log.take(at) =~= log.take(log.len() as int));
    }
}

/// Replaying a log with one more record behind it gives what replaying
/// the log gives, and then that record.
pub proof fn lemma_replay_append(
    log: Seq<u8>,
    at: int,
    scan: Scan,
    rec: Record,
    text: Seq<u8>,
)
    requires
        0 <= at <= log.len(),
        replay_from(log, at, scan) is Some,
        read_record(text) == Some((rec, text.len() as int)),
    ensures
        replay_from(log + text, at, scan) == Some(
            step(
                replay_from(log, at, scan).unwrap(),
                rec,
                log.len() as int,
                text.len() as int,
            ),
        ),
    decreases log.len() - at,
{
    let longer = log + text;
    lemma_record_ends_inside(text);
    if at == log.len() {
        assert(longer.skip(at) =~= text);
        let next = step(scan, rec, at, text.len() as int);
        assert(replay_from(longer, at + text.len(), next) == Some(next));
    } else {
        let (first, size) = read_record(log.skip(at)).unwrap();
        lemma_record_ends_inside(log.skip(at));
        assert(agree(log.skip(at), longer.skip(at), size));
        lemma_record_is_local(log.skip(at), longer.skip(at), first, size);
        lemma_replay_append(log, at + size, step(scan, first, at, size), rec, text);
    }
}

/// The records of a log with one more record behind it are those of the
/// log, and then that record.
pub proof fn lemma_records_append(log: Seq<u8>, at: int, rec: Record, text: Seq<u8>)
    requires
        0 <= at <= log.len(),
        records_from(log, at) is Some,
        read_record(text) == Some((rec, text.len() as int)),
    ensures
        records_from(log + text, at) == Some(records_from(log, at).unwrap().push(rec)),
    decreases log.len() - at,
{
    let longer = log + text;
    lemma_record_ends_inside(text);
    if at == log.len() {
        assert(longer.skip(at) =~= text);
        assert(records_from(longer, at + text.len()) == Some(Seq::<Record>::empty()));
        assert(seq![rec] + Seq::<Record>::empty() =~= Seq::<Record>::empty().push(rec));
    } else {
        let (first, size) = read_record(log.skip(at)).unwrap();
        lemma_record_ends_inside(log.skip(at));
        assert(agree(log.skip(at), longer.skip(at), size));
        lemma_record_is_local(log.skip(at), longer.skip(at), first, size);
        lemma_records_append(log, at + size, rec, text);
        let rest = records_from(log, at + size).unwrap();
        assert(seq![first] + rest.push(rec) =~= (seq![first] + rest).push(rec));
    }
}

/// The store on an empty log is well formed and holds no key, and it is
/// what opening an empty log gives.
pub proof fn lemma_fresh(file_number: nat)
    requires
        file_number <= usize::MAX,
    ensures
        Model::fresh(file_number).wf(),
        Model::fresh(file_number).contents() == Map::<Seq<char>, Seq<char>>::empty(),
        Model::opened(file_number, Seq::empty()) == Some(Model::fresh(file_number)),
{
    let m = Model::fresh(file_number);
    assert(m.contents() =~= Map::<Seq<char>, Seq<char>>::empty());
}

/// What opening a log gives is well formed.
pub proof fn lemma_opened(file_number: nat, log: Seq<u8>)
    requires
        file_number <= usize::MAX,
        log.len() <= usize::MAX,
        Model::opened(file_number, log) is Some,
    ensures
        Model::opened(file_number, log).unwrap().wf(),
{
    let start = Scan { slots: Seq::empty(), garbage: 0 };
    assert(scan_ok(log, 0, start));
    lemma_replay_ok(log, 0, start);
}

/// A well-formed store is what opening its own log gives.
pub proof fn lemma_reopened(m: Model)
    requires
        m.wf(),
    ensures
        Model::opened(m.file_number, m.log) == Some(m),
{
}

/// One more record does to the values what its command says.
pub proof fn lemma_step_contents(log: Seq<u8>, at: int, scan: Scan, rec: Record, size: int)
    requires
        log.len() <= usize::MAX,
        scan_ok(log, at, scan),
        read_record(log.skip(at)) == Some((rec, size)),
    ensures
        contents_of(log, step(scan, rec, at, size).slots) == apply(
            contents_of(log, scan.slots),
            rec,
        ),
{
    lemma_record_ends_inside(log.skip(at));
    let next = step(scan, rec, at, size);
    match rec {
        Record::Put { key, value } => {
            lemma_put(scan.slots, key, pointer(at, size));
            let range = log.subrange(at, at + size);
            assert(agree(log.skip(at), range, size));
            lemma_record_is_local(log.skip(at), range, rec, size);
            assert(contents_of(log, next.slots) =~= contents_of(log, scan.slots).insert(
                key,
                value,
            ));
        },
        Record::Rm { key } => {
            lemma_del(scan.slots, key);
            assert(contents_of(log, next.slots) =~= contents_of(log, scan.slots).remove(key));
        },
    }
}

/// Commands take effect one after the other: the first, then the rest.
pub proof fn lemma_apply_first(
    contents: Map<Seq<char>, Seq<char>>,
    first: Record,
    rest: Seq<Record>,
)
    ensures
        apply_all(contents, seq![first] + rest) == apply_all(apply(contents, first), rest),
    decreases rest.len(),
{
    let all = seq![first] + rest;
    if rest.len() == 0 {
        assert(all.drop_last() =~= Seq::<Record>::empty());
        assert(apply_all(contents, all.drop_last()) == contents);
    } else {
        assert(all.drop_last() =~= seq![first] + rest.drop_last());
        lemma_apply_first(contents, first, rest.drop_last());
    }
}

/// Replaying a log does to the values what the records of the log say,
/// one after the other.
pub proof fn lemma_replay_contents(log: Seq<u8>, at: int, scan: Scan)
    requires
        log.len() <= usize::MAX,
        scan_ok(log, at, scan),
        replay_from(log, at, scan) is Some,
    ensures
        records_from(log, at) is Some,
        contents_of(log, replay_from(log, at, scan).unwrap().slots) == apply_all(
            contents_of(log, scan.slots),
            records_from(log, at).unwrap(),
        ),
    decreases log.len() - at,
{
    if at < log.len() {
        let (rec, size) = read_record(log.skip(at)).unwrap();
        let next = step(scan, rec, at, size);
        lemma_step_ok(log, at, scan, rec, size);
        lemma_step_contents(log, at, scan, rec, size);
        lemma_replay_contents(log, at + size, next);
        lemma_apply_first(
            contents_of(log, scan.slots),
            rec,
            records_from(log, at + size).unwrap(),
        );
    }
}

/// Opening a log gives each key the value that the records of the log,
/// applied one after the other to a store without keys, leave it with.
pub proof fn lemma_opened_contents(file_number: nat, log: Seq<u8>)
    requires
        log.len() <= usize::MAX,
        Model::opened(file_number, log) is Some,
    ensures
        records(log) is Some,
        Model::opened(file_number, log).unwrap().contents() == apply_all(
            Map::empty(),
            records(log).unwrap(),
        ),
{
    let start = Scan { slots: Seq::empty(), garbage: 0 };
    assert(scan_ok(log, 0, start));
    lemma_replay_contents(log, 0, start);
    assert(contents_of(log, start.slots) =~= Map::<Seq<char>, Seq<char>>::empty());
}

/// Appending the text of a command keeps the store well formed, and
/// changes the value of the command's key and of no other: a `Set` gives
/// it the command's value, an `Rm` takes it away.
pub proof fn lemma_appended(m: Model, rec: Record, text: Seq<u8>)
    requires
        m.wf(),
        text_of(rec) == Some(text),
        m.log.len() + text.len() <= usize::MAX,
    ensures
        m.appended(rec, text).wf(),
        m.appended(rec, text).contents() == apply(m.contents(), rec),
        m.appended(rec, text).garbage == m.garbage + freed(m.slots, rec.key()),
{
    let after = m.appended(rec, text);
    let at = m.log.len() as int;
    let size = text.len() as int;
    let start = Scan { slots: Seq::empty(), garbage: 0 };
    lemma_written_record_is_read(rec, text, text);
    lemma_replay_append(m.log, 0, start, rec, text);
    assert(after.log.skip(at) =~= text);
    assert(after.log.take(at) =~= m.log.take(at));
    assert(m.log.take(at) =~= m.log);
    assert(scan_ok(after.log, at, m.scan()));
    lemma_step_ok(after.log, at, m.scan(), rec, size);
    lemma_step_contents(after.log, at, m.scan(), rec, size);
    assert forall|key: Seq<char>| has_key(m.slots, key) implies value_at(
        after.log,
        m.slots[slot_of(m.slots, key)].ptr,
    ) == value_at(m.log, m.slots[slot_of(m.slots, key)].ptr) by {
        let slot = m.slots[slot_of(m.slots, key)];
        assert(points_at(m.log.take(at), slot));
        lemma_points_at_carries(m.log, after.log, slot);
    }
    assert(contents_of(after.log, m.slots) =~= m.contents());
}

/// Nothing in a log is overwritten: appending a record and compacting
/// where that is due leaves the bytes of the log in place and adds to
/// them, or makes a new log under the next file number.
pub proof fn lemma_append_only(m: Model, rec: Record, text: Seq<u8>)
    ensures
        grown_or_replaced(m, m.appended(rec, text)),
        grown_or_replaced(m, m.appended(rec, text).settled().0),
{
    assert(m.log =~= (m.log + text).subrange(0, m.log.len() as int));
}

/// Where the first records cannot be rewritten, more of them cannot.
pub proof fn lemma_rewritten_fails(m: Model, n: nat, more: nat)
    requires
        n <= more,
        m.rewritten(n) is None,
    ensures
        m.rewritten(more) is None,
    decreases more,
{
    if n < more {
        lemma_rewritten_fails(m, n, (more - 1) as nat);
    }
}

/// What rewriting the first `n` entries gives: a log whose replay gives
/// those entries with their new pointers and no dead bytes, which they
/// tile, and whose records give each key the value it had.
proof fn lemma_rewritten(m: Model, n: nat)
    requires
        m.wf(),
        n <= m.slots.len(),
        m.rewritten(n) is Some,
        m.rewritten(n).unwrap().0.len() <= usize::MAX,
    ensures
        ({
            let (out, ptrs) = m.rewritten(n).unwrap();
            let slots = first_moved(m.slots, ptrs, n);
            &&& ptrs.len() == n
            &&& replay(out) == Some(Scan { slots, garbage: 0 })
            &&& scan_ok(out, out.len() as int, Scan { slots, garbage: 0 })
            &&& tiled(slots, out)
            &&& records(out) == Some(live_records(m.log, m.slots, n))
            &&& forall|i: int|
                0 <= i < n ==> value_at(out, #[trigger] ptrs[i]) == value_at(
                    m.log,
                    m.slots[i].ptr,
                )
        }),
    decreases n,
{
    let (out, ptrs) = m.rewritten(n).unwrap();
    let slots = first_moved(m.slots, ptrs, n);
    if n == 0 {
        assert(slots =~= Seq::<Slot>::empty());
        assert(out.take(0) =~= out);
        assert(live_records(m.log, m.slots, n) =~= Seq::<Record>::empty());
    } else {
        let k = (n - 1) as nat;
        let (out0, ptrs0) = m.rewritten(k).unwrap();
        let slots0 = first_moved(m.slots, ptrs0, k);
        let scan0 = Scan { slots: slots0, garbage: 0 };
        let live = m.slots[k as int];
        let range = m.log.subrange(live.ptr.offset as int, live.ptr.offset + live.ptr.size);
        let (rec, end) = read_record(range).unwrap();
        let text = text_of(rec).unwrap();
        let at = out0.len() as int;
        let size = text.len() as int;
        let ptr = pointer(at, size);
        assert(out == out0 + text);
        assert(ptrs == ptrs0.push(ptr));
        lemma_rewritten(m, k);
        assert(points_at(m.log.take(m.log.len() as int), live));
        assert(m.log.take(m.log.len() as int) =~= m.log);
        assert(rec.key() == live.key && rec is Put);
        lemma_written_record_is_read(rec, text, text);
        lemma_replay_append(out0, 0, Scan { slots: Seq::empty(), garbage: 0 }, rec, text);
        lemma_records_append(out0, 0, rec, text);
        assert(live_records(m.log, m.slots, n) =~= live_records(m.log, m.slots, k).push(rec));
        assert(!has_key(slots0, live.key)) by {
            if has_key(slots0, live.key) {
                let i = slot_of(slots0, live.key);
                assert(slots0[i].key == m.slots[i].key);
                assert(m.slots[i].key != m.slots[k as int].key);
            }
        }
        let slot = Slot { key: live.key, ptr };
        assert(slots =~= slots0.push(slot));
        assert(step(scan0, rec, at, size) == Scan { slots, garbage: 0 });
        assert(out.skip(at) =~= text);
        assert(scan_ok(out, at, scan0)) by {
            assert(out.take(at) =~= out0.take(at));
        }
        lemma_step_ok(out, at, scan0, rec, size);
        lemma_total_push(slots0, slot);
        assert forall|i: int| 0 <= i < slots.len() implies (#[trigger] slots[i]).ptr.offset
            == total_size(slots.take(i)) by {
            if i < k {
                assert(slots.take(i) =~= slots0.take(i));
                assert(slots[i] == slots0[i]);
            } else {
                assert(slots.take(i) =~= slots0);
            }
        }
        assert forall|i: int| 0 <= i < n implies value_at(out, #[trigger] ptrs[i]) == value_at(
            m.log,
            m.slots[i].ptr,
        ) by {
            if i < k {
                assert(points_at(out0.take(at), slots0[i]));
                assert(out0.take(at) =~= out0);
                lemma_points_at_carries(out0, out, slots0[i]);
                assert(ptrs[i] == ptrs0[i]);
            } else {
                assert(out.subrange(at, at + size) =~= text);
            }
        }
    }
}

/// Compaction keeps the store well formed and the value of every key;
/// afterwards no byte is dead, and the records of the log are one `Set`
/// record for each entry of the index, in their order, and nothing else:
/// the entries lie in the log one after the other, and the length of the
/// log is the sum of their sizes.
pub proof fn lemma_compacted(m: Model)
    requires
        m.wf(),
        m.compacted() is Ok,
    ensures
        m.compacted().unwrap().wf(),
        m.compacted().unwrap().contents() == m.contents(),
        m.compacted().unwrap().garbage == 0,
        m.compacted().unwrap().file_number == m.file_number + 1,
        tiled(m.compacted().unwrap().slots, m.compacted().unwrap().log),
        m.compacted().unwrap().log.len() == total_size(m.compacted().unwrap().slots),
        records(m.compacted().unwrap().log) == Some(
            live_records(m.log, m.slots, m.slots.len()),
        ),
        m.compacted().unwrap().slots.len() == m.slots.len(),
        forall|i: int|
            0 <= i < m.slots.len() ==> (#[trigger] m.compacted().unwrap().slots[i]).key
                == m.slots[i].key,
{
    let c = m.compacted().unwrap();
    let n = m.slots.len();
    let (out, ptrs) = m.rewritten(n).unwrap();
    lemma_rewritten(m, n);
    assert(c.slots =~= first_moved(m.slots, ptrs, n));
    assert forall|key: Seq<char>| has_key(c.slots, key) == has_key(m.slots, key) && (has_key(
        m.slots,
        key,
    ) ==> slot_of(c.slots, key) == slot_of(m.slots, key)) by {
        if has_key(m.slots, key) {
            let i = slot_of(m.slots, key);
            assert(c.slots[i].key == key);
            lemma_slot_of(c.slots, i);
        }
        if has_key(c.slots, key) {
            let i = slot_of(c.slots, key);
            assert(m.slots[i].key == key);
        }
    }
    assert forall|key: Seq<char>| has_key(m.slots, key) implies #[trigger] c.contents()[key]
        == m.contents()[key] by {
        let i = slot_of(m.slots, key);
        assert(c.slots[i].ptr == ptrs[i]);
    }
    assert(c.contents() =~= m.contents());
}

} // verus!
