//! The store: an index over an append-only log of commands, with the log
//! held as bytes.
//!
//! Every change appends a record to the log and then brings the index up
//! to date. Nothing in the log is ever overwritten: when too many of its
//! bytes are dead, the live records are written to a new log, under the
//! next file number.

use vstd::prelude::*;
use vstd::slice::slice_subrange;
use crate::error::KvsError;
use vstd::std_specs::vec::axiom_spec_len;
use crate::index::{has_key, lemma_total_covers, lookup, slot_of, Index, LogPointer};
use crate::model::{
    apply, grown_or_replaced, lemma_append_only, lemma_appended, lemma_compacted, lemma_fresh,
    lemma_rewritten_fails, lemma_step_ok, live_records, pointer, points_at, records, replay, replay_from, scan_ok, tiled, Model, Scan,
    COMPACT_THRESHOLD,
};
use crate::record::{decode, encode, text_of, LogCommand, Record};

verus! {

/// A moment in the life of a store's log.
#[derive(Clone, Copy, Debug, PartialEq, Eq)]
pub struct LogMark {
    /// The number of the active log file at that moment.
    pub file_number: usize,
    /// The length of the active log at that moment.
    pub len: usize,
}

/// What became of a store's log since a moment: what is to be done to the
/// log files so that they hold the log again.
#[derive(Clone, Copy, Debug, PartialEq, Eq)]
pub enum LogChange {
    /// The log is as it was.
    Unchanged,
    /// The log grew: its bytes from `from` on belong at the end of the
    /// active log file.
    Appended {
        /// The length of the log before it grew.
        from: usize,
    },
    /// The log was compacted: the whole log belongs in a new file under
    /// the store's file number, and the file numbered `retired` is to go.
    Replaced {
        /// The number of the log file that was active before.
        retired: usize,
    },
}

/// What became of the log since the mark was taken, for the store as it
/// is now.
pub open spec fn change(mark: LogMark, now: Model) -> LogChange {
    if now.file_number != mark.file_number {
        LogChange::Replaced { retired: mark.file_number }
    } else if now.log.len() > mark.len {
        LogChange::Appended { from: mark.len }
    } else {
        LogChange::Unchanged
    }
}

/// A key-value store over one log.
#[derive(Debug)]
pub struct KvStore {
    index: Index,
    log: Vec<u8>,
    compactable: usize,
    file_number: usize,
}

impl View for KvStore {
    type V = Model;

    closed spec fn view(&self) -> Model {
        Model {
            log: self.log@,
            slots: self.index@,
            garbage: self.compactable as nat,
            file_number: self.file_number as nat,
        }
    }
}

impl KvStore {
    #[verifier::type_invariant]
    spec fn inv(self) -> bool {
        self@.wf()
    }

    /// A store on an empty log with the file number 0.
    pub fn new() -> (s: KvStore)
        ensures
            s@ == Model::fresh(0),
            s@.wf(),
    {
        proof {
            lemma_fresh(0);
        }
        KvStore { index: Index::new(), log: Vec::new(), compactable: 0, file_number: 0 }
    }

    /// Opens the store on the bytes of a log file and the number in that
    /// file's name: replays the log to build the index and to count the dead
    /// bytes. Fails where the log does not consist of whole records.
    pub fn open(file_number: usize, log: Vec<u8>) -> (r: Result<KvStore, KvsError>)
        ensures
            match r {
                Ok(s) => Model::opened(file_number as nat, log@) == Some(s@) && s@.wf(),
                Err(e) => e == KvsError::ParseError && Model::opened(file_number as nat, log@)
                    is None,
            },
    {
        let mut index = Index::new();
        let mut compactable: usize = 0;
        let mut at: usize = 0;
        let len = log.len();
        while at < len
            invariant
                at <= len,
                len == log@.len(),
                scan_ok(log@, at as int, Scan { slots: index@, garbage: compactable as nat }),
                replay(log@) == replay_from(
                    log@,
                    at as int,
                    Scan { slots: index@, garbage: compactable as nat },
                ),
            decreases len - at,
        {
            let ghost scan = Scan { slots: index@, garbage: compactable as nat };
            let (cmd, size) = match decode(slice_subrange(log.as_slice(), at, len)) {
                Ok(found) => found,
                Err(e) => {
                    return Err(e);
                },
            };
            proof {
                lemma_step_ok(log@, at as int, scan, cmd@, size as int);
                if has_key(scan.slots, cmd@.key()) {
                    lemma_total_covers(scan.slots, slot_of(scan.slots, cmd@.key()));
                }
            }
            let ptr = LogPointer { offset: at, size };
            let had = match cmd {
                LogCommand::Put { key, value } => index.insert(key, ptr),
                LogCommand::Rm { key } => index.remove(&key),
            };
            match had {
                Some(dead) => {
                    compactable = compactable + dead.size;
                },
                None => {},
            }
            at = at + size;
        }
        Ok(KvStore { index, log, compactable, file_number })
    }

    /// The value of a key, or `None` where it has none. The store is left
    /// as it is.
    pub fn get(&self, key: String) -> (r: Result<Option<String>, KvsError>)
        ensures
            self@.wf(),
            match r {
                Ok(Some(value)) => self@.contents().contains_key(key@) && self@.contents()[key@]
                    == value@,
                Ok(None) => !self@.contents().contains_key(key@),
                Err(_) => false,
            },
    {
        proof {
            use_type_invariant(self);
        }
        match self.index.get(&key) {
            None => Ok(None),
            Some(ptr) => {
                proof {
                    let slot = self@.slots[slot_of(self@.slots, key@)];
                    assert(points_at(self@.log.take(self@.log.len() as int), slot));
                    assert(self@.log.take(self@.log.len() as int) =~= self@.log);
                }
                let range = slice_subrange(
                    self.log.as_slice(),
                    ptr.offset,
                    ptr.offset + ptr.size,
                );
                // The index points at `Set` records only: the other two arms
                // are never taken.
                match decode(range) {
                    Ok((LogCommand::Put { key: _, value }, _)) => Ok(Some(value)),
                    Ok((LogCommand::Rm { key: _ }, _)) => Ok(None),
                    Err(e) => Err(e),
                }
            },
        }
    }

    /// Gives a key a value: appends a `Set` record to the log, points the
    /// key's entry at it, counts the record that the key had before as dead,
    /// and compacts the log where the dead bytes then exceed the threshold.
    pub fn set(&mut self, key: String, value: String) -> (r: Result<(), KvsError>)
        ensures
            final(self)@.wf(),
            match text_of(Record::Put { key: key@, value: value@ }) {
                None => r == Err::<(), KvsError>(KvsError::ParseError) && final(self)@ == old(
                    self,
                )@,
                Some(text) => (final(self)@, r) == old(self)@.appended(
                    Record::Put { key: key@, value: value@ },
                    text,
                ).settled() && final(self)@.contents() == old(self)@.contents().insert(
                    key@,
                    value@,
                ),
            },
            match old(self)@.updated(Record::Put { key: key@, value: value@ }) {
                Some(after) => r is Ok && final(self)@ == after,
                None => r is Err,
            },
            grown_or_replaced(old(self)@, final(self)@),
    {
        proof {
            use_type_invariant(&*self);
            let op = Record::Put { key: key@, value: value@ };
            if text_of(op) is Some {
                lemma_append_only(old(self)@, op, text_of(op).unwrap());
            } else {
                assert(old(self)@.log =~= old(self)@.log.subrange(
                    0,
                    old(self)@.log.len() as int,
                ));
            }
        }
        let cmd = LogCommand::Put { key: key.clone(), value };
        let text = match encode(&cmd) {
            Ok(text) => text,
            Err(e) => {
                return Err(e);
            },
        };
        self.append(key, &cmd, text);
        self.settle()
    }

    /// Takes a key's value away: appends an `Rm` record to the log, and
    /// then, where the key has an entry, takes the entry out, counts the
    /// record that it pointed to as dead, and compacts the log where the
    /// dead bytes then exceed the threshold. Where the key has no entry the
    /// record stays in the log and `NotFound` is reported.
    pub fn remove(&mut self, key: String) -> (r: Result<(), KvsError>)
        ensures
            final(self)@.wf(),
            match text_of(Record::Rm { key: key@ }) {
                None => r == Err::<(), KvsError>(KvsError::ParseError) && final(self)@ == old(
                    self,
                )@,
                Some(text) => if old(self)@.contents().contains_key(key@) {
                    (final(self)@, r) == old(self)@.appended(
                        Record::Rm { key: key@ },
                        text,
                    ).settled()
                } else {
                    final(self)@ == old(self)@.appended(Record::Rm { key: key@ }, text) && r
                        == Err::<(), KvsError>(KvsError::NotFound { key })
                },
            },
            text_of(Record::Rm { key: key@ }) is Some ==> final(self)@.contents() == old(
                self,
            )@.contents().remove(key@),
            match old(self)@.updated(Record::Rm { key: key@ }) {
                Some(after) => r is Ok && final(self)@ == after,
                None => r is Err,
            },
            grown_or_replaced(old(self)@, final(self)@),
    {
        proof {
            use_type_invariant(&*self);
            let op = Record::Rm { key: key@ };
            if text_of(op) is Some {
                lemma_append_only(old(self)@, op, text_of(op).unwrap());
            } else {
                assert(old(self)@.log =~= old(self)@.log.subrange(
                    0,
                    old(self)@.log.len() as int,
                ));
            }
        }
        let cmd = LogCommand::Rm { key: key.clone() };
        let text = match encode(&cmd) {
            Ok(text) => text,
            Err(e) => {
                return Err(e);
            },
        };
        let found = self.index.get(&key).is_some();
        proof {
            if !found {
                assert(old(self)@.contents().remove(key@) =~= old(self)@.contents());
            }
        }
        let key_back = key.clone();
        self.append(key, &cmd, text);
        if found {
            self.settle()
        } else {
            Err(KvsError::NotFound { key: key_back })
        }
    }

    /// Appends the text of a command and applies the command to the index.
    fn append(&mut self, key: String, cmd: &LogCommand, text: Vec<u8>)
        requires
            cmd@.key() == key@,
            text_of(cmd@) == Some(text@),
        ensures
            final(self)@.wf(),
            final(self)@ == old(self)@.appended(cmd@, text@),
            final(self)@.contents() == apply(old(self)@.contents(), cmd@),
            old(self)@.log.len() + text@.len() <= usize::MAX,
    {
        proof {
            use_type_invariant(&*self);
        }
        let mut cur = KvStore::new();
        std::mem::swap(&mut cur, self);
        let KvStore { index, log, compactable, file_number } = cur;
        let mut index = index;
        let mut log = log;
        let mut compactable = compactable;
        let ghost before = old(self)@;
        let ptr = LogPointer { offset: log.len(), size: text.len() };
        log.extend_from_slice(text.as_slice());
        proof {
            axiom_spec_len(&log);
            lemma_appended(before, cmd@, text@);
            if has_key(before.slots, key@) {
                lemma_total_covers(before.slots, slot_of(before.slots, key@));
            }
        }
        let had = match cmd {
            LogCommand::Put { .. } => index.insert(key, ptr),
            LogCommand::Rm { .. } => index.remove(&key),
        };
        match had {
            Some(dead) => {
                compactable = compactable + dead.size;
            },
            None => {},
        }
        proof {
            let after = Model {
                log: log@,
                slots: index@,
                garbage: compactable as nat,
                file_number: file_number as nat,
            };
            assert(ptr == pointer(before.log.len() as int, text@.len() as int));
            assert(after =~= before.appended(cmd@, text@));
        }
        *self = KvStore { index, log, compactable, file_number };
    }

    /// Compacts the log where more than the threshold of its bytes are dead.
    fn settle(&mut self) -> (r: Result<(), KvsError>)
        ensures
            final(self)@.wf(),
            (final(self)@, r) == old(self)@.settled(),
            final(self)@.contents() == old(self)@.contents(),
    {
        if self.compactable > COMPACT_THRESHOLD {
            self.compact()
        } else {
            proof {
                use_type_invariant(&*self);
            }
            Ok(())
        }
    }

    /// Writes the live records to a new log, in the order of the index,
    /// points the index at them, and takes the next file number. Each live
    /// record is read from the old log and written anew. Where that fails
    /// the store is left as it was.
    pub fn compact(&mut self) -> (r: Result<(), KvsError>)
        ensures
            final(self)@.wf(),
            match old(self)@.compacted() {
                Ok(after) => r == Ok::<(), KvsError>(()) && final(self)@ == after,
                Err(e) => r == Err::<(), KvsError>(e) && final(self)@ == old(self)@,
            },
            final(self)@.contents() == old(self)@.contents(),
            r is Ok ==> final(self)@.garbage == 0 && tiled(final(self)@.slots, final(self)@.log)
                && records(final(self)@.log) == Some(
                live_records(old(self)@.log, old(self)@.slots, old(self)@.slots.len()),
            ),
    {
        proof {
            use_type_invariant(&*self);
        }
        if self.file_number == usize::MAX {
            return Err(KvsError::CantOpen);
        }
        let ghost before = self@;
        let n = self.index.len();
        let mut out: Vec<u8> = Vec::new();
        let mut ptrs: Vec<LogPointer> = Vec::new();
        let mut i: usize = 0;
        while i < n
            invariant
                i <= n,
                n == before.slots.len(),
                *self == *old(self),
                before == self@,
                before.wf(),
                before.file_number < usize::MAX,
                before.rewritten(i as nat) == Some((out@, ptrs@)),
            decreases n - i,
        {
            // There are `n` entries, and each points at a record that can be
            // read: of the three failures below only the last can happen.
            let ptr = match self.index.entry(i) {
                Some((_, ptr)) => ptr,
                None => {
                    return Err(KvsError::Unknown);
                },
            };
            proof {
                let slot = before.slots[i as int];
                assert(points_at(before.log.take(before.log.len() as int), slot));
                assert(before.log.take(before.log.len() as int) =~= before.log);
            }
            let range = slice_subrange(self.log.as_slice(), ptr.offset, ptr.offset + ptr.size);
            let cmd = match decode(range) {
                Ok((cmd, _)) => cmd,
                Err(e) => {
                    return Err(e);
                },
            };
            let text = match encode(&cmd) {
                Ok(text) => text,
                Err(e) => {
                    proof {
                        assert(ptr == before.slots[i as int].ptr);
                        assert(before.rewritten((i + 1) as nat) is None);
                        lemma_rewritten_fails(before, (i + 1) as nat, n as nat);
                    }
                    return Err(e);
                },
            };
            ptrs.push(LogPointer { offset: out.len(), size: text.len() });
            out.extend_from_slice(text.as_slice());
            i = i + 1;
        }
        let mut cur = KvStore::new();
        std::mem::swap(&mut cur, self);
        let KvStore { index, log: _, compactable: _, file_number } = cur;
        let mut index = index;
        index.relocate(&ptrs);
        proof {
            axiom_spec_len(&out);
            lemma_compacted(before);
        }
        *self = KvStore { index, log: out, compactable: 0, file_number: file_number + 1 };
        Ok(())
    }

    /// The bytes of the active log.
    pub fn log(&self) -> (r: &Vec<u8>)
        ensures
            r@ == self@.log,
    {
        &self.log
    }

    /// The number in the name of the active log file.
    pub fn file_number(&self) -> (r: usize)
        ensures
            r == self@.file_number,
    {
        self.file_number
    }

    /// The file number and the length of the log as they are now.
    pub fn mark(&self) -> (r: LogMark)
        ensures
            r.file_number == self@.file_number,
            r.len == self@.log.len(),
    {
        LogMark { file_number: self.file_number, len: self.log.len() }
    }

    /// What became of the log since the mark was taken.
    pub fn change_since(&self, mark: LogMark) -> (r: LogChange)
        ensures
            r == change(mark, self@),
    {
        if self.file_number != mark.file_number {
            LogChange::Replaced { retired: mark.file_number }
        } else if self.log.len() > mark.len {
            LogChange::Appended { from: mark.len }
        } else {
            LogChange::Unchanged
        }
    }

    /// The number of dead bytes in the active log.
    pub fn garbage(&self) -> (r: usize)
        ensures
            r == self@.garbage,
    {
        self.compactable
    }

    /// The number of keys that have a value.
    pub fn len(&self) -> (r: usize)
        ensures
            r == self@.slots.len(),
    {
        self.index.len()
    }

    /// Where the record of a key lies in the active log.
    pub fn pointer(&self, key: &String) -> (r: Option<LogPointer>)
        ensures
            r == lookup(self@.slots, key@),
    {
        self.index.get(key)
    }
}

impl Default for KvStore {
    fn default() -> (s: KvStore)
        ensures
            s@ == Model::fresh(0),
    {
        KvStore::new()
    }
}

} // verus!
