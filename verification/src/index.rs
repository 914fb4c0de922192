//! The index: for each live key, the place of its record in the log.
//!
//! The index keeps its entries in the order in which their keys came in.
//! No key has two entries.

use vstd::prelude::*;

verus! {

/// The place of one record in the log.
#[derive(Clone, Copy, Debug, PartialEq, Eq, Structural)]
pub struct LogPointer {
    /// The offset of the record's first byte.
    pub offset: usize,
    /// The number of bytes of the record.
    pub size: usize,
}

/// One entry of the index, over a sequence of characters.
pub struct Slot {
    pub key: Seq<char>,
    pub ptr: LogPointer,
}

/// Whether some entry has the key.
pub open spec fn has_key(slots: Seq<Slot>, key: Seq<char>) -> bool {
    exists|i: int| 0 <= i < slots.len() && (#[trigger] slots[i]).key == key
}

/// The position of an entry with the key, where there is one.
pub open spec fn slot_of(slots: Seq<Slot>, key: Seq<char>) -> int {
    choose|i: int| 0 <= i < slots.len() && (#[trigger] slots[i]).key == key
}

/// The pointer that the entries hold for the key.
pub open spec fn lookup(slots: Seq<Slot>, key: Seq<char>) -> Option<LogPointer> {
    if has_key(slots, key) {
        Some(slots[slot_of(slots, key)].ptr)
    } else {
        None
    }
}

/// The entries after the key was given the pointer: its entry holds the
/// new pointer where it had one, and a new entry stands last where not.
pub open spec fn put(slots: Seq<Slot>, key: Seq<char>, ptr: LogPointer) -> Seq<Slot> {
    if has_key(slots, key) {
        slots.update(slot_of(slots, key), Slot { key, ptr })
    } else {
        slots.push(Slot { key, ptr })
    }
}

/// The entries without that of the key, the others in their order.
pub open spec fn del(slots: Seq<Slot>, key: Seq<char>) -> Seq<Slot> {
    if has_key(slots, key) {
        slots.remove(slot_of(slots, key))
    } else {
        slots
    }
}

/// No key has two entries.
pub open spec fn distinct(slots: Seq<Slot>) -> bool {
    forall|i: int, j: int|
        #![trigger slots[i], slots[j]]
        0 <= i < j < slots.len() ==> slots[i].key != slots[j].key
}

/// The sizes of all the records that the entries point to, added up.
pub open spec fn total_size(slots: Seq<Slot>) -> nat
    decreases slots.len(),
{
    if slots.len() == 0 {
        0
    } else {
        total_size(slots.drop_last()) + slots.last().ptr.size as nat
    }
}

/// The entries with their pointers replaced, one by one, by those given.
pub open spec fn moved(slots: Seq<Slot>, ptrs: Seq<LogPointer>) -> Seq<Slot> {
    Seq::new(
        slots.len(),
        |i: int|
            Slot {
                key: slots[i].key,
                ptr: if i < ptrs.len() {
                    ptrs[i]
                } else {
                    slots[i].ptr
                },
            },
    )
}

/// Among distinct entries the one at position `i` is the entry of its key.
pub proof fn lemma_slot_of(slots: Seq<Slot>, i: int)
    requires
        distinct(slots),
        0 <= i < slots.len(),
    ensures
        has_key(slots, slots[i].key),
        slot_of(slots, slots[i].key) == i,
        lookup(slots, slots[i].key) == Some(slots[i].ptr),
{
    let key = slots[i].key;
    let j = slot_of(slots, key);
    assert(0 <= j < slots.len() && slots[j].key == key);
    if i < j {
        assert(slots[i].key != slots[j].key);
    }
    if j < i {
        assert(slots[j].key != slots[i].key);
    }
}

/// Giving a key a pointer changes what is looked up for that key and for
/// no other, and leaves the entries distinct.
pub proof fn lemma_put(slots: Seq<Slot>, key: Seq<char>, ptr: LogPointer)
    requires
        distinct(slots),
    ensures
        distinct(put(slots, key, ptr)),
        lookup(put(slots, key, ptr), key) == Some(ptr),
        forall|other: Seq<char>|
            other != key ==> #[trigger] has_key(put(slots, key, ptr), other) == has_key(
                slots,
                other,
            ),
        forall|other: Seq<char>|
            other != key ==> #[trigger] lookup(put(slots, key, ptr), other) == lookup(
                slots,
                other,
            ),
{
    let after = put(slots, key, ptr);
    let at = if has_key(slots, key) {
        slot_of(slots, key)
    } else {
        slots.len() as int
    };
    assert(after.len() > at && after[at].key == key && after[at].ptr == ptr);
    assert forall|i: int| 0 <= i < after.len() && i != at implies #[trigger] after[i]
        == slots[i] && slots[i].key != key by {
        if has_key(slots, key) {
            if i < at {
                assert(slots[i].key != slots[at].key);
            } else {
                assert(slots[at].key != slots[i].key);
            }
        }
    }
    assert forall|i: int, j: int| 0 <= i < j < after.len() implies after[i].key != after[j].key by {
        if i != at && j != at {
            assert(slots[i].key != slots[j].key);
        }
    }
    lemma_slot_of(after, at);
    assert forall|other: Seq<char>| other != key implies #[trigger] has_key(after, other)
        == has_key(slots, other) && lookup(after, other) == lookup(slots, other) by {
        if has_key(slots, other) {
            let i = slot_of(slots, other);
            assert(after[i] == slots[i]);
            lemma_slot_of(after, i);
        }
        if has_key(after, other) {
            let i = slot_of(after, other);
            assert(after[i] == slots[i]);
            assert(has_key(slots, other));
        }
    }
    assert forall|other: Seq<char>| other != key implies #[trigger] lookup(after, other)
        == lookup(slots, other) by {
        assert(has_key(after, other) == has_key(slots, other));
    }
}

/// Taking a key out changes what is looked up for that key and for no
/// other, and leaves the entries distinct.
pub proof fn lemma_del(slots: Seq<Slot>, key: Seq<char>)
    requires
        distinct(slots),
    ensures
        distinct(del(slots, key)),
        !has_key(del(slots, key), key),
        forall|other: Seq<char>|
            other != key ==> #[trigger] has_key(del(slots, key), other) == has_key(slots, other),
        forall|other: Seq<char>|
            other != key ==> #[trigger] lookup(del(slots, key), other) == lookup(slots, other),
{
    let after = del(slots, key);
    if has_key(slots, key) {
        let at = slot_of(slots, key);
        assert forall|i: int| 0 <= i < after.len() implies #[trigger] after[i] == slots[if i
            < at {
            i
        } else {
            i + 1
        }] && after[i].key != key by {
            let from = if i < at {
                i
            } else {
                i + 1
            };
            if from < at {
                assert(slots[from].key != slots[at].key);
            } else {
                assert(slots[at].key != slots[from].key);
            }
        }
        assert forall|i: int, j: int| 0 <= i < j < after.len() implies after[i].key
            != after[j].key by {
            let fi = if i < at {
                i
            } else {
                i + 1
            };
            let fj = if j < at {
                j
            } else {
                j + 1
            };
            assert(slots[fi].key != slots[fj].key);
        }
        assert forall|other: Seq<char>| other != key implies #[trigger] has_key(after, other)
            == has_key(slots, other) && lookup(after, other) == lookup(slots, other) by {
            if has_key(slots, other) {
                let i = slot_of(slots, other);
                let to = if i < at {
                    i
                } else {
                    i - 1
                };
                assert(after[to] == slots[i]);
                lemma_slot_of(after, to);
            }
            if has_key(after, other) {
                let i = slot_of(after, other);
                let from = if i < at {
                    i
                } else {
                    i + 1
                };
                assert(after[i] == slots[from]);
                assert(has_key(slots, other));
            }
        }
        assert forall|other: Seq<char>| other != key implies #[trigger] lookup(after, other)
            == lookup(slots, other) by {
            assert(has_key(after, other) == has_key(slots, other));
        }
    }
}

/// The total counts every record, so none is larger than it.
pub proof fn lemma_total_covers(slots: Seq<Slot>, i: int)
    requires
        0 <= i < slots.len(),
    ensures
        slots[i].ptr.size <= total_size(slots),
    decreases slots.len(),
{
    if i < slots.len() - 1 {
        lemma_total_covers(slots.drop_last(), i);
    }
}

/// Replacing one entry changes the total by the difference of the sizes.
pub proof fn lemma_total_update(slots: Seq<Slot>, i: int, slot: Slot)
    requires
        0 <= i < slots.len(),
    ensures
        total_size(slots.update(i, slot)) == total_size(slots) - slots[i].ptr.size
            + slot.ptr.size,
    decreases slots.len(),
{
    let after = slots.update(i, slot);
    if i < slots.len() - 1 {
        assert(after.drop_last() =~= slots.drop_last().update(i, slot));
        lemma_total_update(slots.drop_last(), i, slot);
    } else {
        assert(after.drop_last() =~= slots.drop_last());
    }
}

/// Taking one entry out lowers the total by its size.
pub proof fn lemma_total_remove(slots: Seq<Slot>, i: int)
    requires
        0 <= i < slots.len(),
    ensures
        total_size(slots.remove(i)) == total_size(slots) - slots[i].ptr.size,
    decreases slots.len(),
{
    let after = slots.remove(i);
    if i < slots.len() - 1 {
        assert(after.drop_last() =~= slots.drop_last().remove(i));
        assert(after.last() == slots.last());
        lemma_total_remove(slots.drop_last(), i);
    } else {
        assert(after =~= slots.drop_last());
    }
}

/// A new last entry raises the total by its size.
pub proof fn lemma_total_push(slots: Seq<Slot>, slot: Slot)
    ensures
        total_size(slots.push(slot)) == total_size(slots) + slot.ptr.size,
{
    assert(slots.push(slot).drop_last() =~= slots);
}

/// One entry of the index.
#[derive(Debug)]
struct IndexEntry {
    key: String,
    ptr: LogPointer,
}

impl View for IndexEntry {
    type V = Slot;

    closed spec fn view(&self) -> Slot {
        Slot { key: self.key@, ptr: self.ptr }
    }
}

/// The index of a log.
#[derive(Debug)]
pub struct Index {
    entries: Vec<IndexEntry>,
}

/// The entries of a vector, each by its view.
spec fn slots_of(entries: Seq<IndexEntry>) -> Seq<Slot> {
    Seq::new(entries.len(), |i: int| entries[i]@)
}

impl View for Index {
    type V = Seq<Slot>;

    closed spec fn view(&self) -> Seq<Slot> {
        slots_of(self.entries@)
    }
}

/// The position of the entry of a key, where it has one.
fn position(entries: &Vec<IndexEntry>, key: &String) -> (r: Option<usize>)
    requires
        distinct(slots_of(entries@)),
    ensures
        match r {
            Some(i) => has_key(slots_of(entries@), key@) && i == slot_of(
                slots_of(entries@),
                key@,
            ) && i < entries@.len(),
            None => !has_key(slots_of(entries@), key@),
        },
{
    let ghost slots = slots_of(entries@);
    let mut i: usize = 0;
    while i < entries.len()
        invariant
            i <= entries@.len(),
            slots == slots_of(entries@),
            distinct(slots),
            forall|j: int| 0 <= j < i ==> (#[trigger] slots[j]).key != key@,
        decreases entries@.len() - i,
    {
        if entries[i].key == *key {
            proof {
                assert(slots[i as int].key == key@);
                lemma_slot_of(slots, i as int);
            }
            return Some(i);
        }
        i += 1;
    }
    None
}

impl Index {
    #[verifier::type_invariant]
    spec fn inv(self) -> bool {
        distinct(self@)
    }

    /// An index without entries.
    pub fn new() -> (r: Index)
        ensures
            r@ == Seq::<Slot>::empty(),
    {
        let r = Index { entries: Vec::new() };
        assert(r@ =~= Seq::<Slot>::empty());
        r
    }

    /// The number of entries. No key has two of them.
    pub fn len(&self) -> (r: usize)
        ensures
            r == self@.len(),
            distinct(self@),
    {
        proof {
            use_type_invariant(self);
        }
        self.entries.len()
    }

    /// The pointer of a key, where it has an entry.
    pub fn get(&self, key: &String) -> (r: Option<LogPointer>)
        ensures
            r == lookup(self@, key@),
    {
        proof {
            use_type_invariant(self);
        }
        match position(&self.entries, key) {
            Some(i) => Some(self.entries[i].ptr),
            None => None,
        }
    }

    /// The key and the pointer of the entry at a position.
    pub fn entry(&self, i: usize) -> (r: Option<(&String, LogPointer)>)
        ensures
            match r {
                Some((key, ptr)) => i < self@.len() && self@[i as int] == (Slot { key: key@, ptr }),
                None => i >= self@.len(),
            },
    {
        if i < self.entries.len() {
            Some((&self.entries[i].key, self.entries[i].ptr))
        } else {
            None
        }
    }

    /// Gives the key the pointer, and hands back the one it had.
    pub fn insert(&mut self, key: String, ptr: LogPointer) -> (r: Option<LogPointer>)
        ensures
            final(self)@ == put(old(self)@, key@, ptr),
            r == lookup(old(self)@, key@),
    {
        proof {
            use_type_invariant(&*self);
        }
        let mut entries: Vec<IndexEntry> = Vec::new();
        std::mem::swap(&mut entries, &mut self.entries);
        let ghost before = slots_of(entries@);
        let found = position(&entries, &key);
        let ghost key_view = key@;
        let r = match found {
            Some(i) => {
                let had = entries[i].ptr;
                entries[i] = IndexEntry { key, ptr };
                Some(had)
            },
            None => {
                entries.push(IndexEntry { key, ptr });
                None
            },
        };
        proof {
            lemma_put(before, key_view, ptr);
            assert(slots_of(entries@) =~= put(before, key_view, ptr));
        }
        self.entries = entries;
        r
    }

    /// Takes the entry of the key out, and hands back its pointer.
    pub fn remove(&mut self, key: &String) -> (r: Option<LogPointer>)
        ensures
            final(self)@ == del(old(self)@, key@),
            r == lookup(old(self)@, key@),
    {
        proof {
            use_type_invariant(&*self);
        }
        let mut entries: Vec<IndexEntry> = Vec::new();
        std::mem::swap(&mut entries, &mut self.entries);
        let ghost before = slots_of(entries@);
        let r = match position(&entries, key) {
            Some(i) => {
                let gone = entries.remove(i);
                Some(gone.ptr)
            },
            None => None,
        };
        proof {
            lemma_del(before, key@);
            assert(slots_of(entries@) =~= del(before, key@));
        }
        self.entries = entries;
        r
    }

    /// Replaces the pointers of the entries, one by one, by those given.
    pub fn relocate(&mut self, ptrs: &Vec<LogPointer>)
        ensures
            final(self)@ == moved(old(self)@, ptrs@),
    {
        proof {
            use_type_invariant(&*self);
        }
        let mut entries: Vec<IndexEntry> = Vec::new();
        std::mem::swap(&mut entries, &mut self.entries);
        let ghost before = slots_of(entries@);
        let mut i: usize = 0;
        while i < entries.len() && i < ptrs.len()
            invariant
                i <= entries@.len(),
                i <= ptrs@.len(),
                entries@.len() == before.len(),
                forall|j: int|
                    0 <= j < entries@.len() ==> (#[trigger] entries@[j])@.key == before[j].key,
                forall|j: int| 0 <= j < i ==> (#[trigger] entries@[j])@.ptr == ptrs@[j],
                forall|j: int|
                    i <= j < entries@.len() ==> (#[trigger] entries@[j])@.ptr == before[j].ptr,
            decreases entries@.len() - i,
        {
            let mut entry = IndexEntry { key: String::new(), ptr: ptrs[i] };
            std::mem::swap(&mut entry, &mut entries[i]);
            entry.ptr = ptrs[i];
            entries[i] = entry;
            i += 1;
        }
        proof {
            let after = slots_of(entries@);
            assert forall|j: int| 0 <= j < after.len() implies after[j] == moved(
                before,
                ptrs@,
            )[j] by {
                assert(entries@[j]@.key == before[j].key);
            }
            assert(after =~= moved(before, ptrs@));
            assert forall|a: int, b: int| 0 <= a < b < after.len() implies after[a].key
                != after[b].key by {
                assert(before[a].key != before[b].key);
            }
        }
        self.entries = entries;
    }
}

} // verus!
