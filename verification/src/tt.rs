//! Transposition table: one slot per hash bucket, always replaced.
use vstd::prelude::*;
use crate::types::Move;

verus! {

#[derive(Clone, Copy, PartialEq, Eq, Debug, Structural)]
pub enum TTFlag {
    Exact,
    Lower,
    Upper,
}

#[derive(Clone, Copy, PartialEq, Eq, Debug, Structural)]
pub struct TTEntry {
    pub key: u64,
    pub depth: i32,
    pub flag: TTFlag,
    pub score: i32,
    pub best_move: Move,
}

/// The bytes one slot (`Option<TTEntry>`) takes: the key, three 32-bit fields
/// and the flag, padded to eight bytes; an empty slot is told apart by an
/// unused flag value.
pub const SLOT_BYTES: usize = 24;

pub struct TranspositionTable {
    table: Vec<Option<TTEntry>>,
    size: usize,
}

/// The slot of a key in a table of `size` slots.
pub open spec fn slot_of(key: u64, size: nat) -> int {
    ((key as usize) as int) % (size as int)
}

/// What a probe of `key` finds in the slots `entries`: the entry of its slot
/// when it was stored under this very key.
pub open spec fn probe_spec(entries: Seq<Option<TTEntry>>, key: u64) -> Option<TTEntry> {
    match entries[slot_of(key, entries.len())] {
        Some(e) => if e.key == key {
            Some(e)
        } else {
            None
        },
        None => None,
    }
}

/// The slots after storing `e` under `e.key`: its slot now holds `e`.
pub open spec fn store_spec(entries: Seq<Option<TTEntry>>, e: TTEntry) -> Seq<Option<TTEntry>> {
    entries.update(slot_of(e.key, entries.len()), Some(e))
}

impl TranspositionTable {
    /// The slots of the table.
    pub closed spec fn entries(self) -> Seq<Option<TTEntry>> {
        self.table@
    }

    pub closed spec fn wf(self) -> bool {
        self.table@.len() == self.size
    }

    /// A table of `mb` megabytes' worth of slots, all empty.
    pub fn new(mb: usize) -> (t: Self)
        requires
            mb * 1048576 <= usize::MAX,
        ensures
            t.wf(),
            t.entries().len() == (mb * 1048576) as nat / 24,
            forall|i: int| 0 <= i < t.entries().len() ==> #[trigger] t.entries()[i] is None,
    {
        let bytes = mb * 1024 * 1024;
        let size = bytes / SLOT_BYTES;
        TranspositionTable { table: vec![None; size], size }
    }

    /// The number of slots.
    pub fn len(&self) -> (r: usize)
        requires
            self.wf(),
        ensures
            r == self.entries().len(),
    {
        self.size
    }

    pub fn probe(&self, key: u64) -> (r: Option<TTEntry>)
        requires
            self.wf(),
            self.entries().len() > 0,
        ensures
            r == probe_spec(self.entries(), key),
    {
        let idx = (key as usize) % self.size;
        if let Some(e) = self.table[idx] {
            if e.key == key {
                return Some(e);
            }
        }
        None
    }

    pub fn store(&mut self, key: u64, depth: i32, flag: TTFlag, score: i32, best_move: Move)
        requires
            old(self).wf(),
            old(self).entries().len() > 0,
        ensures
            final(self).wf(),
            final(self).entries() == store_spec(
                old(self).entries(),
                TTEntry { key, depth, flag, score, best_move },
            ),
    {
        let idx = (key as usize) % self.size;
        // Always-replace strategy
        self.table.set(idx, Some(TTEntry { key, depth, flag, score, best_move }));
    }
}

/// A probe finds what was last stored under the same key.
pub proof fn lemma_probe_after_store(entries: Seq<Option<TTEntry>>, e: TTEntry)
    requires
        entries.len() > 0,
    ensures
        probe_spec(store_spec(entries, e), e.key) == Some(e),
{
}

/// Storing under one key leaves what a probe finds under a key of another
/// slot unchanged.
pub proof fn lemma_store_keeps_other_slots(entries: Seq<Option<TTEntry>>, e: TTEntry, key: u64)
    requires
        entries.len() > 0,
        slot_of(key, entries.len()) != slot_of(e.key, entries.len()),
    ensures
        probe_spec(store_spec(entries, e), key) == probe_spec(entries, key),
{
}

/// A probe never reports an entry stored under another key.
pub proof fn lemma_probe_matches_key(entries: Seq<Option<TTEntry>>, key: u64)
    ensures
        probe_spec(entries, key) matches Some(e) ==> e.key == key,
{
}

/// The slots after storing the entries `es` in turn.
pub open spec fn store_all(entries: Seq<Option<TTEntry>>, es: Seq<TTEntry>) -> Seq<Option<TTEntry>>
    decreases es.len(),
{
    if es.len() == 0 {
        entries
    } else {
        store_spec(store_all(entries, es.drop_last()), es.last())
    }
}

/// Every key has a slot inside the table.
pub proof fn lemma_slot_in_range(key: u64, n: nat)
    requires
        n > 0,
    ensures
        0 <= slot_of(key, n) < n,
{
    let k = (key as usize) as int;
    let m = n as int;
    assert(0 <= k % m < m) by (nonlinear_arith)
        requires
            m > 0,
            k >= 0,
    ;
}

/// Storing never changes the number of slots.
pub proof fn lemma_store_all_len(entries: Seq<Option<TTEntry>>, es: Seq<TTEntry>)
    requires
        entries.len() > 0,
    ensures
        store_all(entries, es).len() == entries.len(),
    decreases es.len(),
{
    if es.len() > 0 {
        lemma_store_all_len(entries, es.drop_last());
        lemma_slot_in_range(es.last().key, entries.len());
    }
}

/// A fresh table finds nothing.
pub proof fn lemma_probe_fresh(entries: Seq<Option<TTEntry>>, key: u64)
    requires
        entries.len() > 0,
        forall|i: int| 0 <= i < entries.len() ==> #[trigger] entries[i] is None,
    ensures
        probe_spec(entries, key) is None,
{
    lemma_slot_in_range(key, entries.len());
}

/// Over any sequence of stores, a probe finds the entry last stored under
/// its key, as long as no later store went to a key of the same slot.
pub proof fn lemma_probe_after_stores(entries: Seq<Option<TTEntry>>, es: Seq<TTEntry>, i: int)
    requires
        entries.len() > 0,
        0 <= i < es.len(),
        forall|j: int|
            i < j < es.len() ==> slot_of(#[trigger] es[j].key, entries.len()) != slot_of(
                es[i].key,
                entries.len(),
            ),
    ensures
        probe_spec(store_all(entries, es), es[i].key) == Some(es[i]),
    decreases es.len(),
{
    let prev = store_all(entries, es.drop_last());
    lemma_store_all_len(entries, es.drop_last());
    if i == es.len() - 1 {
        lemma_probe_after_store(prev, es[i]);
    } else {
        assert(es.drop_last()[i] == es[i]);
        assert forall|j: int| i < j < es.drop_last().len() implies slot_of(
            #[trigger] es.drop_last()[j].key,
            entries.len(),
        ) != slot_of(es.drop_last()[i].key, entries.len()) by {
            assert(es.drop_last()[j] == es[j]);
        }
        lemma_probe_after_stores(entries, es.drop_last(), i);
        assert(slot_of(es.last().key, entries.len()) != slot_of(es[i].key, entries.len())) by {
            assert(es.last() == es[es.len() - 1]);
        }
        lemma_store_keeps_other_slots(prev, es.last(), es[i].key);
    }
}

} // verus!
