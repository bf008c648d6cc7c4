//! Transposition table: a cache of searched positions indexed by their
//! Zobrist hash, holding a score, its kind and the best move found.
//!
//! One slot per index `hash & mask`; a slot is only overwritten by the same
//! position or by a search at least as deep.

use vstd::prelude::*;
use crate::moves::Move;

verus! {

#[derive(Clone, Copy, PartialEq, Eq, Debug, Structural)]
pub enum TTFlag {
    /// The score is exact (a full-window search completed).
    Exact,
    /// The score is a lower bound (the search failed high).
    LowerBound,
    /// The score is an upper bound (no move raised alpha).
    UpperBound,
}

#[derive(Clone, Copy, PartialEq, Eq, Debug, Structural)]
pub struct TTEntry {
    pub key: u64,
    pub depth: i8,
    pub score: i32,
    pub flag: TTFlag,
    pub best_move: Option<Move>,
}

#[derive(Clone, Copy, PartialEq, Eq, Debug, Structural)]
pub struct TTProbe {
    pub depth: i8,
    pub score: i32,
    pub flag: TTFlag,
    pub best_move: Option<Move>,
}


pub struct TranspositionTable {
    entries: Vec<Option<TTEntry>>,
    mask: u64,
}

/// Depth as stored: clamped into `0..=127`.
pub open spec fn stored_depth(depth: i32) -> i8 {
    if depth < 0 {
        0
    } else if depth > 127 {
        127
    } else {
        depth as i8
    }
}

/// What a probe reports of a stored entry.
pub open spec fn probe_of(e: TTEntry) -> TTProbe {
    TTProbe { depth: e.depth, score: e.score, flag: e.flag, best_move: e.best_move }
}

/// Smallest power of two not below `n`.
pub open spec fn is_pow2(p: nat) -> bool
    decreases p,
{
    if p == 1 {
        true
    } else if p < 1 || p % 2 == 1 {
        false
    } else {
        is_pow2(p / 2)
    }
}

/// Slots asked for by a table of `mb` megabytes: as many entries as fit in
/// `mb` megabytes (one at least), and never fewer than 1024.
pub open spec fn wanted_slots(mb: usize) -> int {
    let bytes = (if mb < 1 { 1 } else { mb }) * 1048576;
    let entry = if vstd::layout::size_of::<Option<TTEntry>>() < 1 {
        1
    } else {
        vstd::layout::size_of::<Option<TTEntry>>() as int
    };
    if bytes / entry < 1024 {
        1024
    } else {
        bytes / entry
    }
}

impl TranspositionTable {
    /// The slots.
    pub closed spec fn slots(&self) -> Seq<Option<TTEntry>> {
        self.entries@
    }

    /// The slot a key goes to.
    pub closed spec fn slot_of(&self, key: u64) -> int {
        (key & self.mask) as int
    }

    pub closed spec fn wf(&self) -> bool {
        &&& self.entries@.len() == self.mask + 1
        &&& is_pow2(self.entries@.len())
    }

    /// What `probe(key)` gives back.
    pub open spec fn probe_spec(&self, key: u64) -> Option<TTProbe> {
        match self.slots()[self.slot_of(key)] {
            Some(e) => if e.key == key {
                Some(probe_of(e))
            } else {
                None
            },
            None => None,
        }
    }

    /// Every stored score lies within `[-lim, lim]`.
    pub open spec fn scores_within(&self, lim: int) -> bool {
        forall|i: int| 0 <= i < self.slots().len() ==> (#[trigger] self.slots()[i] matches Some(e) ==> -lim <= e.score <= lim)
    }

    /// Whether `store` with this key and depth writes its slot: the slot is
    /// empty, holds the same key, or holds a search no deeper.
    pub open spec fn replaces(&self, key: u64, depth: i32) -> bool {
        match self.slots()[self.slot_of(key)] {
            Some(e) => e.key == key || e.depth <= stored_depth(depth),
            None => true,
        }
    }

    /// Every key has a slot of the table.
    pub proof fn lemma_slot_in_range(&self, key: u64)
        requires
            self.wf(),
        ensures
            0 <= self.slot_of(key) < self.slots().len(),
    {
        let m = self.mask;
        assert(key & m <= m) by (bit_vector);
    }

    /// An empty table of about `mb` megabytes (at least one): its number of
    /// slots is the least power of two that is at least `wanted_slots(mb)`.
    pub fn new(mb: usize) -> (t: TranspositionTable)
        requires
            (if mb < 1 { 1 } else { mb }) * 2097152 <= usize::MAX,
        ensures
            t.wf(),
            is_pow2(t.slots().len()),
            wanted_slots(mb) <= t.slots().len() < 2 * wanted_slots(mb),
            forall|i: int| 0 <= i < t.slots().len() ==> t.slots()[i] is None,
    {
        let mb1 = if mb < 1 { 1 } else { mb };
        let bytes = mb1 * 1024 * 1024;
        let s = std::mem::size_of::<Option<TTEntry>>();
        let entry_size = if s < 1 { 1 } else { s };
        let wanted = bytes / entry_size;
        let wanted = if wanted < 1024 { 1024 } else { wanted };
        let mut total: usize = 1;
        proof {
            reveal_with_fuel(is_pow2, 2);
        }
        assert(wanted == wanted_slots(mb));
        while total < wanted
            invariant
                1 <= total,
                total < 2 * wanted,
                1024 <= wanted,
                wanted <= usize::MAX / 2,
                is_pow2(total as nat),
            decreases 2 * wanted - total,
        {
            proof {
                assert((2 * total) as nat / 2 == total as nat);
                assert((2 * total) as nat % 2 == 0);
            }
            total = total * 2;
        }
        let mut entries: Vec<Option<TTEntry>> = Vec::new();
        let mut i: usize = 0;
        while i < total
            invariant
                i <= total,
                entries@.len() == i,
                forall|j: int| 0 <= j < i ==> entries@[j] is None,
            decreases total - i,
        {
            entries.push(None);
            i += 1;
        }
        TranspositionTable { entries, mask: (total - 1) as u64 }
    }

    /// Empties every slot.
    pub fn clear(&mut self)
        requires
            old(self).wf(),
        ensures
            final(self).wf(),
            final(self).slots().len() == old(self).slots().len(),
            forall|k: u64| #[trigger] final(self).slot_of(k) == old(self).slot_of(k),
            forall|i: int| 0 <= i < final(self).slots().len() ==> final(self).slots()[i] is None,
    {
        let n = self.entries.len();
        let mut i: usize = 0;
        while i < n
            invariant
                self.wf(),
                self.mask == old(self).mask,
                n == self.entries@.len(),
                i <= n,
                forall|j: int| 0 <= j < i ==> self.entries@[j] is None,
            decreases n - i,
        {
            self.entries.set(i, None);
            i += 1;
        }
    }

    /// The entry stored for `key`, if its slot holds that key.
    pub fn probe(&self, key: u64) -> (r: Option<TTProbe>)
        requires
            self.wf(),
        ensures
            r == self.probe_spec(key),
            forall|lim: int| #[trigger] self.scores_within(lim) ==> (r matches Some(p) ==> -lim <= p.score <= lim),
    {
        proof {
            self.lemma_slot_in_range(key);
        }
        let k = key & self.mask;
        let n = self.entries.len();
        assert(k < n);
        let idx = k as usize;
        assert(idx as int == self.slot_of(key));
        assert(self.entries@[idx as int] == self.slots()[self.slot_of(key)]);
        match self.entries[idx] {
            Some(e) => {
                if e.key == key {
                    Some(TTProbe { depth: e.depth, score: e.score, flag: e.flag, best_move: e.best_move })
                } else {
                    None
                }
            },
            None => None,
        }
    }

    /// Stores a search result for `key`, with its depth clamped into
    /// `0..=127`, unless its slot holds another position searched deeper.
    pub fn store(&mut self, key: u64, depth: i32, score: i32, flag: TTFlag, best_move: Option<Move>)
        requires
            old(self).wf(),
        ensures
            final(self).wf(),
            forall|k: u64| #[trigger] final(self).slot_of(k) == old(self).slot_of(k),
            forall|lim: int|
                #[trigger] old(self).scores_within(lim) && -lim <= score <= lim ==> final(self).scores_within(lim),
            final(self).slots() == (if old(self).replaces(key, depth) {
                old(self).slots().update(
                    old(self).slot_of(key),
                    Some(TTEntry { key, depth: stored_depth(depth), score, flag, best_move }),
                )
            } else {
                old(self).slots()
            }),
    {
        proof {
            self.lemma_slot_in_range(key);
        }
        let k = key & self.mask;
        let n = self.entries.len();
        assert(k < n);
        let idx = k as usize;
        assert(idx as int == self.slot_of(key));
        assert(self.entries@[idx as int] == self.slots()[self.slot_of(key)]);
        let d: i8 = if depth < 0 {
            0
        } else if depth > 127 {
            127
        } else {
            depth as i8
        };
        let replace = match self.entries[idx] {
            None => true,
            Some(existing) => existing.key == key || existing.depth <= d,
        };
        if replace {
            self.entries.set(idx, Some(TTEntry { key, depth: d, score, flag, best_move }));
        }
    }
}

/// What was stored is found again: after a store that writes its slot, a
/// probe of the same key gives back the stored depth (clamped), score,
/// kind and move.
pub proof fn lemma_store_then_probe(
    before: TranspositionTable,
    after: TranspositionTable,
    key: u64,
    depth: i32,
    score: i32,
    flag: TTFlag,
    best_move: Option<Move>,
)
    requires
        before.wf(),
        after.wf(),
        before.replaces(key, depth),
        forall|k: u64| #[trigger] after.slot_of(k) == before.slot_of(k),
        after.slots() == before.slots().update(
            before.slot_of(key),
            Some(TTEntry { key, depth: stored_depth(depth), score, flag, best_move }),
        ),
    ensures
        after.probe_spec(key) == Some(TTProbe { depth: stored_depth(depth), score, flag, best_move }),
{
    before.lemma_slot_in_range(key);
}

/// A cleared table finds nothing.
pub proof fn lemma_cleared_probe(t: TranspositionTable, key: u64)
    requires
        t.wf(),
        forall|i: int| 0 <= i < t.slots().len() ==> t.slots()[i] is None,
    ensures
        t.probe_spec(key) is None,
{
    t.lemma_slot_in_range(key);
}

} // verus!
