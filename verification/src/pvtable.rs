//! The transposition table and the principal variation.

use crate::movgen::Move;
use vstd::prelude::*;

verus! {

/// Slots of the transposition table.
pub const NUM_ENTRIES: u64 = 10485760;

/// The deepest ply that the search reaches.
pub const MAX_DEPTH: usize = 64;

/// What the score of an entry says of the true value of its position.
#[derive(Debug, Clone, Copy, PartialEq, Eq, Structural)]
pub enum EntryFlags {
    /// The slot was never written.
    Blank,
    /// An upper bound: no move raised alpha.
    Alpha,
    /// A lower bound: a move reached beta.
    Beta,
    /// The exact value.
    Exact,
}

/// What the search found out about one position.
#[derive(Debug, Clone, Copy)]
pub struct HashEntry {
    pub m: Move,
    pub score: i16,
    pub depth: u8,
    pub flags: EntryFlags,
}

impl HashEntry {
    /// The content of a slot that was never written.
    pub open spec fn blank() -> HashEntry {
        HashEntry { m: Move::null(), score: 0, depth: 0, flags: EntryFlags::Blank }
    }

    /// The blank entry.
    pub fn new() -> (r: Self)
        ensures
            r == Self::blank(),
    {
        Self { m: Move::new(), score: 0, depth: 0, flags: EntryFlags::Blank }
    }
}

/// A table of fixed size that keeps, for each slot, the entry stored last
/// together with the full key of its position.
pub struct HashTable {
    pub entries: Vec<(u64, HashEntry)>,
}

impl HashTable {
    /// The table has its full size and no entry holds the one score that has no negative.
    pub open spec fn wf(&self) -> bool {
        &&& self.entries.len() == NUM_ENTRIES
        &&& forall|i: int| 0 <= i < NUM_ENTRIES ==> (#[trigger] self.entries[i]).1.score > -32768
    }

    /// The slot that belongs to the key `pk`.
    pub open spec fn slot(pk: u64) -> int {
        pk as int % NUM_ENTRIES as int
    }

    /// What `probe` finds under the key `pk`: the entry of the key's slot
    /// if it was stored under this very key, and nothing in a slot that was
    /// never written.
    pub open spec fn lookup(&self, pk: u64) -> Option<HashEntry> {
        let e = self.entries[Self::slot(pk)];
        if e.0 == pk && e.1.flags != EntryFlags::Blank {
            Some(e.1)
        } else {
            None
        }
    }

    /// The table holds no entry.
    pub open spec fn is_empty(&self) -> bool {
        forall|pk: u64| #[trigger] self.lookup(pk).is_none()
    }

    /// A table of `NUM_ENTRIES` slots that holds no entry.
    pub fn new() -> (r: Self)
        ensures
            r.wf(),
            forall|i: int| 0 <= i < NUM_ENTRIES ==> r.entries[i] == (0u64, HashEntry::blank()),
            r.is_empty(),
    {
        let mut entries: Vec<(u64, HashEntry)> = Vec::with_capacity(NUM_ENTRIES as usize);
        let mut i: u64 = 0;
        while i < NUM_ENTRIES
            invariant
                i <= NUM_ENTRIES,
                entries.len() == i,
                forall|j: int| 0 <= j < i ==> entries[j] == (0u64, HashEntry::blank()),
            decreases NUM_ENTRIES - i,
        {
            entries.push((0, HashEntry::new()));
            i += 1;
        }
        Self { entries }
    }

    /// Forgets every entry; the table keeps its size.
    pub fn clear(&mut self)
        requires
            old(self).wf(),
        ensures
            final(self).wf(),
            forall|i: int| 0 <= i < NUM_ENTRIES ==> final(self).entries[i] == (0u64, HashEntry::blank()),
            final(self).is_empty(),
    {
        let mut i: usize = 0;
        while i < NUM_ENTRIES as usize
            invariant
                i <= NUM_ENTRIES,
                self.entries.len() == NUM_ENTRIES,
                forall|j: int| 0 <= j < i ==> self.entries[j] == (0u64, HashEntry::blank()),
            decreases NUM_ENTRIES - i,
        {
            self.entries.set(i, (0, HashEntry::new()));
            i += 1;
        }
    }

    /// Stores `e` under the key `pk`, replacing whatever its slot held.
    pub fn store(&mut self, pk: u64, e: HashEntry)
        requires
            old(self).wf(),
            e.score > -32768,
        ensures
            final(self).wf(),
            final(self).entries@ == old(self).entries@.update(Self::slot(pk), (pk, e)),
            final(self).lookup(pk) == if e.flags == EntryFlags::Blank {
                None
            } else {
                Some(e)
            },
            forall|k: u64|
                Self::slot(k) != Self::slot(pk) ==> final(self).lookup(k) == old(self).lookup(k),
    {
        self.entries.set((pk % NUM_ENTRIES) as usize, (pk, e));
    }

    /// The entry stored under the key `pk`, unless its slot holds another
    /// key or was never written.
    pub fn probe(&self, pk: u64) -> (r: Option<HashEntry>)
        requires
            self.wf(),
        ensures
            r == self.lookup(pk),
            r.is_some() ==> r.unwrap().score > -32768,
    {
        let e = &self.entries[(pk % NUM_ENTRIES) as usize];
        if e.0 == pk && e.1.flags != EntryFlags::Blank {
            Some(e.1)
        } else {
            None
        }
    }
}

/// The line of best play found by the search, first move first.
pub struct PVLine {
    pub data: [Move; MAX_DEPTH],
    pub n: usize,
}

impl PVLine {
    /// The line is no longer than its buffer.
    pub open spec fn wf(&self) -> bool {
        self.n <= MAX_DEPTH
    }

    /// The moves of the line.
    pub open spec fn view(&self) -> Seq<Move> {
        self.data@.take(self.n as int)
    }

    /// An empty line.
    pub fn new() -> (r: Self)
        ensures
            r.wf(),
            r.n == 0,
            r@ == Seq::<Move>::empty(),
    {
        Self { data: [Move::new(); MAX_DEPTH], n: 0 }
    }

    /// Appends a move to the line.
    pub fn push(&mut self, m: Move)
        requires
            old(self).wf(),
            old(self).n < MAX_DEPTH,
        ensures
            final(self).wf(),
            final(self).n == old(self).n + 1,
            final(self)@ == old(self)@.push(m),
    {
        self.data[self.n] = m;
        self.n += 1;
        proof {
            assert(self@ =~= old(self)@.push(m));
        }
    }

    /// The `i`-th move of the line.
    pub fn get(&self, i: usize) -> (m: Move)
        requires
            self.wf(),
            i < self.n,
        ensures
            m == self@[i as int],
    {
        self.data[i]
    }

    /// The moves of the line, in order.
    pub fn iter(&self) -> (r: Vec<Move>)
        requires
            self.wf(),
        ensures
            r@ == self@,
    {
        let mut out: Vec<Move> = Vec::new();
        let mut i: usize = 0;
        while i < self.n
            invariant
                i <= self.n,
                self.n <= MAX_DEPTH,
                out@ == self.data@.take(i as int),
            decreases self.n - i,
        {
            out.push(self.data[i]);
            proof {
                assert(self.data@.take(i + 1) =~= self.data@.take(i as int).push(self.data[i as int]));
            }
            i += 1;
        }
        out
    }

    /// Empties the line.
    pub fn clear(&mut self)
        ensures
            final(self).wf(),
            final(self).n == 0,
            final(self)@ == Seq::<Move>::empty(),
    {
        self.n = 0;
    }

    /// The number of moves of the line.
    pub fn len(&self) -> (r: usize)
        ensures
            r == self.n,
    {
        self.n
    }
}

} // verus!
