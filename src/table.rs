//! The transposition table: search results keyed by both bitboards and the depth budget.
use vstd::prelude::*;
use fxhash::FxHashMap;

verus! {

#[derive(Clone, Copy, Debug, PartialEq, Eq, Structural)]
pub enum ScoreKind {
    Exact,
    LowerBound,
    UpperBound,
}

/// A stored search result: a score and how it bounds the true value.
#[derive(Clone, Copy, Debug, PartialEq, Eq, Structural)]
pub struct Score {
    pub value: i32,
    pub kind: ScoreKind,
}

impl Score {
    /// The stored score is correct about the value `v`.
    pub open spec fn bounds(self, v: int) -> bool {
        match self.kind {
            ScoreKind::Exact => v == self.value,
            ScoreKind::LowerBound => v >= self.value,
            ScoreKind::UpperBound => v <= self.value,
        }
    }
}

/// Key of a table entry: the two bitboards and the depth budget.
pub type Key = ([u64; 2], i32);

#[verifier::external_body]
pub struct TranspositionTable {
    map: FxHashMap<Key, Score>,
}

/// A table without entries.
pub open spec fn no_entries() -> Map<Key, Score> {
    Map::empty()
}

/// The entries of a table.
pub uninterp spec fn table_entries(t: TranspositionTable) -> Map<Key, Score>;

impl TranspositionTable {
    /// Relies on `FxHashMap::default`: an empty map.
    #[verifier::external_body]
    pub(crate) fn new() -> (r: TranspositionTable)
        ensures
            table_entries(r) == no_entries(),
    {
        TranspositionTable { map: FxHashMap::default() }
    }

    /// Relies on `HashMap::get`: the entry stored under exactly this key, if any.
    #[verifier::external_body]
    pub(crate) fn get(&self, key: &Key) -> (r: Option<Score>)
        ensures
            r == if table_entries(*self).contains_key(*key) {
                Some(table_entries(*self)[*key])
            } else {
                None
            },
    {
        self.map.get(key).copied()
    }

    /// Relies on `HashMap::insert`: stores the entry, replacing one under the same key.
    #[verifier::external_body]
    pub(crate) fn insert(&mut self, key: Key, score: Score)
        ensures
            table_entries(*final(self)) == table_entries(*old(self)).insert(key, score),
    {
        self.map.insert(key, score);
    }

    /// Relies on `HashMap::clear`: removes every entry.
    #[verifier::external_body]
    pub(crate) fn clear(&mut self)
        ensures
            table_entries(*final(self)) == no_entries(),
    {
        self.map.clear();
    }
}

} // verus!
