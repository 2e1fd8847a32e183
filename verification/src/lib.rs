//! Late fusion of scored search result lists for multi-source information
//! retrieval: entries produced by independent retrieval runs are grouped by
//! document identifier, each group's scores or ranks are reduced through a
//! combination function, and a single list sorted by descending combined
//! score is emitted.
//!
//! Document identifiers are opaque byte strings; scores are exact
//! fixed-point values (see [`Score`]).

use vstd::prelude::*;

mod scoring;

pub mod fuser;

pub mod trec;

pub use fuser::fuse_scored;
pub use scoring::score;
pub use trec::parse_from_trec;

pub use scoring::Score;
pub use scoring::MICRO_UNITS;
pub use scoring::SCALE;
pub use scoring::UNITS_LIMIT;

verus! {

/// A search result's rank: its position in a source list, lower is better.
pub type Rank = u32;

/// A minimal scored search result: a document identifier and its score.
#[derive(Debug, Clone, PartialEq, Eq)]
pub struct EntryInfo {
    /// The entry's document identifier.
    pub id: Vec<u8>,
    /// The entry's similarity score.
    pub score: Score,
}

/// A minimal scored and ranked search result.
#[derive(Debug, Clone, PartialEq, Eq)]
pub struct RankedEntryInfo {
    /// The entry's document identifier.
    pub id: Vec<u8>,
    /// The entry's similarity score.
    pub score: Score,
    /// The entry's rank.
    pub rank: Rank,
}

/// Wrapper assigning a rank to an arbitrary value.
#[derive(Debug, Clone, PartialEq, Eq)]
pub struct Ranked<T> {
    /// The attributed rank.
    pub rank: Rank,
    /// The inner value.
    pub inner: T,
}

/// A search result entry with a document identifier and a similarity score.
/// Types implement this trait to be admitted as fusion inputs.
pub trait SearchEntry {
    /// The entry's document identifier, as a mathematical byte string.
    spec fn id_spec(&self) -> Seq<u8>;

    /// The entry's score, as a unit count.
    spec fn score_spec(&self) -> int;

    /// Retrieves this entry's document identifier.
    fn id(&self) -> (r: &Vec<u8>)
        ensures
            r@ == self.id_spec(),
    ;

    /// Retrieves this entry's similarity score.
    fn score(&self) -> (r: Score)
        ensures
            r@ == self.score_spec(),
    ;

    /// Builds the minimal entry describing this result.
    fn to_entry(&self) -> (r: EntryInfo)
        ensures
            r.id@ == self.id_spec(),
            r.score@ == self.score_spec(),
    ;
}

/// A search entry that also knows its rank within its source list.
pub trait RankedSearchEntry: SearchEntry {
    /// The entry's rank.
    spec fn rank_spec(&self) -> Rank;

    /// Retrieves this entry's rank.
    fn rank(&self) -> (r: Rank)
        ensures
            r == self.rank_spec(),
    ;
}

impl SearchEntry for EntryInfo {
    open spec fn id_spec(&self) -> Seq<u8> {
        self.id@
    }

    open spec fn score_spec(&self) -> int {
        self.score@
    }

    fn id(&self) -> (r: &Vec<u8>) {
        &self.id
    }

    fn score(&self) -> (r: Score) {
        self.score
    }

    fn to_entry(&self) -> (r: EntryInfo) {
        let id = self.id.clone();
        assert(id@ =~= self.id@);
        EntryInfo { id, score: self.score }
    }
}

impl SearchEntry for RankedEntryInfo {
    open spec fn id_spec(&self) -> Seq<u8> {
        self.id@
    }

    open spec fn score_spec(&self) -> int {
        self.score@
    }

    fn id(&self) -> (r: &Vec<u8>) {
        &self.id
    }

    fn score(&self) -> (r: Score) {
        self.score
    }

    fn to_entry(&self) -> (r: EntryInfo) {
        let id = self.id.clone();
        assert(id@ =~= self.id@);
        EntryInfo { id, score: self.score }
    }
}

impl RankedSearchEntry for RankedEntryInfo {
    open spec fn rank_spec(&self) -> Rank {
        self.rank
    }

    fn rank(&self) -> (r: Rank) {
        self.rank
    }
}

impl<T: SearchEntry> SearchEntry for Ranked<T> {
    open spec fn id_spec(&self) -> Seq<u8> {
        self.inner.id_spec()
    }

    open spec fn score_spec(&self) -> int {
        self.inner.score_spec()
    }

    fn id(&self) -> (r: &Vec<u8>) {
        self.inner.id()
    }

    fn score(&self) -> (r: Score) {
        self.inner.score()
    }

    fn to_entry(&self) -> (r: EntryInfo) {
        self.inner.to_entry()
    }
}

impl<T: SearchEntry> RankedSearchEntry for Ranked<T> {
    open spec fn rank_spec(&self) -> Rank {
        self.rank
    }

    fn rank(&self) -> (r: Rank) {
        self.rank
    }
}

/// Ranks search results by their order of appearance: entry `i` of the
/// input list comes back wrapped with rank `i`.
pub fn ranked_list<R>(results: Vec<R>) -> (r: Vec<Ranked<R>>)
    requires
        results@.len() <= u32::MAX,
    ensures
        r@.len() == results@.len(),
        forall|i: int| #![trigger r@[i]]
            0 <= i < r@.len() ==> r@[i].rank as int == i && r@[i].inner == results@[i],
{
    let ghost orig = results@;
    let mut rest = results;
    let mut out: Vec<Ranked<R>> = Vec::new();
    while rest.len() > 0
        invariant
            orig.len() <= u32::MAX,
            out@.len() + rest@.len() == orig.len(),
            rest@ =~= orig.skip(out@.len() as int),
            forall|i: int| #![trigger out@[i]]
                0 <= i < out@.len() ==> out@[i].rank as int == i && out@[i].inner == orig[i],
        decreases rest@.len(),
    {
        let ghost k = out@.len() as int;
        let ghost prev = out@;
        let rank = out.len() as u32;
        let inner = rest.remove(0);
        proof {
            assert(orig.skip(k)[0] == orig[k]);
            assert(inner == orig[k]);
            assert(k + 1 <= orig.len());
            assert(orig.len() <= u32::MAX as int);
            assert(rank as int == k);
        }
        out.push(Ranked { rank, inner });
        proof {
            assert forall|i: int| #![trigger out@[i]]
                0 <= i < out@.len() implies out@[i].rank as int == i && out@[i].inner
                == orig[i] by {
                if i < prev.len() {
                    assert(out@[i] == prev[i]);
                } else {
                    assert(out@[i] == (Ranked { rank, inner }));
                }
            }
            assert(rest@ =~= orig.skip(k + 1));
        }
    }
    out
}

} // verus!
