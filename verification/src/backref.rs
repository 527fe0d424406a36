//! Back-references: the ids that `SYSTABLE` rows store before their row tags.
//!
//! A `SYSTABLE` row stores the id that `SYSCOLUMN` rows carry as their owner,
//! some bytes *before* its row tag:
//!
//! ```text
//! ... <table_id u32_LE> ..26 bytes.. 05 00 00 00 <tid u32_LE> 00 00 00 00
//!     ^ row_offset - 30                          ^ row_offset
//! ```
//!
//! The distance is calibrated per file, by trying every distance in
//! [`BACKREF_MIN_DISTANCE`]`..=`[`BACKREF_MAX_DISTANCE`] and keeping the one that
//! yields the most distinct pairs of table name and owner whose owner is an id
//! other than zero that `SYSCOLUMN` rows use.

use std::collections::HashSet;

use vstd::prelude::*;

use crate::owner_bridge::{BridgeSource, OwnerBridge};
use crate::syscolumn;
use crate::syscolumn::read_u32_le;
use crate::text;
use crate::text::{same_text, text_not_after};

verus! {

/// Distance in bytes before the `SYSTABLE` row tag at which the row usually
/// stores the owner id.
pub const DEFAULT_BACKREF_DISTANCE: usize = 30;

/// Smallest distance considered when calibrating the back-reference. Anything
/// closer overlaps the row tag itself.
pub const BACKREF_MIN_DISTANCE: usize = 4;

/// Largest distance considered when calibrating the back-reference.
pub const BACKREF_MAX_DISTANCE: usize = 96;

/// Number of distances considered.
pub const BACKREF_DISTANCES: usize = 93;

/// Minimum number of distinct `(name, owner)` pairs a candidate distance must
/// produce before it is trusted as the file's back-reference.
pub const MIN_CALIBRATION_PAIRS: usize = 4;

/// The number stored `distance` bytes before `row_offset`, if it lies on the page.
pub open spec fn backref(plain: Seq<u8>, row_offset: int, distance: int) -> Option<u32> {
    if 0 <= row_offset - distance && row_offset - distance + 4 <= plain.len() {
        Some(syscolumn::u32_le_at(plain, row_offset - distance))
    } else {
        None
    }
}

/// Reads the little-endian number stored `distance` bytes before `row_offset`.
pub fn backref_at(plain: &[u8], row_offset: usize, distance: usize) -> (id: Option<u32>)
    ensures
        id == backref(plain@, row_offset as int, distance as int),
{
    if row_offset < distance || plain.len() < 4 || row_offset - distance > plain.len() - 4 {
        None
    } else {
        Some(read_u32_le(plain, row_offset - distance))
    }
}

/// How often each owner was sighted with each table name, by distance.
pub type Tally = spec_fn(int, u32, Seq<char>) -> nat;

/// The distance is one of those considered.
pub open spec fn is_candidate(distance: int) -> bool {
    BACKREF_MIN_DISTANCE <= distance <= BACKREF_MAX_DISTANCE
}

/// The distinct pairs of owner and table name that a distance yields.
pub open spec fn pairs_at(tally: Tally, distance: int) -> Set<(u32, Seq<char>)> {
    Set::new(|p: (u32, Seq<char>)| tally(distance, p.0, p.1) > 0)
}

/// `best` is the distance that yields the most pairs, the smallest one where
/// several do, and there is none when even the best yields too few pairs.
pub open spec fn is_best_distance(tally: Tally, best: Option<usize>) -> bool {
    match best {
        Some(d) => {
            &&& is_candidate(d as int)
            &&& pairs_at(tally, d as int).len() >= MIN_CALIBRATION_PAIRS
            &&& forall|e: int| #[trigger]
                is_candidate(e) ==> pairs_at(tally, e).len() < pairs_at(tally, d as int).len() || (
                pairs_at(tally, e).len() == pairs_at(tally, d as int).len() && d <= e)
        },
        None => forall|e: int| #[trigger]
            is_candidate(e) ==> pairs_at(tally, e).len() < MIN_CALIBRATION_PAIRS,
    }
}

/// `name` was sighted with `owner` more often than any other name, and comes
/// first among those that were sighted as often.
pub open spec fn is_majority(tally: Tally, distance: int, owner: u32, name: Seq<char>) -> bool {
    &&& tally(distance, owner, name) > 0
    &&& forall|other: Seq<char>|
        #![trigger tally(distance, owner, other)]
        tally(distance, owner, other) > 0 ==> tally(distance, owner, other) < tally(
            distance,
            owner,
            name,
        ) || (tally(distance, owner, other) == tally(distance, owner, name) && text::text_le(
            name,
            other,
        ))
}

/// The owners that were sighted at all.
pub open spec fn owners_at(tally: Tally, distance: int) -> Set<u32> {
    Set::new(|o: u32| exists|n: Seq<char>| #[trigger] tally(distance, o, n) > 0)
}

/// The owners that were sighted with more than one name.
pub open spec fn ambiguous_at(tally: Tally, distance: int) -> Set<u32> {
    Set::new(
        |o: u32|
            exists|n: Seq<char>, m: Seq<char>|
                n != m && #[trigger] tally(distance, o, n) > 0 && #[trigger] tally(distance, o, m)
                    > 0,
    )
}

/// `bridge` maps every sighted owner to its majority name.
pub open spec fn is_bridge_at(tally: Tally, distance: usize, bridge: OwnerBridge) -> bool {
    &&& bridge.wf()
    &&& bridge.backref_distance == Some(distance)
    &&& bridge@.dom() == owners_at(tally, distance as int)
    &&& forall|o: u32| #[trigger]
        bridge@.contains_key(o) ==> is_majority(tally, distance as int, o, bridge@[o].0)
            && bridge@[o].1 == BridgeSource::SysTableBackref
    &&& bridge.from_backref == bridge@.dom().len()
    &&& bridge.from_sysobject == 0
    &&& bridge.ambiguous_owners == ambiguous_at(tally, distance as int).len()
}

/// The row at `row_offset` of the page, whose table name is `row_name`, is a
/// sighting of `owner` and `name` at `distance`.
pub open spec fn is_sighting(
    plain: Seq<u8>,
    row_offset: int,
    row_name: Seq<char>,
    owners: Set<u32>,
    distance: int,
    owner: u32,
    name: Seq<char>,
) -> bool {
    &&& is_candidate(distance)
    &&& row_name == name
    &&& owner != 0
    &&& owners.contains(owner)
    &&& backref(plain, row_offset, distance) == Some(owner)
}

/// The number of rows of a page that are sightings of `owner` and `name` at
/// `distance`.
pub open spec fn sightings(
    plain: Seq<u8>,
    rows: Seq<(usize, &str)>,
    owners: Set<u32>,
    distance: int,
    owner: u32,
    name: Seq<char>,
) -> nat
    decreases rows.len(),
{
    if rows.len() == 0 {
        0
    } else {
        sightings(plain, rows.drop_last(), owners, distance, owner, name) + if is_sighting(
            plain,
            rows.last().0 as int,
            rows.last().1@,
            owners,
            distance,
            owner,
            name,
        ) {
            1nat
        } else {
            0
        }
    }
}

/// How often one owner was sighted with one name.
#[derive(Debug)]
struct Vote {
    owner: u32,
    name: String,
    sightings: u64,
}

spec fn is_vote_for(v: Vote, owner: u32, name: Seq<char>) -> bool {
    v.owner == owner && v.name@ == name
}

spec fn has_vote(votes: Seq<Vote>, owner: u32, name: Seq<char>) -> bool {
    exists|i: int| 0 <= i < votes.len() && is_vote_for(#[trigger] votes[i], owner, name)
}

spec fn vote_count(votes: Seq<Vote>, owner: u32, name: Seq<char>) -> nat {
    if has_vote(votes, owner, name) {
        let i = choose|i: int| 0 <= i < votes.len() && is_vote_for(#[trigger] votes[i], owner, name);
        votes[i].sightings as nat
    } else {
        0
    }
}

/// No pair of owner and name occurs twice, and each was sighted.
spec fn votes_wf(votes: Seq<Vote>) -> bool {
    &&& forall|i: int, j: int|
        0 <= i < j < votes.len() ==> !(#[trigger] votes[i].owner == #[trigger] votes[j].owner
            && votes[i].name@ == votes[j].name@)
    &&& forall|i: int| 0 <= i < votes.len() ==> (#[trigger] votes[i]).sightings > 0
}

proof fn lemma_vote_count(votes: Seq<Vote>, i: int)
    requires
        votes_wf(votes),
        0 <= i < votes.len(),
    ensures
        vote_count(votes, votes[i].owner, votes[i].name@) == votes[i].sightings,
{
    assert(is_vote_for(votes[i], votes[i].owner, votes[i].name@));
}

fn add_vote(votes: &mut Vec<Vote>, owner: u32, name: &str)
    requires
        votes_wf(old(votes)@),
        vote_count(old(votes)@, owner, name@) < u64::MAX,
    ensures
        votes_wf(final(votes)@),
        forall|o: u32, n: Seq<char>| #[trigger]
            vote_count(final(votes)@, o, n) == vote_count(old(votes)@, o, n) + if o == owner && n
                == name@ {
                1nat
            } else {
                0
            },
{
    let ghost before = votes@;
    let len: usize = votes.len();
    for i in 0..len
        invariant
            votes@ == before,
            before == old(votes)@,
            len == before.len(),
            votes_wf(before),
            vote_count(before, owner, name@) < u64::MAX,
            forall|j: int| 0 <= j < i ==> !is_vote_for(#[trigger] before[j], owner, name@),
    {
        if votes[i].owner == owner && same_text(votes[i].name.as_str(), name) {
            proof {
                lemma_vote_count(before, i as int);
            }
            let n: u64 = votes[i].sightings + 1;
            votes[i].sightings = n;
            proof {
                let after = votes@;
                assert(forall|j: int|
                    0 <= j < before.len() ==> (#[trigger] after[j]).owner == before[j].owner
                        && after[j].name@ == before[j].name@);
                assert(votes_wf(after));
                assert forall|o: u32, m: Seq<char>| #[trigger]
                    vote_count(after, o, m) == vote_count(before, o, m) + if o == owner && m
                        == name@ {
                        1nat
                    } else {
                        0
                    } by {
                    if has_vote(before, o, m) {
                        let j = choose|j: int|
                            0 <= j < before.len() && is_vote_for(#[trigger] before[j], o, m);
                        lemma_vote_count(before, j);
                        lemma_vote_count(after, j);
                    }
                    if has_vote(after, o, m) {
                        let j = choose|j: int|
                            0 <= j < after.len() && is_vote_for(#[trigger] after[j], o, m);
                        assert(is_vote_for(before[j], o, m));
                    }
                }
            }
            return;
        }
    }
    let vote = Vote { owner, name: name.to_owned(), sightings: 1 };
    votes.push(vote);
    proof {
        let after = votes@;
        assert(!has_vote(before, owner, name@));
        assert(votes_wf(after));
        assert forall|o: u32, m: Seq<char>| #[trigger]
            vote_count(after, o, m) == vote_count(before, o, m) + if o == owner && m == name@ {
                1nat
            } else {
                0
            } by {
            if has_vote(before, o, m) {
                let j = choose|j: int|
                    0 <= j < before.len() && is_vote_for(#[trigger] before[j], o, m);
                lemma_vote_count(before, j);
                assert(after[j] == before[j]);
                lemma_vote_count(after, j);
            } else if o == owner && m == name@ {
                lemma_vote_count(after, before.len() as int);
            } else {
                assert(!has_vote(after, o, m)) by {
                    if has_vote(after, o, m) {
                        let j = choose|j: int|
                            0 <= j < after.len() && is_vote_for(#[trigger] after[j], o, m);
                        if j < before.len() {
                            assert(is_vote_for(before[j], o, m));
                        }
                    }
                }
            }
        }
    }
}

/// Tally of the sightings of owners and table names, by distance: it picks the
/// file's back-reference distance, and then gives the map.
#[derive(Debug)]
pub struct BackrefVotes {
    votes: Vec<Vec<Vote>>,
    rows_seen: usize,
}

impl Default for BackrefVotes {
    fn default() -> (votes: Self)
        ensures
            votes.wf(),
            votes.seen() == 0,
            forall|d: int, o: u32, n: Seq<char>| #[trigger] votes.count(d, o, n) == 0,
    {
        Self::new()
    }
}

fn copy_votes(votes: &Vec<Vote>) -> (copy: Vec<Vote>)
    ensures
        copy@ == votes@,
{
    let mut copy: Vec<Vote> = Vec::new();
    for i in 0..votes.len()
        invariant
            copy@ == votes@.take(i as int),
    {
        let v = &votes[i];
        copy.push(Vote { owner: v.owner, name: v.name.clone(), sightings: v.sightings });
        assert(copy@ =~= votes@.take(i + 1));
    }
    assert(votes@.take(votes@.len() as int) =~= votes@);
    copy
}

impl Clone for BackrefVotes {
    /// The copy has the same counts.
    fn clone(&self) -> (copy: Self)
        ensures
            self.wf() ==> copy.wf() && copy.seen() == self.seen() && copy.tally() == self.tally(),
    {
        let mut votes: Vec<Vec<Vote>> = Vec::new();
        for k in 0..self.votes.len()
            invariant
                votes@.len() == k,
                forall|j: int| 0 <= j < k ==> (#[trigger] votes@[j])@ == self.votes@[j]@,
        {
            votes.push(copy_votes(&self.votes[k]));
        }
        let copy = BackrefVotes { votes, rows_seen: self.rows_seen };
        proof {
            if self.wf() {
                assert forall|d: int, o: u32, n: Seq<char>| #[trigger]
                    copy.count(d, o, n) == self.count(d, o, n) by {
                    assert(copy.votes_at(d) == self.votes_at(d));
                }
                assert forall|k: int| 0 <= k < copy.votes@.len() implies votes_wf(
                    #[trigger] copy.votes@[k]@,
                ) by {
                    assert(votes_wf(self.votes@[k]@));
                }
                assert(copy.tally() =~= self.tally());
            }
        }
        copy
    }
}

impl BackrefVotes {
    spec fn votes_at(&self, distance: int) -> Seq<Vote> {
        if is_candidate(distance) {
            self.votes@[distance - BACKREF_MIN_DISTANCE]@
        } else {
            seq![]
        }
    }

    /// How often `owner` was sighted with `name` at `distance`.
    pub closed spec fn count(&self, distance: int, owner: u32, name: Seq<char>) -> nat {
        vote_count(self.votes_at(distance), owner, name)
    }

    /// All counts.
    pub open spec fn tally(&self) -> Tally {
        |d: int, o: u32, n: Seq<char>| self.count(d, o, n)
    }

    /// Rows observed so far.
    pub closed spec fn seen(&self) -> nat {
        self.rows_seen as nat
    }

    /// The tally is in good order.
    pub closed spec fn wf(&self) -> bool {
        &&& self.votes@.len() == BACKREF_DISTANCES
        &&& forall|k: int| 0 <= k < self.votes@.len() ==> votes_wf(#[trigger] self.votes@[k]@)
        &&& forall|d: int, o: u32, n: Seq<char>| #[trigger] self.count(d, o, n) <= self.seen()
    }

    /// `self` is `before` with the sightings of the rows of one page added, and the
    /// rows counted.
    pub open spec fn has_observed(
        &self,
        before: &BackrefVotes,
        plain: Seq<u8>,
        rows: Seq<(usize, &str)>,
        owners: Set<u32>,
    ) -> bool {
        &&& self.seen() == before.seen() + rows.len()
        &&& forall|d: int, o: u32, n: Seq<char>| #[trigger]
            self.count(d, o, n) == before.count(d, o, n) + sightings(plain, rows, owners, d, o, n)
    }

    /// Empty tally.
    pub fn new() -> (votes: Self)
        ensures
            votes.wf(),
            votes.seen() == 0,
            forall|d: int, o: u32, n: Seq<char>| #[trigger] votes.count(d, o, n) == 0,
    {
        let mut votes: Vec<Vec<Vote>> = Vec::new();
        while votes.len() < BACKREF_DISTANCES
            invariant
                votes@.len() <= BACKREF_DISTANCES,
                forall|k: int| 0 <= k < votes@.len() ==> (#[trigger] votes@[k])@.len() == 0,
            decreases BACKREF_DISTANCES - votes@.len(),
        {
            votes.push(Vec::new());
        }
        BackrefVotes { votes, rows_seen: 0 }
    }

    /// Records the candidate back-references of one row.
    fn observe_row(
        &mut self,
        plain: &[u8],
        row_offset: usize,
        name: &str,
        owners: &HashSet<u32>,
    )
        requires
            old(self).wf(),
            old(self).seen() < usize::MAX,
        ensures
            final(self).wf(),
            final(self).seen() == old(self).seen() + 1,
            forall|d: int, o: u32, n: Seq<char>| #[trigger]
                final(self).count(d, o, n) == old(self).count(d, o, n) + if is_sighting(
                    plain@,
                    row_offset as int,
                    name@,
                    owners@,
                    d,
                    o,
                    n,
                ) {
                    1nat
                } else {
                    0
                },
    {
        broadcast use vstd::std_specs::hash::group_hash_axioms;

        let ghost before = *self;
        let mut k: usize = 0;
        while k < BACKREF_DISTANCES
            invariant
                k <= BACKREF_DISTANCES,
                before.wf(),
                before.seen() < usize::MAX,
                self.votes@.len() == BACKREF_DISTANCES,
                self.rows_seen == before.rows_seen,
                forall|j: int| 0 <= j < self.votes@.len() ==> votes_wf(#[trigger] self.votes@[j]@),
                forall|d: int, o: u32, n: Seq<char>| #[trigger]
                    self.count(d, o, n) == before.count(d, o, n) + if d < BACKREF_MIN_DISTANCE + k
                        && is_sighting(plain@, row_offset as int, name@, owners@, d, o, n) {
                        1nat
                    } else {
                        0
                    },
            decreases BACKREF_DISTANCES - k,
        {
            let distance: usize = BACKREF_MIN_DISTANCE + k;
            let ghost so_far = *self;
            if let Some(owner) = backref_at(plain, row_offset, distance) {
                if owner != 0 && owners.contains(&owner) {
                    assert(so_far.count(distance as int, owner, name@) <= before.seen());
                    add_vote(&mut self.votes[k], owner, name);
                    assert(forall|j: int|
                        0 <= j < self.votes@.len() && j != k ==> self.votes@[j]
                            == so_far.votes@[j]);
                    assert forall|d: int, o: u32, n: Seq<char>| #[trigger]
                        self.count(d, o, n) == so_far.count(d, o, n) + if d == distance && o
                            == owner && n == name@ {
                            1nat
                        } else {
                            0
                        } by {
                        if d != distance {
                            assert(self.votes_at(d) == so_far.votes_at(d));
                        }
                    }
                }
            }
            k = k + 1;
        }
        let ghost counted = *self;
        self.rows_seen = self.rows_seen + 1;
        proof {
            assert forall|d: int, o: u32, n: Seq<char>| #[trigger]
                self.count(d, o, n) == before.count(d, o, n) + if is_sighting(
                    plain@,
                    row_offset as int,
                    name@,
                    owners@,
                    d,
                    o,
                    n,
                ) {
                    1nat
                } else {
                    0
                } by {
                assert(self.votes_at(d) == counted.votes_at(d));
                assert(self.count(d, o, n) == counted.count(d, o, n));
            }
        }
    }

    /// Records every candidate back-reference for the `SYSTABLE` rows of one
    /// decoded page.
    ///
    /// `rows` gives the offset and the table name of each row found on the page;
    /// `owners` is the set of ids that `SYSCOLUMN` rows use. A candidate only
    /// counts when it names an owner other than zero from that set, which keeps
    /// the zero padding inside the row from winning the calibration.
    pub fn observe_page(&mut self, plain: &[u8], rows: &[(usize, &str)], owners: &HashSet<u32>)
        requires
            old(self).wf(),
            old(self).seen() + rows@.len() <= usize::MAX,
        ensures
            final(self).wf(),
            final(self).has_observed(old(self), plain@, rows@, owners@),
    {
        let ghost before = *self;
        for k in 0..rows.len()
            invariant
                before == *old(self),
                self.wf(),
                before.seen() + rows@.len() <= usize::MAX,
                self.seen() == before.seen() + k,
                forall|d: int, o: u32, n: Seq<char>| #[trigger]
                    self.count(d, o, n) == before.count(d, o, n) + sightings(
                        plain@,
                        rows@.take(k as int),
                        owners@,
                        d,
                        o,
                        n,
                    ),
        {
            let row = rows[k];
            self.observe_row(plain, row.0, row.1, owners);
            assert(rows@.take(k + 1).drop_last() =~= rows@.take(k as int));
            assert(rows@.take(k + 1).last() == rows@[k as int]);
        }
        assert(rows@.take(rows@.len() as int) =~= rows@);
    }

    /// `SYSTABLE` rows observed so far.
    pub fn rows_seen(&self) -> (n: usize)
        ensures
            n == self.seen(),
    {
        self.rows_seen
    }

    proof fn lemma_pairs(&self, distance: int)
        requires
            self.wf(),
        ensures
            pairs_at(self.tally(), distance).finite(),
            pairs_at(self.tally(), distance).len() == self.votes_at(distance).len(),
    {
        let votes = self.votes_at(distance);
        let tally = self.tally();
        let pairs = votes.map_values(|v: Vote| (v.owner, v.name@));
        assert(pairs.no_duplicates()) by {
            assert forall|i: int, j: int|
                0 <= i < pairs.len() && 0 <= j < pairs.len() && i != j implies pairs[i]
                != pairs[j] by {
                assert(pairs[i] == (votes[i].owner, votes[i].name@));
                assert(pairs[j] == (votes[j].owner, votes[j].name@));
            }
        }
        pairs.unique_seq_to_set();
        assert forall|p: (u32, Seq<char>)|
            pairs.to_set().contains(p) <==> pairs_at(tally, distance).contains(p) by {
            if pairs.to_set().contains(p) {
                let i = choose|i: int| 0 <= i < pairs.len() && pairs[i] == p;
                lemma_vote_count(votes, i);
                assert(tally(distance, p.0, p.1) > 0);
            }
            if pairs_at(tally, distance).contains(p) {
                assert(vote_count(votes, p.0, p.1) > 0);
                let i = choose|i: int|
                    0 <= i < votes.len() && is_vote_for(#[trigger] votes[i], p.0, p.1);
                assert(pairs[i] == p);
            }
        }
        assert(pairs.to_set() =~= pairs_at(tally, distance));
    }

    /// Number of distinct pairs of owner and name that a distance yields.
    pub fn score(&self, distance: usize) -> (n: usize)
        requires
            self.wf(),
        ensures
            n == pairs_at(self.tally(), distance as int).len(),
            pairs_at(self.tally(), distance as int).finite(),
    {
        proof {
            self.lemma_pairs(distance as int);
        }
        if distance < BACKREF_MIN_DISTANCE || distance > BACKREF_MAX_DISTANCE {
            0
        } else {
            self.votes[distance - BACKREF_MIN_DISTANCE].len()
        }
    }

    /// Distance that explains the most pairs of owner and name. Ties go to the
    /// smaller distance.
    pub fn best_distance(&self) -> (best: Option<usize>)
        requires
            self.wf(),
        ensures
            is_best_distance(self.tally(), best),
    {
        let ghost tally = self.tally();
        let mut best: usize = BACKREF_MIN_DISTANCE;
        let mut best_score: usize = self.score(best);
        let mut d: usize = BACKREF_MIN_DISTANCE + 1;
        while d <= BACKREF_MAX_DISTANCE
            invariant
                self.wf(),
                tally == self.tally(),
                BACKREF_MIN_DISTANCE < d <= BACKREF_MAX_DISTANCE + 1,
                BACKREF_MIN_DISTANCE <= best < d,
                best_score == pairs_at(tally, best as int).len(),
                forall|e: int|
                    BACKREF_MIN_DISTANCE <= e < d ==> (#[trigger] pairs_at(tally, e)).len()
                        < best_score || (pairs_at(tally, e).len() == best_score && best <= e),
            decreases BACKREF_MAX_DISTANCE + 1 - d,
        {
            let score: usize = self.score(d);
            if score > best_score {
                best = d;
                best_score = score;
            }
            d = d + 1;
        }
        if best_score >= MIN_CALIBRATION_PAIRS {
            Some(best)
        } else {
            None
        }
    }

    /// Builds the map from owners to names for `distance`. An owner that was
    /// sighted with several names gets the one sighted most often, and the first
    /// of them where several were.
    pub fn bridge_at(&self, distance: usize) -> (bridge: OwnerBridge)
        requires
            self.wf(),
        ensures
            is_bridge_at(self.tally(), distance, bridge),
    {
        let ghost tally = self.tally();
        let ghost d = distance as int;
        let mut bridge = OwnerBridge::default();
        bridge.backref_distance = Some(distance);
        if distance < BACKREF_MIN_DISTANCE || distance > BACKREF_MAX_DISTANCE {
            proof {
                assert(forall|o: u32, n: Seq<char>| #[trigger] tally(d, o, n) == 0);
                assert(owners_at(tally, d) =~= Set::<u32>::empty());
                assert(ambiguous_at(tally, d) =~= Set::<u32>::empty());
                assert(bridge@.dom() =~= Set::<u32>::empty());
            }
            return bridge;
        }
        let votes = &self.votes[distance - BACKREF_MIN_DISTANCE];
        assert(votes@ == self.votes_at(d));
        let ghost mut several = Set::<u32>::empty();
        for k in 0..votes.len()
            invariant
                self.wf(),
                tally == self.tally(),
                d == distance,
                votes@ == self.votes_at(d),
                votes_wf(votes@),
                bridge.wf(),
                bridge.backref_distance == Some(distance),
                bridge.from_sysobject == 0,
                bridge@.dom().finite(),
                bridge.from_backref == bridge@.dom().len(),
                bridge.from_backref <= k,
                several.finite(),
                bridge.ambiguous_owners == several.len(),
                bridge.ambiguous_owners <= k,
                several.subset_of(bridge@.dom()),
                forall|o: u32| #[trigger]
                    bridge@.dom().contains(o) <==> exists|i: int|
                        0 <= i < k && (#[trigger] votes@[i]).owner == o,
                forall|o: u32| #[trigger]
                    bridge@.contains_key(o) ==> is_majority(tally, d, o, bridge@[o].0)
                        && bridge@[o].1 == BridgeSource::SysTableBackref && (several.contains(o)
                        <==> ambiguous_at(tally, d).contains(o)),
        {
            let owner: u32 = votes[k].owner;
            if bridge.source_for(owner).is_none() {
                let (best, is_several) = majority(votes, k);
                let name: String = votes[best].name.clone();
                let ghost so_far = bridge;
                proof {
                    self.lemma_majority(distance, k as int, best as int, is_several);
                }
                bridge.insert(owner, name, BridgeSource::SysTableBackref);
                if is_several {
                    bridge.ambiguous_owners = bridge.ambiguous_owners + 1;
                    proof {
                        several = several.insert(owner);
                    }
                }
            }
        }
        proof {
            assert forall|o: u32| bridge@.dom().contains(o) <==> owners_at(tally, d).contains(o) by {
                if bridge@.dom().contains(o) {
                    let i = choose|i: int| 0 <= i < votes@.len() && (#[trigger] votes@[i]).owner == o;
                    lemma_vote_count(votes@, i);
                    assert(tally(d, o, votes@[i].name@) > 0);
                }
                if owners_at(tally, d).contains(o) {
                    let n = choose|n: Seq<char>| #[trigger] tally(d, o, n) > 0;
                    let i = choose|i: int|
                        0 <= i < votes@.len() && is_vote_for(#[trigger] votes@[i], o, n);
                    assert(votes@[i].owner == o);
                }
            }
            assert(bridge@.dom() =~= owners_at(tally, d));
            assert forall|o: u32| several.contains(o) <==> ambiguous_at(tally, d).contains(o) by {
                if ambiguous_at(tally, d).contains(o) {
                    let (n, m) = choose|n: Seq<char>, m: Seq<char>|
                        n != m && #[trigger] tally(d, o, n) > 0 && #[trigger] tally(d, o, m) > 0;
                    assert(owners_at(tally, d).contains(o));
                    assert(bridge@.contains_key(o));
                }
                if several.contains(o) {
                    assert(bridge@.contains_key(o));
                }
            }
            assert(several =~= ambiguous_at(tally, d));
        }
        bridge
    }

    /// A vote that is a majority within its list is one in the tally, and an
    /// owner with a second vote is ambiguous.
    proof fn lemma_majority(&self, distance: usize, first: int, best: int, several: bool)
        requires
            self.wf(),
            is_candidate(distance as int),
            0 <= first < self.votes_at(distance as int).len(),
            is_majority_vote(self.votes_at(distance as int), first, best),
            several <==> has_second(self.votes_at(distance as int), first),
        ensures
            is_majority(
                self.tally(),
                distance as int,
                self.votes_at(distance as int)[first].owner,
                self.votes_at(distance as int)[best].name@,
            ),
            several <==> ambiguous_at(self.tally(), distance as int).contains(
                self.votes_at(distance as int)[first].owner,
            ),
    {
        let d = distance as int;
        let tally = self.tally();
        let votes = self.votes_at(d);
        let o = votes[first].owner;
        lemma_vote_count(votes, best);
        lemma_vote_count(votes, first);
        assert forall|m: Seq<char>| #![trigger tally(d, o, m)] tally(d, o, m) > 0 implies tally(
            d,
            o,
            m,
        ) < tally(d, o, votes[best].name@) || (tally(d, o, m) == tally(d, o, votes[best].name@)
            && text::text_le(votes[best].name@, m)) by {
            let i = choose|i: int| 0 <= i < votes.len() && is_vote_for(#[trigger] votes[i], o, m);
            lemma_vote_count(votes, i);
        }
        if several {
            let j = choose|j: int|
                0 <= j < votes.len() && j != first && (#[trigger] votes[j]).owner == o;
            lemma_vote_count(votes, j);
            assert(votes[j].name@ != votes[first].name@);
            assert(tally(d, o, votes[j].name@) > 0 && tally(d, o, votes[first].name@) > 0);
        }
        if ambiguous_at(tally, d).contains(o) {
            let (n, m) = choose|n: Seq<char>, m: Seq<char>|
                n != m && #[trigger] tally(d, o, n) > 0 && #[trigger] tally(d, o, m) > 0;
            let i = choose|i: int| 0 <= i < votes.len() && is_vote_for(#[trigger] votes[i], o, n);
            let j = choose|j: int| 0 <= j < votes.len() && is_vote_for(#[trigger] votes[j], o, m);
            assert(i != j);
            assert(votes[i].owner == o && votes[j].owner == o);
        }
    }
}

spec fn is_majority_vote(votes: Seq<Vote>, first: int, best: int) -> bool {
    &&& 0 <= best < votes.len()
    &&& votes[best].owner == votes[first].owner
    &&& forall|j: int|
        0 <= j < votes.len() && (#[trigger] votes[j]).owner == votes[first].owner
            ==> votes[j].sightings < votes[best].sightings || (votes[j].sightings
            == votes[best].sightings && text::text_le(votes[best].name@, votes[j].name@))
}

spec fn has_second(votes: Seq<Vote>, first: int) -> bool {
    exists|j: int|
        0 <= j < votes.len() && j != first && (#[trigger] votes[j]).owner == votes[first].owner
}

/// The majority vote for the owner of vote `first`, and whether that owner has
/// more than one vote. No vote before `first` is for that owner.
fn majority(votes: &Vec<Vote>, first: usize) -> (r: (usize, bool))
    requires
        first < votes@.len(),
        forall|j: int| 0 <= j < first ==> (#[trigger] votes@[j]).owner != votes@[first as int].owner,
    ensures
        is_majority_vote(votes@, first as int, r.0 as int),
        r.1 == has_second(votes@, first as int),
{
    let owner: u32 = votes[first].owner;
    let mut best: usize = first;
    let mut several: bool = false;
    proof {
        text::lemma_text_le_refl(votes@[first as int].name@);
    }
    for k in first + 1..votes.len()
        invariant
            first < k,
            first < votes@.len(),
            owner == votes@[first as int].owner,
            best < k,
            votes@[best as int].owner == owner,
            forall|j: int|
                0 <= j < k && (#[trigger] votes@[j]).owner == owner ==> votes@[j].sightings
                    < votes@[best as int].sightings || (votes@[j].sightings
                    == votes@[best as int].sightings && text::text_le(
                    votes@[best as int].name@,
                    votes@[j].name@,
                )),
            several <==> exists|j: int|
                0 <= j < k && j != first && (#[trigger] votes@[j]).owner == owner,
    {
        if votes[k].owner == owner {
            several = true;
            let ghost old_best = best;
            let better: bool = votes[k].sightings > votes[best].sightings || (votes[k].sightings
                == votes[best].sightings && text_not_after(
                votes[k].name.as_str(),
                votes[best].name.as_str(),
            ));
            proof {
                text::lemma_text_le_refl(votes@[k as int].name@);
                text::lemma_text_le_total(votes@[k as int].name@, votes@[best as int].name@);
                assert forall|j: int|
                    0 <= j < k && (#[trigger] votes@[j]).owner == owner && text::text_le(
                        votes@[k as int].name@,
                        votes@[old_best as int].name@,
                    ) && text::text_le(votes@[old_best as int].name@, votes@[j].name@)
                        implies text::text_le(votes@[k as int].name@, votes@[j].name@) by {
                    text::lemma_text_le_trans(
                        votes@[k as int].name@,
                        votes@[old_best as int].name@,
                        votes@[j].name@,
                    );
                }
            }
            if better {
                best = k;
            }
        }
    }
    (best, several)
}

/// Observing rows in two batches is observing them in one.
pub proof fn lemma_sightings_split(
    plain: Seq<u8>,
    a: Seq<(usize, &str)>,
    b: Seq<(usize, &str)>,
    owners: Set<u32>,
    distance: int,
    owner: u32,
    name: Seq<char>,
)
    ensures
        sightings(plain, a + b, owners, distance, owner, name) == sightings(
            plain,
            a,
            owners,
            distance,
            owner,
            name,
        ) + sightings(plain, b, owners, distance, owner, name),
    decreases b.len(),
{
    if b.len() == 0 {
        assert(a + b =~= a);
    } else {
        lemma_sightings_split(plain, a, b.drop_last(), owners, distance, owner, name);
        assert((a + b).drop_last() =~= a + b.drop_last());
    }
}

/// The order of the rows does not matter to what is sighted.
pub proof fn lemma_sightings_reordered(
    plain: Seq<u8>,
    a: Seq<(usize, &str)>,
    b: Seq<(usize, &str)>,
    owners: Set<u32>,
    distance: int,
    owner: u32,
    name: Seq<char>,
)
    requires
        a.to_multiset() == b.to_multiset(),
    ensures
        sightings(plain, a, owners, distance, owner, name) == sightings(
            plain,
            b,
            owners,
            distance,
            owner,
            name,
        ),
    decreases a.len(),
{
    a.to_multiset_ensures();
    b.to_multiset_ensures();
    if a.len() > 0 {
        let row = a.last();
        let rest = a.drop_last();
        assert(a[a.len() - 1] == row);
        assert(a.contains(row));
        assert(a.to_multiset().count(row) > 0);
        assert(b.contains(row));
        let i = choose|i: int| 0 <= i < b.len() && b[i] == row;
        let front = b.take(i);
        let back = b.skip(i + 1);
        let one = seq![row];
        assert(a.remove(a.len() - 1) =~= rest);
        assert(b.remove(i) =~= front + back);
        assert(rest.to_multiset() == (front + back).to_multiset());
        lemma_sightings_reordered(plain, rest, front + back, owners, distance, owner, name);
        lemma_sightings_split(plain, front, back, owners, distance, owner, name);
        assert(b =~= front + one + back);
        lemma_sightings_split(plain, front + one, back, owners, distance, owner, name);
        lemma_sightings_split(plain, front, one, owners, distance, owner, name);
        assert(a =~= rest + one);
        lemma_sightings_split(plain, rest, one, owners, distance, owner, name);
    }
}

/// No two distances are both the best one.
pub proof fn lemma_best_distance_unique(tally: Tally, a: Option<usize>, b: Option<usize>)
    requires
        is_best_distance(tally, a),
        is_best_distance(tally, b),
    ensures
        a == b,
{
    if a is Some {
        assert(is_candidate(a->0 as int));
    }
    if b is Some {
        assert(is_candidate(b->0 as int));
    }
}

/// The bridges map the same owners to the same names, and have the same counters.
pub open spec fn same_bridge(a: OwnerBridge, b: OwnerBridge) -> bool {
    &&& a@ == b@
    &&& a.backref_distance == b.backref_distance
    &&& a.from_backref == b.from_backref
    &&& a.from_sysobject == b.from_sysobject
    &&& a.ambiguous_owners == b.ambiguous_owners
}

/// A tally gives only one map: how ties are broken leaves no choice.
pub proof fn lemma_bridge_unique(tally: Tally, distance: usize, a: OwnerBridge, b: OwnerBridge)
    requires
        is_bridge_at(tally, distance, a),
        is_bridge_at(tally, distance, b),
    ensures
        same_bridge(a, b),
{
    assert forall|o: u32| a@.contains_key(o) implies a@[o] == b@[o] by {
        assert(a@.dom().contains(o) && b@.dom().contains(o));
        assert(b@.contains_key(o));
        let n = a@[o].0;
        let m = b@[o].0;
        assert(tally(distance as int, o, n) > 0 && tally(distance as int, o, m) > 0);
        if tally(distance as int, o, n) == tally(distance as int, o, m) {
            text::lemma_text_le_antisym(n, m);
        }
    }
    assert(a@ =~= b@);
}

/// Two tallies cannot be told apart: they have seen as many rows, and give the same
/// scores, the same best distance, and the same bridge at every distance.
pub open spec fn cannot_be_told_apart(a: BackrefVotes, b: BackrefVotes) -> bool {
    &&& a.seen() == b.seen()
    &&& a.tally() == b.tally()
    &&& forall|x: Option<usize>, y: Option<usize>| #[trigger]
        is_best_distance(a.tally(), x) && #[trigger] is_best_distance(b.tally(), y) ==> x == y
    &&& forall|d: usize, x: OwnerBridge, y: OwnerBridge| #[trigger]
        is_bridge_at(a.tally(), d, x) && #[trigger] is_bridge_at(b.tally(), d, y) ==> same_bridge(
            x,
            y,
        )
}

proof fn lemma_same_counts(a: BackrefVotes, b: BackrefVotes)
    requires
        a.seen() == b.seen(),
        forall|d: int, o: u32, n: Seq<char>| #[trigger] a.count(d, o, n) == b.count(d, o, n),
    ensures
        cannot_be_told_apart(a, b),
{
    assert(a.tally() =~= b.tally());
    assert forall|x: Option<usize>, y: Option<usize>| #[trigger]
        is_best_distance(a.tally(), x) && #[trigger] is_best_distance(b.tally(), y) implies x
        == y by {
        lemma_best_distance_unique(a.tally(), x, y);
    }
    assert forall|d: usize, x: OwnerBridge, y: OwnerBridge| #[trigger]
        is_bridge_at(a.tally(), d, x) && #[trigger] is_bridge_at(
        b.tally(),
        d,
        y,
    ) implies same_bridge(x, y) by {
        lemma_bridge_unique(a.tally(), d, x, y);
    }
}

/// Whether the rows of a page are observed in two batches or in one, and in which
/// order, leaves no trace. Every row counts as seen, also one without any candidate.
pub proof fn lemma_rows_in_any_order(
    start: BackrefVotes,
    between: BackrefVotes,
    batches: BackrefVotes,
    at_once: BackrefVotes,
    plain: Seq<u8>,
    a: Seq<(usize, &str)>,
    b: Seq<(usize, &str)>,
    c: Seq<(usize, &str)>,
    owners: Set<u32>,
)
    requires
        between.has_observed(&start, plain, a, owners),
        batches.has_observed(&between, plain, b, owners),
        at_once.has_observed(&start, plain, c, owners),
        c.to_multiset() == (a + b).to_multiset(),
    ensures
        batches.seen() == start.seen() + a.len() + b.len(),
        cannot_be_told_apart(batches, at_once),
{
    c.to_multiset_ensures();
    (a + b).to_multiset_ensures();
    assert forall|d: int, o: u32, n: Seq<char>| #[trigger]
        batches.count(d, o, n) == at_once.count(d, o, n) by {
        assert(between.count(d, o, n) == start.count(d, o, n) + sightings(plain, a, owners, d, o, n));
        lemma_sightings_split(plain, a, b, owners, d, o, n);
        lemma_sightings_reordered(plain, c, a + b, owners, d, o, n);
    }
    lemma_same_counts(batches, at_once);
}

/// In which order pages are observed leaves no trace either.
pub proof fn lemma_pages_in_any_order(
    start: BackrefVotes,
    first: BackrefVotes,
    forth: BackrefVotes,
    second: BackrefVotes,
    back: BackrefVotes,
    p: Seq<u8>,
    a: Seq<(usize, &str)>,
    q: Seq<u8>,
    b: Seq<(usize, &str)>,
    owners: Set<u32>,
)
    requires
        first.has_observed(&start, p, a, owners),
        forth.has_observed(&first, q, b, owners),
        second.has_observed(&start, q, b, owners),
        back.has_observed(&second, p, a, owners),
    ensures
        cannot_be_told_apart(forth, back),
{
    assert forall|d: int, o: u32, n: Seq<char>| #[trigger]
        forth.count(d, o, n) == back.count(d, o, n) by {
        assert(first.count(d, o, n) == start.count(d, o, n) + sightings(p, a, owners, d, o, n));
        assert(second.count(d, o, n) == start.count(d, o, n) + sightings(q, b, owners, d, o, n));
    }
    lemma_same_counts(forth, back);
}

/// The four bytes at `at` hold the number `o`, the lowest byte first.
pub open spec fn holds_number(plain: Seq<u8>, at: int, o: int) -> bool {
    &&& 0 <= at
    &&& at + 4 <= plain.len()
    &&& o == plain[at] + 0x100 * plain[at + 1] + 0x1_0000 * plain[at + 2] + 0x100_0000 * plain[at
        + 3]
}

/// Wherever a row stands on its page: it is sighted at a distance from 4 to 96 under
/// the owner whose number stands that far before it, if that is an owner other than
/// zero that is in use, and it is sighted under its own name; so it raises that count
/// by one, and no other.
pub proof fn lemma_one_row(
    before: BackrefVotes,
    after: BackrefVotes,
    plain: Seq<u8>,
    row: (usize, &str),
    owners: Set<u32>,
    d: int,
    o: u32,
    n: Seq<char>,
)
    requires
        after.has_observed(&before, plain, seq![row], owners),
    ensures
        after.count(d, o, n) == before.count(d, o, n) + if 4 <= d <= 96 && holds_number(
            plain,
            row.0 - d,
            o as int,
        ) && o != 0 && owners.contains(o) && n == row.1@ {
            1nat
        } else {
            0
        },
        after.seen() == before.seen() + 1,
{
    let rows = seq![row];
    assert(rows.drop_last() =~= Seq::<(usize, &str)>::empty());
    assert(sightings(plain, rows.drop_last(), owners, d, o, n) == 0);
    assert(rows.last() == row);
}

/// Observing no rows changes nothing, and observing several is observing them one
/// after the other.
pub proof fn lemma_row_by_row(
    before: BackrefVotes,
    between: BackrefVotes,
    after: BackrefVotes,
    plain: Seq<u8>,
    rows: Seq<(usize, &str)>,
    row: (usize, &str),
    owners: Set<u32>,
    d: int,
    o: u32,
    n: Seq<char>,
)
    ensures
        between.has_observed(&before, plain, rows, owners) && after.has_observed(
            &before,
            plain,
            rows.push(row),
            owners,
        ) ==> after.count(d, o, n) == between.count(d, o, n) + if 4 <= d <= 96 && holds_number(
            plain,
            row.0 - d,
            o as int,
        ) && o != 0 && owners.contains(o) && n == row.1@ {
            1nat
        } else {
            0
        },
        after.has_observed(&before, plain, Seq::empty(), owners) ==> after.count(d, o, n)
            == before.count(d, o, n),
{
    assert(rows.push(row).drop_last() =~= rows);
    assert(rows.push(row).last() == row);
}

/// The best distance lies from 4 to 96 and yields at least four pairs, more than any
/// smaller distance in that range and no fewer than any larger one; and there is a
/// best distance as soon as any of them yields four pairs.
pub proof fn lemma_best_distance(tally: Tally, best: Option<usize>, e: int)
    requires
        is_best_distance(tally, best),
        4 <= e <= 96,
    ensures
        ({
            let pairs = |d: int| Set::new(|p: (u32, Seq<char>)| tally(d, p.0, p.1) > 0);
            match best {
                Some(d) => {
                    &&& 4 <= d <= 96
                    &&& pairs(d as int).len() >= 4
                    &&& e < d ==> pairs(e).len() < pairs(d as int).len()
                    &&& e > d ==> pairs(e).len() <= pairs(d as int).len()
                },
                None => pairs(e).len() < 4,
            }
        }),
{
    assert(is_candidate(e));
    assert(pairs_at(tally, e) =~= Set::new(|p: (u32, Seq<char>)| tally(e, p.0, p.1) > 0));
    if best is Some {
        let d = best->0 as int;
        assert(pairs_at(tally, d) =~= Set::new(|p: (u32, Seq<char>)| tally(d, p.0, p.1) > 0));
    }
}

/// The bridge maps an owner exactly if it was sighted, to a name that it was sighted
/// with; no other name was sighted more often, nor as often and comes before. An owner
/// sighted with one name alone is mapped to that name. The owners sighted with two
/// names or more are counted.
pub proof fn lemma_bridge_takes_majority(
    tally: Tally,
    distance: usize,
    bridge: OwnerBridge,
    o: u32,
    n: Seq<char>,
)
    requires
        is_bridge_at(tally, distance, bridge),
        tally(distance as int, o, n) > 0,
    ensures
        bridge@.contains_key(o),
        bridge@[o].1 == BridgeSource::SysTableBackref,
        tally(distance as int, o, bridge@[o].0) > 0,
        tally(distance as int, o, bridge@[o].0) >= tally(distance as int, o, n),
        tally(distance as int, o, bridge@[o].0) == tally(distance as int, o, n) ==> text::text_le(
            bridge@[o].0,
            n,
        ),
        (forall|m: Seq<char>| #[trigger] tally(distance as int, o, m) > 0 ==> m == n)
            ==> bridge@[o].0 == n,
        bridge.backref_distance == Some(distance),
        bridge.from_sysobject == 0,
        bridge.from_backref == bridge@.dom().len(),
{
    assert(owners_at(tally, distance as int).contains(o));
    assert(bridge@.dom().contains(o));
    assert(bridge@.contains_key(o));
}

/// An owner that was never sighted is not mapped.
pub proof fn lemma_bridge_maps_no_other(
    tally: Tally,
    distance: usize,
    bridge: OwnerBridge,
    o: u32,
)
    requires
        is_bridge_at(tally, distance, bridge),
        forall|n: Seq<char>| #[trigger] tally(distance as int, o, n) == 0,
    ensures
        !bridge@.contains_key(o),
{
    assert(!owners_at(tally, distance as int).contains(o));
    assert(!bridge@.dom().contains(o));
}

/// The owners that count as ambiguous are those that were sighted with two names.
pub proof fn lemma_ambiguous(
    tally: Tally,
    distance: usize,
    bridge: OwnerBridge,
    owners: Set<u32>,
)
    requires
        is_bridge_at(tally, distance, bridge),
        forall|o: u32|
            owners.contains(o) <==> exists|n: Seq<char>, m: Seq<char>|
                n != m && #[trigger] tally(distance as int, o, n) > 0 && #[trigger] tally(
                    distance as int,
                    o,
                    m,
                ) > 0,
    ensures
        bridge.ambiguous_owners == owners.len(),
{
    assert(owners =~= ambiguous_at(tally, distance as int));
}

} // verus!
