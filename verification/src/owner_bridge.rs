//! Bridging `SYSCOLUMN` owners to table names.
//!
//! The back-reference of the `SYSTABLE` rows (see [`crate::backref`]) says which
//! owner a table has; what a scan of `SYSOBJECT` names found fills in owners that it
//! does not resolve.

use std::collections::HashSet;

use opensqlany::{ApModel, PageStore};
use vstd::prelude::*;

use crate::backref;
use crate::order;
use crate::order::{count_distinct, distinct_order};
use crate::pages;
use crate::pages::decode_page;
use crate::syscolumn;
use crate::syscolumn::{ColumnView, SysColumn};
use crate::systable::SysTableEntry;
use crate::text;
use crate::text::same_text;

pub use crate::backref::{
    backref_at, BackrefVotes, BACKREF_MAX_DISTANCE, BACKREF_MIN_DISTANCE, DEFAULT_BACKREF_DISTANCE,
};

verus! {

/// Where a given mapping from an owner to a table name came from.
#[derive(Debug, Clone, Copy, PartialEq, Eq, Structural)]
pub enum BridgeSource {
    /// The `SYSTABLE` row's own back-reference.
    SysTableBackref,
    /// The `SYSOBJECT` name scan.
    SysObjectScan,
}

impl BridgeSource {
    /// The label of a source.
    pub open spec fn label_text(self) -> Seq<char> {
        match self {
            BridgeSource::SysTableBackref => "SYSTABLE back-reference"@,
            BridgeSource::SysObjectScan => "SYSOBJECT scan"@,
        }
    }

    /// Short human-readable label, for diagnostics.
    pub fn label(self) -> (text: &'static str)
        ensures
            text@ == self.label_text(),
    {
        match self {
            BridgeSource::SysTableBackref => "SYSTABLE back-reference",
            BridgeSource::SysObjectScan => "SYSOBJECT scan",
        }
    }
}

/// One owner that is bridged to a table name.
#[derive(Debug, Clone)]
struct BridgeEntry {
    owner: u32,
    name: String,
    source: BridgeSource,
}

/// The mappings of a bridge, by ascending owner.
#[derive(Debug, Clone)]
pub struct BridgeEntries {
    list: Vec<BridgeEntry>,
}

/// Map from owners to table names, plus how it was obtained.
#[derive(Debug, Clone)]
pub struct OwnerBridge {
    /// The mappings.
    pub entries: BridgeEntries,
    /// Back-reference distance calibrated for this file, if one was found.
    pub backref_distance: Option<usize>,
    /// Owners mapped from the `SYSTABLE` back-reference.
    pub from_backref: usize,
    /// Owners mapped from the `SYSOBJECT` scan.
    pub from_sysobject: usize,
    /// Owners for which the back-reference saw more than one candidate table
    /// name and had to take a majority vote.
    pub ambiguous_owners: usize,
}

/// A table name, and where the mapping to it came from.
pub type Bridged = (Seq<char>, BridgeSource);

/// The table names that a map of owners covers.
pub open spec fn bridged_names(m: Map<u32, Bridged>) -> Set<Seq<char>> {
    Set::new(|n: Seq<char>| exists|o: u32| m.contains_key(o) && #[trigger] m[o].0 == n)
}

/// The owners whose mapping came from `source`.
pub open spec fn owners_from(m: Map<u32, Bridged>, source: BridgeSource) -> Set<u32> {
    Set::new(|o: u32| m.contains_key(o) && m[o].1 == source)
}

spec fn holds_owner(entries: Seq<BridgeEntry>, o: u32) -> bool {
    exists|i: int| 0 <= i < entries.len() && #[trigger] entries[i].owner == o
}

/// One of the first `k` entries maps `o` to `name`.
spec fn names_owner(entries: Seq<BridgeEntry>, k: int, o: u32, name: Seq<char>) -> bool {
    exists|e: int| 0 <= e < k && #[trigger] entries[e].owner == o && entries[e].name@ == name
}

spec fn place_of(entries: Seq<BridgeEntry>, o: u32) -> int {
    choose|i: int| 0 <= i < entries.len() && #[trigger] entries[i].owner == o
}

proof fn lemma_owners_from(m: Map<u32, Bridged>, source: BridgeSource)
    requires
        m.dom().finite(),
    ensures
        owners_from(m, source).finite(),
        owners_from(m, source).len() <= m.dom().len(),
{
    vstd::set_lib::lemma_len_subset(owners_from(m, source), m.dom());
}

/// One more owner adds one to those of its own source, and to those of no other.
pub proof fn lemma_owners_from_insert(m: Map<u32, Bridged>, owner: u32, entry: Bridged)
    requires
        m.dom().finite(),
        !m.contains_key(owner),
    ensures
        owners_from(m.insert(owner, entry), entry.1).len() == owners_from(m, entry.1).len() + 1,
        forall|s: BridgeSource|
            s != entry.1 ==> #[trigger] owners_from(m.insert(owner, entry), s) == owners_from(m, s),
{
    lemma_owners_from(m, entry.1);
    assert(owners_from(m.insert(owner, entry), entry.1) =~= owners_from(m, entry.1).insert(owner));
    assert forall|s: BridgeSource| s != entry.1 implies #[trigger] owners_from(
        m.insert(owner, entry),
        s,
    ) == owners_from(m, s) by {
        assert(owners_from(m.insert(owner, entry), s) =~= owners_from(m, s));
    }
}

impl View for BridgeEntries {
    type V = Map<u32, Bridged>;

    closed spec fn view(&self) -> Map<u32, Bridged> {
        Map::new(
            |o: u32| holds_owner(self.list@, o),
            |o: u32|
                {
                    let e = self.list@[place_of(self.list@, o)];
                    (e.name@, e.source)
                },
        )
    }
}

impl BridgeEntries {
    /// The entries are in ascending order of their owners, so that no owner is
    /// held twice.
    pub closed spec fn is_sorted(&self) -> bool {
        forall|i: int, j: int|
            0 <= i < j < self.list@.len() ==> self.list@[i].owner < self.list@[j].owner
    }

    proof fn lemma_entry(&self, i: int)
        requires
            self.is_sorted(),
            0 <= i < self.list@.len(),
        ensures
            self@.contains_key(self.list@[i].owner),
            self@[self.list@[i].owner] == (self.list@[i].name@, self.list@[i].source),
    {
        let o = self.list@[i].owner;
        assert(holds_owner(self.list@, o));
        let p = place_of(self.list@, o);
        assert(p == i);
    }

    proof fn lemma_size(&self)
        requires
            self.is_sorted(),
        ensures
            self@.dom().finite(),
            self@.dom().len() == self.list@.len(),
    {
        let owners = self.list@.map_values(|e: BridgeEntry| e.owner);
        assert(owners.no_duplicates()) by {
            assert forall|i: int, j: int|
                0 <= i < owners.len() && 0 <= j < owners.len() && i != j implies owners[i]
                != owners[j] by {
                assert(self.list@[i].owner == owners[i] && self.list@[j].owner == owners[j]);
            }
        }
        owners.unique_seq_to_set();
        assert(owners.to_set() =~= self@.dom()) by {
            assert forall|o: u32| owners.to_set().contains(o) <==> self@.dom().contains(o) by {
                if owners.to_set().contains(o) {
                    let i = choose|i: int| 0 <= i < owners.len() && owners[i] == o;
                    assert(self.list@[i].owner == o);
                }
                if self@.dom().contains(o) {
                    let i = place_of(self.list@, o);
                    assert(owners[i] == o);
                }
            }
        }
    }

    /// The first place whose owner is not below `owner`.
    fn lower_bound(&self, owner: u32) -> (p: usize)
        requires
            self.is_sorted(),
        ensures
            p <= self.list@.len(),
            forall|i: int| 0 <= i < p ==> self.list@[i].owner < owner,
            forall|i: int| p <= i < self.list@.len() ==> self.list@[i].owner >= owner,
    {
        let mut lo: usize = 0;
        let mut hi: usize = self.list.len();
        while lo < hi
            invariant
                self.is_sorted(),
                lo <= hi <= self.list@.len(),
                forall|i: int| 0 <= i < lo ==> self.list@[i].owner < owner,
                forall|i: int| hi <= i < self.list@.len() ==> self.list@[i].owner >= owner,
            decreases hi - lo,
        {
            let mid: usize = lo + (hi - lo) / 2;
            if self.list[mid].owner < owner {
                lo = mid + 1;
            } else {
                hi = mid;
            }
        }
        lo
    }

    fn find(&self, owner: u32) -> (p: Option<usize>)
        requires
            self.is_sorted(),
        ensures
            match p {
                Some(i) => {
                    &&& i < self.list@.len()
                    &&& self@.contains_key(owner)
                    &&& self@[owner] == (self.list@[i as int].name@, self.list@[i as int].source)
                },
                None => !self@.contains_key(owner),
            },
    {
        let p: usize = self.lower_bound(owner);
        if p < self.list.len() && self.list[p].owner == owner {
            proof {
                self.lemma_entry(p as int);
            }
            Some(p)
        } else {
            None
        }
    }
}

impl View for OwnerBridge {
    type V = Map<u32, Bridged>;

    open spec fn view(&self) -> Map<u32, Bridged> {
        self.entries@
    }
}

impl Default for OwnerBridge {
    fn default() -> (bridge: Self)
        ensures
            bridge.wf(),
            bridge.is_blank(),
    {
        let bridge = OwnerBridge {
            entries: BridgeEntries { list: Vec::new() },
            backref_distance: None,
            from_backref: 0,
            from_sysobject: 0,
            ambiguous_owners: 0,
        };
        assert(bridge@ =~= Map::<u32, Bridged>::empty());
        assert(owners_from(bridge@, BridgeSource::SysTableBackref) =~= Set::<u32>::empty());
        assert(owners_from(bridge@, BridgeSource::SysObjectScan) =~= Set::<u32>::empty());
        bridge
    }
}

impl OwnerBridge {
    /// The bridge is in good order: no owner is held twice, and the counters say
    /// how many owners came from where.
    pub open spec fn wf(&self) -> bool {
        &&& self.entries.is_sorted()
        &&& self.from_backref == owners_from(self@, BridgeSource::SysTableBackref).len()
        &&& self.from_sysobject == owners_from(self@, BridgeSource::SysObjectScan).len()
    }

    /// Nothing is bridged, and nothing was found on the way.
    pub open spec fn is_blank(&self) -> bool {
        &&& self@ == Map::<u32, Bridged>::empty()
        &&& self.backref_distance is None
        &&& self.from_backref == 0
        &&& self.from_sysobject == 0
        &&& self.ambiguous_owners == 0
    }

    /// Table name bridged to `owner`, if any.
    pub fn table_for(&self, owner: u32) -> (name: Option<&str>)
        requires
            self.wf(),
        ensures
            match name {
                Some(text) => self@.contains_key(owner) && text@ == self@[owner].0,
                None => !self@.contains_key(owner),
            },
    {
        match self.entries.find(owner) {
            Some(i) => Some(self.entries.list[i].name.as_str()),
            None => None,
        }
    }

    /// Where the mapping for `owner` came from.
    pub fn source_for(&self, owner: u32) -> (source: Option<BridgeSource>)
        requires
            self.wf(),
        ensures
            source == if self@.contains_key(owner) {
                Some(self@[owner].1)
            } else {
                None
            },
    {
        match self.entries.find(owner) {
            Some(i) => Some(self.entries.list[i].source),
            None => None,
        }
    }

    /// Every owner bridged to `table`, ascending. Normally one, but a name can
    /// attract more than one owner.
    pub fn owners_for(&self, table: &str) -> (owners: Vec<u32>)
        requires
            self.wf(),
        ensures
            forall|o: u32|
                #[trigger] owners@.contains(o) <==> self@.contains_key(o) && self@[o].0 == table@,
            forall|i: int, j: int| 0 <= i < j < owners@.len() ==> owners@[i] < owners@[j],
    {
        let mut owners: Vec<u32> = Vec::new();
        for k in 0..self.entries.list.len()
            invariant
                self.wf(),
                forall|o: u32| #[trigger]
                    owners@.contains(o) <==> names_owner(self.entries.list@, k as int, o, table@),
                forall|i: int, j: int| 0 <= i < j < owners@.len() ==> owners@[i] < owners@[j],
        {
            let ghost before = owners@;
            let ghost es = self.entries.list@;
            assert forall|i: int| 0 <= i < before.len() implies #[trigger] before[i]
                < es[k as int].owner by {
                assert(before.contains(before[i]));
            }
            if same_text(self.entries.list[k].name.as_str(), table) {
                owners.push(self.entries.list[k].owner);
                assert forall|o: u32| #[trigger] owners@.contains(o) <==> names_owner(
                    es,
                    k + 1,
                    o,
                    table@,
                ) by {
                    if owners@.contains(o) {
                        let i = choose|i: int| 0 <= i < owners@.len() && owners@[i] == o;
                        if i < before.len() {
                            assert(before[i] == o);
                            assert(before.contains(o));
                        }
                    }
                    if names_owner(es, k + 1, o, table@) {
                        if o == es[k as int].owner {
                            assert(owners@[before.len() as int] == o);
                        } else {
                            assert(before.contains(o));
                            let i = choose|i: int| 0 <= i < before.len() && before[i] == o;
                            assert(owners@[i] == o);
                        }
                    }
                }
            } else {
                assert forall|o: u32| #[trigger] owners@.contains(o) <==> names_owner(
                    es,
                    k + 1,
                    o,
                    table@,
                ) by {
                    assert(names_owner(es, k as int, o, table@) <==> names_owner(
                        es,
                        k + 1,
                        o,
                        table@,
                    ));
                }
            }
        }
        proof {
            let es = self.entries.list@;
            assert forall|o: u32| #[trigger] owners@.contains(o) <==> self@.contains_key(o)
                && self@[o].0 == table@ by {
                if owners@.contains(o) {
                    let e = choose|e: int|
                        0 <= e < es.len() && #[trigger] es[e].owner == o && es[e].name@ == table@;
                    self.entries.lemma_entry(e);
                }
                if self@.contains_key(o) && self@[o].0 == table@ {
                    let e = place_of(es, o);
                    self.entries.lemma_entry(e);
                    assert(es[e].owner == o);
                }
            }
        }
        owners
    }

    /// Number of bridged owners.
    pub fn len(&self) -> (n: usize)
        requires
            self.wf(),
        ensures
            n == self@.dom().len(),
            self@.dom().finite(),
    {
        proof {
            self.entries.lemma_size();
        }
        self.entries.list.len()
    }

    /// `true` when nothing could be bridged.
    pub fn is_empty(&self) -> (r: bool)
        requires
            self.wf(),
        ensures
            r == (self@ == Map::<u32, Bridged>::empty()),
    {
        let r: bool = self.entries.list.len() == 0;
        proof {
            if r {
                assert(self@ =~= Map::<u32, Bridged>::empty());
            } else {
                self.entries.lemma_entry(0);
            }
        }
        r
    }

    /// Number of distinct table names covered.
    pub fn tables(&self) -> (n: usize)
        requires
            self.wf(),
        ensures
            n == bridged_names(self@).len(),
            bridged_names(self@).finite(),
    {
        let mut names: Vec<&str> = Vec::new();
        for k in 0..self.entries.list.len()
            invariant
                names@.len() == k,
                forall|i: int| 0 <= i < k ==> (#[trigger] names@[i])@ == self.entries.list@[i].name@,
        {
            names.push(self.entries.list[k].name.as_str());
        }
        proof {
            let kv = order::key_views(names@);
            assert forall|n: Seq<char>| kv.to_set().contains(n) <==> bridged_names(self@).contains(
                n,
            ) by {
                if kv.to_set().contains(n) {
                    let i = choose|i: int| 0 <= i < kv.len() && kv[i] == n;
                    self.entries.lemma_entry(i);
                    assert(names@[i]@ == n);
                    assert(self@[self.entries.list@[i].owner].0 == n);
                }
                if bridged_names(self@).contains(n) {
                    let o = choose|o: u32| self@.contains_key(o) && #[trigger] self@[o].0 == n;
                    let i = place_of(self.entries.list@, o);
                    self.entries.lemma_entry(i);
                    assert(names@[i]@ == n);
                    assert(kv[i] == n);
                }
            }
            assert(kv.to_set() =~= bridged_names(self@));
        }
        count_distinct(&names)
    }

    /// Inserts `owner -> name` unless `owner` is already mapped. Returns `true` when
    /// the entry was new.
    pub fn insert(&mut self, owner: u32, name: String, source: BridgeSource) -> (is_new: bool)
        requires
            old(self).wf(),
        ensures
            final(self).wf(),
            final(self)@.dom().finite(),
            is_new == !old(self)@.contains_key(owner),
            final(self)@ == if is_new {
                old(self)@.insert(owner, (name@, source))
            } else {
                old(self)@
            },
            final(self).from_backref == old(self).from_backref + if is_new && source
                == BridgeSource::SysTableBackref {
                1int
            } else {
                0
            },
            final(self).from_sysobject == old(self).from_sysobject + if is_new && source
                == BridgeSource::SysObjectScan {
                1int
            } else {
                0
            },
            final(self).backref_distance == old(self).backref_distance,
            final(self).ambiguous_owners == old(self).ambiguous_owners,
    {
        let p: usize = self.entries.lower_bound(owner);
        proof {
            self.entries.lemma_size();
        }
        if p < self.entries.list.len() && self.entries.list[p].owner == owner {
            proof {
                self.entries.lemma_entry(p as int);
            }
            return false;
        }
        let ghost before = *self;
        assert(!before@.contains_key(owner));
        proof {
            lemma_owners_from(before@, BridgeSource::SysTableBackref);
            lemma_owners_from(before@, BridgeSource::SysObjectScan);
        }
        self.entries.list.insert(p, BridgeEntry { owner, name, source });
        assert(before.entries.list@.len() < self.entries.list.len());
        match source {
            BridgeSource::SysTableBackref => {
                self.from_backref = self.from_backref + 1;
            },
            BridgeSource::SysObjectScan => {
                self.from_sysobject = self.from_sysobject + 1;
            },
        }
        proof {
            let es = self.entries.list@;
            assert(forall|i: int| 0 <= i < p ==> es[i] == before.entries.list@[i]);
            assert(forall|i: int| p < i < es.len() ==> es[i] == before.entries.list@[i - 1]);
            assert(self.entries.is_sorted());
            let after = before@.insert(owner, (name@, source));
            assert forall|o: u32| #![trigger self@.dom().contains(o)]
                self@.dom().contains(o) == after.dom().contains(o) && (self@.dom().contains(o)
                    ==> self@[o] == after[o]) by {
                if o == owner {
                    self.entries.lemma_entry(p as int);
                } else {
                    if before@.dom().contains(o) {
                        let i = place_of(before.entries.list@, o);
                        before.entries.lemma_entry(i);
                        if i < p {
                            self.entries.lemma_entry(i);
                        } else {
                            self.entries.lemma_entry(i + 1);
                        }
                    }
                    if self@.dom().contains(o) {
                        let i = place_of(es, o);
                        self.entries.lemma_entry(i);
                        if i < p {
                            before.entries.lemma_entry(i);
                        } else {
                            before.entries.lemma_entry(i - 1);
                        }
                    }
                }
            }
            assert(self@.dom() =~= after.dom());
            assert(self@ =~= after);
            lemma_owners_from_insert(before@, owner, (name@, source));
        }
        true
    }
}

/// The owners other than zero that `SYSCOLUMN` rows use.
pub open spec fn column_owners(columns: Seq<ColumnView>) -> Set<u32> {
    Set::new(
        |o: u32|
            o != 0 && exists|i: int|
                0 <= i < columns.len() && (#[trigger] columns[i]).owner_object_id == o,
    )
}

/// The number of catalog rows that are sightings of `owner` and `name` at
/// `distance`. `plains` holds the plaintexts of the pages that are there, by page
/// number; a row on another page is none.
pub open spec fn table_sightings(
    tables: Seq<SysTableEntry>,
    plains: Map<u64, Seq<u8>>,
    owners: Set<u32>,
    distance: int,
    owner: u32,
    name: Seq<char>,
) -> nat
    decreases tables.len(),
{
    if tables.len() == 0 {
        0
    } else {
        let t = tables.last();
        table_sightings(tables.drop_last(), plains, owners, distance, owner, name) + if plains.contains_key(
            t.page_number,
        ) && backref::is_sighting(
            plains[t.page_number],
            t.row_offset as int,
            t.name@,
            owners,
            distance,
            owner,
            name,
        ) {
            1nat
        } else {
            0
        }
    }
}

/// The tally of all catalog rows.
pub open spec fn table_tally(
    tables: Seq<SysTableEntry>,
    plains: Map<u64, Seq<u8>>,
    owners: Set<u32>,
) -> backref::Tally {
    |d: int, o: u32, n: Seq<char>| table_sightings(tables, plains, owners, d, o, n)
}

/// `bridge` is what the back-references of the catalog rows give: the map at the
/// best distance, or nothing when there is no such distance.
pub open spec fn is_backref_bridge(
    columns: Seq<ColumnView>,
    tables: Seq<SysTableEntry>,
    plains: Map<u64, Seq<u8>>,
    bridge: OwnerBridge,
) -> bool {
    let tally = table_tally(tables, plains, column_owners(columns));
    &&& bridge.wf()
    &&& backref::is_best_distance(tally, bridge.backref_distance)
    &&& match bridge.backref_distance {
        Some(d) => backref::is_bridge_at(tally, d, bridge),
        None => bridge.is_blank(),
    }
}

/// Decoded pages, by page number.
pub open spec fn page_map(decoded: Seq<(u64, Vec<u8>)>) -> Map<u64, Seq<u8>>
    decreases decoded.len(),
{
    if decoded.len() == 0 {
        Map::empty()
    } else {
        page_map(decoded.drop_last()).insert(decoded.last().0, decoded.last().1@)
    }
}

/// No page occurs twice.
pub open spec fn distinct_pages(decoded: Seq<(u64, Vec<u8>)>) -> bool {
    forall|i: int, j: int|
        0 <= i < j < decoded.len() ==> (#[trigger] decoded[i]).0 != (#[trigger] decoded[j]).0
}

/// The number of catalog rows on the pages in `plains`.
spec fn rows_on(tables: Seq<SysTableEntry>, plains: Map<u64, Seq<u8>>) -> nat
    decreases tables.len(),
{
    if tables.len() == 0 {
        0
    } else {
        rows_on(tables.drop_last(), plains) + if plains.contains_key(tables.last().page_number) {
            1nat
        } else {
            0
        }
    }
}

proof fn lemma_rows_on(
    tables: Seq<SysTableEntry>,
    plains: Map<u64, Seq<u8>>,
    pn: u64,
    plain: Seq<u8>,
)
    requires
        !plains.contains_key(pn),
    ensures
        rows_on(tables, plains.insert(pn, plain)) == rows_on(tables, plains) + rows_on(
            tables,
            map![pn => plain],
        ),
        rows_on(tables, plains.insert(pn, plain)) <= tables.len(),
    decreases tables.len(),
{
    if tables.len() > 0 {
        lemma_rows_on(tables.drop_last(), plains, pn, plain);
    }
}

proof fn lemma_no_pages(
    tables: Seq<SysTableEntry>,
    owners: Set<u32>,
    distance: int,
    owner: u32,
    name: Seq<char>,
)
    ensures
        table_sightings(tables, Map::empty(), owners, distance, owner, name) == 0,
        rows_on(tables, Map::empty()) == 0,
    decreases tables.len(),
{
    if tables.len() > 0 {
        lemma_no_pages(tables.drop_last(), owners, distance, owner, name);
    }
}

/// One more page adds the sightings of its own rows, and no others: the tally
/// does not depend on the order in which pages are observed.
pub proof fn lemma_one_more_page(
    tables: Seq<SysTableEntry>,
    plains: Map<u64, Seq<u8>>,
    pn: u64,
    plain: Seq<u8>,
    owners: Set<u32>,
    distance: int,
    owner: u32,
    name: Seq<char>,
)
    requires
        !plains.contains_key(pn),
    ensures
        table_sightings(tables, plains.insert(pn, plain), owners, distance, owner, name)
            == table_sightings(tables, plains, owners, distance, owner, name) + table_sightings(
            tables,
            map![pn => plain],
            owners,
            distance,
            owner,
            name,
        ),
    decreases tables.len(),
{
    if tables.len() > 0 {
        lemma_one_more_page(
            tables.drop_last(),
            plains,
            pn,
            plain,
            owners,
            distance,
            owner,
            name,
        );
    }
}

proof fn lemma_page_map_keys(decoded: Seq<(u64, Vec<u8>)>, pn: u64)
    ensures
        page_map(decoded).contains_key(pn) <==> exists|i: int|
            0 <= i < decoded.len() && (#[trigger] decoded[i]).0 == pn,
    decreases decoded.len(),
{
    if decoded.len() > 0 {
        let rest = decoded.drop_last();
        lemma_page_map_keys(rest, pn);
        if page_map(decoded).contains_key(pn) {
            if decoded.last().0 == pn {
                assert(decoded[decoded.len() - 1].0 == pn);
            } else {
                let i = choose|i: int| 0 <= i < rest.len() && (#[trigger] rest[i]).0 == pn;
                assert(decoded[i].0 == pn);
            }
        }
        if exists|i: int| 0 <= i < decoded.len() && (#[trigger] decoded[i]).0 == pn {
            let i = choose|i: int| 0 <= i < decoded.len() && (#[trigger] decoded[i]).0 == pn;
            if i < rest.len() {
                assert(rest[i].0 == pn);
            }
        }
    }
}

proof fn lemma_page_map_entry(decoded: Seq<(u64, Vec<u8>)>, i: int)
    requires
        distinct_pages(decoded),
        0 <= i < decoded.len(),
    ensures
        page_map(decoded).contains_key(decoded[i].0),
        page_map(decoded)[decoded[i].0] == decoded[i].1@,
    decreases decoded.len(),
{
    let rest = decoded.drop_last();
    if i < rest.len() {
        assert(rest[i] == decoded[i]);
        assert forall|j: int, k: int| 0 <= j < k < rest.len() implies (#[trigger] rest[j]).0 != (
        #[trigger] rest[k]).0 by {
            assert(rest[j] == decoded[j] && rest[k] == decoded[k]);
        }
        lemma_page_map_entry(rest, i);
        assert(decoded[decoded.len() - 1].0 != decoded[i].0);
    }
}

fn owners_of_columns(columns: &[SysColumn]) -> (owners: HashSet<u32>)
    ensures
        owners@ == column_owners(syscolumn::column_views(columns@)),
{
    broadcast use vstd::std_specs::hash::group_hash_axioms;

    let mut owners: HashSet<u32> = HashSet::new();
    let ghost views = syscolumn::column_views(columns@);
    assert(column_owners(views.take(0)) =~= Set::<u32>::empty());
    for k in 0..columns.len()
        invariant
            views == syscolumn::column_views(columns@),
            owners@ == column_owners(views.take(k as int)),
    {
        broadcast use vstd::std_specs::hash::group_hash_axioms;

        let o: u32 = columns[k].owner_object_id;
        let ghost before = views.take(k as int);
        let ghost after = views.take(k + 1);
        assert(after[k as int] == columns@[k as int]@);
        assert(after[k as int].owner_object_id == o);
        assert forall|x: u32| column_owners(after).contains(x) <==> column_owners(before).contains(x)
            || (x == o && o != 0) by {
            if column_owners(before).contains(x) {
                let i = choose|i: int|
                    0 <= i < before.len() && (#[trigger] before[i]).owner_object_id == x;
                assert(after[i].owner_object_id == x);
            }
            if column_owners(after).contains(x) && x != o {
                let i = choose|i: int|
                    0 <= i < after.len() && (#[trigger] after[i]).owner_object_id == x;
                assert(before[i].owner_object_id == x);
            }
        }
        if o != 0 {
            owners.insert(o);
        }
        assert(owners@ =~= column_owners(after));
    }
    assert(views.take(columns@.len() as int) =~= views);
    owners
}

/// The catalog rows on page `pn`: offset and table name of each.
fn rows_of_page<'a>(
    tables: &'a [SysTableEntry],
    pn: u64,
    Ghost(plain): Ghost<Seq<u8>>,
    Ghost(owners): Ghost<Set<u32>>,
) -> (rows: Vec<(usize, &'a str)>)
    ensures
        rows@.len() == rows_on(tables@, map![pn => plain]),
        forall|d: int, o: u32, n: Seq<char>| #[trigger]
            backref::sightings(plain, rows@, owners, d, o, n) == table_sightings(
                tables@,
                map![pn => plain],
                owners,
                d,
                o,
                n,
            ),
{
    let mut rows: Vec<(usize, &'a str)> = Vec::new();
    let ghost m = map![pn => plain];
    for k in 0..tables.len()
        invariant
            m == map![pn => plain],
            rows@.len() == rows_on(tables@.take(k as int), m),
            forall|d: int, o: u32, n: Seq<char>| #[trigger]
                backref::sightings(plain, rows@, owners, d, o, n) == table_sightings(
                    tables@.take(k as int),
                    m,
                    owners,
                    d,
                    o,
                    n,
                ),
    {
        let ghost before = rows@;
        assert(tables@.take(k + 1).drop_last() =~= tables@.take(k as int));
        assert(tables@.take(k + 1).last() == tables@[k as int]);
        if tables[k].page_number == pn {
            rows.push((tables[k].row_offset, tables[k].name.as_str()));
            assert(rows@.drop_last() =~= before);
        }
        assert forall|d: int, o: u32, n: Seq<char>| #[trigger]
            backref::sightings(plain, rows@, owners, d, o, n) == table_sightings(
                tables@.take(k + 1),
                m,
                owners,
                d,
                o,
                n,
            ) by {
            assert(backref::sightings(plain, before, owners, d, o, n) == table_sightings(
                tables@.take(k as int),
                m,
                owners,
                d,
                o,
                n,
            ));
        }
    }
    assert(tables@.take(tables@.len() as int) =~= tables@);
    rows
}

/// Bridges owners to table names using the back-references on decoded pages.
/// `decoded` holds pages by number, none of them twice; rows on other pages are
/// passed over.
pub fn bridge_from_pages(
    columns: &[SysColumn],
    tables: &[SysTableEntry],
    decoded: &Vec<(u64, Vec<u8>)>,
) -> (bridge: OwnerBridge)
    requires
        distinct_pages(decoded@),
    ensures
        is_backref_bridge(syscolumn::column_views(columns@), tables@, page_map(decoded@), bridge),
{
    let owners = owners_of_columns(columns);
    let mut votes = BackrefVotes::new();
    proof {
        assert forall|d: int, o: u32, n: Seq<char>| #[trigger]
            votes.count(d, o, n) == table_sightings(tables@, Map::empty(), owners@, d, o, n) by {
            lemma_no_pages(tables@, owners@, d, o, n);
        }
        lemma_no_pages(tables@, owners@, 0, 0, seq![]);
    }
    for k in 0..decoded.len()
        invariant
            distinct_pages(decoded@),
            votes.wf(),
            votes.seen() == rows_on(tables@, page_map(decoded@.take(k as int))),
            forall|d: int, o: u32, n: Seq<char>| #[trigger]
                votes.count(d, o, n) == table_sightings(
                    tables@,
                    page_map(decoded@.take(k as int)),
                    owners@,
                    d,
                    o,
                    n,
                ),
    {
        let pn: u64 = decoded[k].0;
        let ghost plain = decoded@[k as int].1@;
        let ghost m = page_map(decoded@.take(k as int));
        let ghost before = votes;
        assert(decoded@.take(k + 1).drop_last() =~= decoded@.take(k as int));
        assert(decoded@.take(k + 1).last() == decoded@[k as int]);
        assert(page_map(decoded@.take(k + 1)) == m.insert(pn, plain));
        assert(!m.contains_key(pn)) by {
            lemma_page_map_keys(decoded@.take(k as int), pn);
            if m.contains_key(pn) {
                let i = choose|i: int|
                    0 <= i < k && (#[trigger] decoded@.take(k as int)[i]).0 == pn;
                assert(decoded@[i].0 == decoded@[k as int].0);
            }
        }
        let rows = rows_of_page(tables, pn, Ghost(plain), Ghost(owners@));
        proof {
            lemma_rows_on(tables@, m, pn, plain);
            assert(tables.len() == tables@.len());
        }
        votes.observe_page(decoded[k].1.as_slice(), rows.as_slice(), &owners);
        assert forall|d: int, o: u32, n: Seq<char>| #[trigger]
            votes.count(d, o, n) == table_sightings(
                tables@,
                page_map(decoded@.take(k + 1)),
                owners@,
                d,
                o,
                n,
            ) by {
            lemma_one_more_page(tables@, m, pn, plain, owners@, d, o, n);
            assert(before.count(d, o, n) == table_sightings(tables@, m, owners@, d, o, n));
            assert(backref::sightings(plain, rows@, owners@, d, o, n) == table_sightings(
                tables@,
                map![pn => plain],
                owners@,
                d,
                o,
                n,
            ));
        }
    }
    proof {
        assert(decoded@.take(decoded@.len() as int) =~= decoded@);
        assert(votes.tally() =~= table_tally(tables@, page_map(decoded@), owners@));
    }
    match votes.best_distance() {
        Some(distance) => votes.bridge_at(distance),
        None => OwnerBridge::default(),
    }
}

/// `plains` holds a plaintext of every page that holds a catalog row, as far as
/// the store has the page, and of no other.
pub open spec fn are_decoded(
    stored: Seq<Seq<u8>>,
    calibration: Seq<Option<u8>>,
    tables: Seq<SysTableEntry>,
    plains: Map<u64, Seq<u8>>,
) -> bool {
    &&& forall|pn: u64| #[trigger]
        plains.contains_key(pn) <==> pn < stored.len() && exists|i: int|
            0 <= i < tables.len() && (#[trigger] tables[i]).page_number == pn
    &&& forall|pn: u64| #[trigger]
        plains.contains_key(pn) ==> pages::decodes_to(
            stored[pn as int],
            pn,
            pages::calibrated(calibration, pn),
            plains[pn],
        )
}

/// The first `k` picked page numbers are decoded, as far as the store has the
/// pages.
spec fn decoded_so_far(
    stored: Seq<Seq<u8>>,
    calibration: Seq<Option<u8>>,
    numbers: Seq<u64>,
    picked: Seq<usize>,
    k: int,
    decoded: Seq<(u64, Vec<u8>)>,
) -> bool {
    &&& distinct_pages(decoded)
    &&& forall|i: int|
        0 <= i < decoded.len() ==> is_decoded_page(stored, calibration, #[trigger] decoded[i])
    &&& forall|i: int|
        0 <= i < decoded.len() ==> is_picked(numbers, picked, k, (#[trigger] decoded[i]).0)
    &&& forall|j: int|
        0 <= j < k && numbers[#[trigger] picked[j] as int] < stored.len() ==> has_page(
            decoded,
            numbers[picked[j] as int],
        )
}

spec fn is_decoded_page(
    stored: Seq<Seq<u8>>,
    calibration: Seq<Option<u8>>,
    page: (u64, Vec<u8>),
) -> bool {
    page.0 < stored.len() && pages::decodes_to(
        stored[page.0 as int],
        page.0,
        pages::calibrated(calibration, page.0),
        page.1@,
    )
}

spec fn is_picked(numbers: Seq<u64>, picked: Seq<usize>, k: int, pn: u64) -> bool {
    exists|j: int| 0 <= j < k && numbers[#[trigger] picked[j] as int] == pn
}

spec fn has_page(decoded: Seq<(u64, Vec<u8>)>, pn: u64) -> bool {
    exists|i: int| 0 <= i < decoded.len() && (#[trigger] decoded[i]).0 == pn
}

proof fn lemma_table_pages(
    stored: Seq<Seq<u8>>,
    calibration: Seq<Option<u8>>,
    tables: Seq<SysTableEntry>,
    numbers: Seq<u64>,
    picked: Seq<usize>,
    decoded: Seq<(u64, Vec<u8>)>,
)
    requires
        numbers.len() == tables.len(),
        forall|i: int|
            0 <= i < tables.len() ==> numbers[i] == (#[trigger] tables[i]).page_number,
        order::is_distinct_order::<u64>(numbers, picked),
        decoded_so_far(stored, calibration, numbers, picked, picked.len() as int, decoded),
    ensures
        are_decoded(stored, calibration, tables, page_map(decoded)),
{
    let m = page_map(decoded);
    assert forall|pn: u64| #[trigger] m.contains_key(pn) <==> pn < stored.len() && exists|i: int|
        0 <= i < tables.len() && (#[trigger] tables[i]).page_number == pn by {
        lemma_page_map_keys(decoded, pn);
        if m.contains_key(pn) {
            let i = choose|i: int| 0 <= i < decoded.len() && (#[trigger] decoded[i]).0 == pn;
            assert(is_decoded_page(stored, calibration, decoded[i]));
            assert(is_picked(numbers, picked, picked.len() as int, decoded[i].0));
            let j = choose|j: int|
                0 <= j < picked.len() && numbers[#[trigger] picked[j] as int] == pn;
            assert(tables[picked[j] as int].page_number == pn);
        }
        if pn < stored.len() && exists|i: int|
            0 <= i < tables.len() && (#[trigger] tables[i]).page_number == pn {
            let t = choose|i: int|
                0 <= i < tables.len() && (#[trigger] tables[i]).page_number == pn;
            assert(numbers[t] == pn);
            assert(order::is_listed::<u64>(numbers, picked, numbers[t]));
            let j = choose|j: int|
                0 <= j < picked.len() && numbers[#[trigger] picked[j] as int] == numbers[t];
            assert(has_page(decoded, numbers[picked[j] as int]));
        }
    }
    assert forall|pn: u64| #[trigger] m.contains_key(pn) implies pages::decodes_to(
        stored[pn as int],
        pn,
        pages::calibrated(calibration, pn),
        m[pn],
    ) by {
        lemma_page_map_keys(decoded, pn);
        let i = choose|i: int| 0 <= i < decoded.len() && (#[trigger] decoded[i]).0 == pn;
        lemma_page_map_entry(decoded, i);
        assert(is_decoded_page(stored, calibration, decoded[i]));
    }
}

/// Decodes the pages that carry catalog rows, each once. A page that the store
/// does not have is passed over.
fn decode_table_pages(
    store: &PageStore,
    model: &ApModel,
    calibration: &[Option<u8>],
    tables: &[SysTableEntry],
) -> (decoded: Vec<(u64, Vec<u8>)>)
    ensures
        distinct_pages(decoded@),
        are_decoded(pages::stored_pages(*store), calibration@, tables@, page_map(decoded@)),
{
    let ghost stored = pages::stored_pages(*store);
    let mut numbers: Vec<u64> = Vec::new();
    for k in 0..tables.len()
        invariant
            numbers@.len() == k,
            forall|i: int| 0 <= i < k ==> numbers@[i] == (#[trigger] tables@[i]).page_number,
    {
        numbers.push(tables[k].page_number);
    }
    let picked = distinct_order(&numbers);
    assert(order::key_views(numbers@) =~= numbers@);
    let mut decoded: Vec<(u64, Vec<u8>)> = Vec::new();
    for k in 0..picked.len()
        invariant
            stored == pages::stored_pages(*store),
            order::is_distinct_order::<u64>(numbers@, picked@),
            decoded_so_far(stored, calibration@, numbers@, picked@, k as int, decoded@),
    {
        let pn: u64 = numbers[picked[k]];
        let ghost before = decoded@;
        let ghost ns = numbers@;
        let page = decode_page(store, model, calibration, pn);
        if let Some(plain) = page {
            decoded.push((pn, plain));
            assert(is_decoded_page(stored, calibration@, decoded@[before.len() as int]));
            assert(has_page(decoded@, pn));
        }
        proof {
            let ps = picked@;
            let ds = decoded@;
            assert forall|i: int| 0 <= i < ds.len() implies is_picked(
                ns,
                ps,
                k + 1,
                (#[trigger] ds[i]).0,
            ) by {
                if i < before.len() {
                    assert(is_picked(ns, ps, k as int, before[i].0));
                    let j = choose|j: int|
                        0 <= j < k && ns[#[trigger] ps[j] as int] == before[i].0;
                    assert(ns[ps[j] as int] == ds[i].0);
                } else {
                    assert(ns[ps[k as int] as int] == ds[i].0);
                }
            }
            assert forall|i: int| 0 <= i < before.len() implies (#[trigger] before[i]).0 != pn by {
                assert(is_picked(ns, ps, k as int, before[i].0));
                let j = choose|j: int| 0 <= j < k && ns[#[trigger] ps[j] as int] == before[i].0;
                assert(ns[ps[j] as int] != ns[ps[k as int] as int]);
            }
            assert forall|i: int, j: int| 0 <= i < j < ds.len() implies (#[trigger] ds[i]).0 != (
            #[trigger] ds[j]).0 by {
                assert(ds[i] == before[i]);
                if j < before.len() {
                    assert(ds[j] == before[j]);
                }
            }
            assert forall|i: int| 0 <= i < ds.len() implies is_decoded_page(
                stored,
                calibration@,
                #[trigger] ds[i],
            ) by {
                if i < before.len() {
                    assert(ds[i] == before[i]);
                }
            }
            assert forall|j: int|
                0 <= j < k + 1 && ns[#[trigger] ps[j] as int] < stored.len() implies has_page(
                ds,
                ns[ps[j] as int],
            ) by {
                if j < k {
                    assert(has_page(before, ns[ps[j] as int]));
                    let i = choose|i: int|
                        0 <= i < before.len() && (#[trigger] before[i]).0 == ns[ps[j] as int];
                    assert(ds[i].0 == ns[ps[j] as int]);
                }
            }
        }
    }
    proof {
        lemma_table_pages(stored, calibration@, tables@, numbers@, picked@, decoded@);
    }
    decoded
}

/// Bridges `SYSCOLUMN` owners to table names using only the `SYSTABLE`
/// back-reference.
///
/// Decodes just the pages that carry `SYSTABLE` rows. `calibration` holds, by
/// page number, the calibration bytes that are known. Which of several
/// plaintexts a page of a fill type decodes to is left open (see
/// [`decode_page`]); `bridge_from_pages` says what follows from each.
pub fn bridge_owners_via_backref(
    store: &PageStore,
    model: &ApModel,
    calibration: &[Option<u8>],
    columns: &[SysColumn],
    tables: &[SysTableEntry],
) -> (bridge: OwnerBridge)
    ensures
        exists|plains: Map<u64, Seq<u8>>| #[trigger]
            are_decoded(pages::stored_pages(*store), calibration@, tables@, plains)
                && is_backref_bridge(syscolumn::column_views(columns@), tables@, plains, bridge),
{
    let decoded = decode_table_pages(store, model, calibration, tables);
    bridge_from_pages(columns, tables, &decoded)
}

/// The map `m` with the first `k` scanned mappings filled in where an owner had
/// none.
pub open spec fn filled_in(m: Map<u32, Bridged>, scanned: Seq<(u32, String)>, k: int) -> Map<
    u32,
    Bridged,
>
    decreases k,
{
    if k <= 0 {
        m
    } else {
        let rest = filled_in(m, scanned, k - 1);
        if rest.contains_key(scanned[k - 1].0) {
            rest
        } else {
            rest.insert(scanned[k - 1].0, (scanned[k - 1].1@, BridgeSource::SysObjectScan))
        }
    }
}

/// Merges what the `SYSOBJECT` name scan found into `bridge`, filling in owners
/// that the back-reference did not resolve. Existing entries win: the
/// back-reference is calibrated against the file, the name scan is not.
pub fn extend_with_sysobject(bridge: &mut OwnerBridge, scanned: &[(u32, String)])
    requires
        old(bridge).wf(),
    ensures
        final(bridge).wf(),
        final(bridge)@ == filled_in(old(bridge)@, scanned@, scanned@.len() as int),
        final(bridge).from_backref == old(bridge).from_backref,
        final(bridge).backref_distance == old(bridge).backref_distance,
        final(bridge).ambiguous_owners == old(bridge).ambiguous_owners,
{
    let ghost before = *bridge;
    for k in 0..scanned.len()
        invariant
            before == *old(bridge),
            bridge.wf(),
            bridge@ == filled_in(before@, scanned@, k as int),
            bridge.from_backref == before.from_backref,
            bridge.backref_distance == before.backref_distance,
            bridge.ambiguous_owners == before.ambiguous_owners,
    {
        bridge.insert(scanned[k].0, scanned[k].1.clone(), BridgeSource::SysObjectScan);
    }
}

/// Filling in never displaces a mapping, and adds only mappings that were
/// scanned.
pub proof fn lemma_filled_in(m: Map<u32, Bridged>, scanned: Seq<(u32, String)>, k: int, o: u32)
    requires
        0 <= k <= scanned.len(),
    ensures
        m.contains_key(o) ==> filled_in(m, scanned, k).contains_key(o) && filled_in(m, scanned, k)[o]
            == m[o],
        filled_in(m, scanned, k).contains_key(o) && !m.contains_key(o) ==> exists|i: int|
            0 <= i < k && (#[trigger] scanned[i]).0 == o && filled_in(m, scanned, k)[o] == (
                scanned[i].1@,
                BridgeSource::SysObjectScan,
            ) && forall|j: int| 0 <= j < i ==> (#[trigger] scanned[j]).0 != o,
        (exists|i: int| 0 <= i < k && (#[trigger] scanned[i]).0 == o) ==> filled_in(
            m,
            scanned,
            k,
        ).contains_key(o),
    decreases k,
{
    if k > 0 {
        lemma_filled_in(m, scanned, k - 1, o);
    }
}

/// Every owner that the back-reference bridges is one that `SYSCOLUMN` rows use;
/// zero is never bridged.
pub proof fn lemma_bridged_owner_is_used(
    columns: Seq<ColumnView>,
    tables: Seq<SysTableEntry>,
    plains: Map<u64, Seq<u8>>,
    bridge: OwnerBridge,
    o: u32,
)
    requires
        is_backref_bridge(columns, tables, plains, bridge),
        bridge@.contains_key(o),
    ensures
        o != 0,
        column_owners(columns).contains(o),
        bridge@[o].1 == BridgeSource::SysTableBackref,
        exists|i: int| 0 <= i < tables.len() && (#[trigger] tables[i]).name@ == bridge@[o].0,
{
    let owners = column_owners(columns);
    let d = bridge.backref_distance->0 as int;
    lemma_sighted(tables, plains, owners, d, o, bridge@[o].0);
}

/// What was sighted was sighted in some catalog row.
proof fn lemma_sighted(
    tables: Seq<SysTableEntry>,
    plains: Map<u64, Seq<u8>>,
    owners: Set<u32>,
    distance: int,
    owner: u32,
    name: Seq<char>,
)
    requires
        table_sightings(tables, plains, owners, distance, owner, name) > 0,
    ensures
        owner != 0,
        owners.contains(owner),
        exists|i: int| 0 <= i < tables.len() && (#[trigger] tables[i]).name@ == name,
    decreases tables.len(),
{
    if tables.len() > 0 {
        let rest = tables.drop_last();
        if table_sightings(rest, plains, owners, distance, owner, name) > 0 {
            lemma_sighted(rest, plains, owners, distance, owner, name);
            let i = choose|i: int| 0 <= i < rest.len() && (#[trigger] rest[i]).name@ == name;
            assert(tables[i].name@ == name);
        } else {
            assert(tables[tables.len() - 1].name@ == name);
        }
    }
}

/// The row of the table says, `d` bytes before its tag, that its owner is `o`: an
/// owner other than zero that one of the columns has. The row is on a page that was
/// decoded.
pub open spec fn row_says(
    columns: Seq<ColumnView>,
    plains: Map<u64, Seq<u8>>,
    t: SysTableEntry,
    d: int,
    o: u32,
) -> bool {
    &&& plains.contains_key(t.page_number)
    &&& backref::holds_number(plains[t.page_number], t.row_offset - d, o as int)
    &&& o != 0
    &&& exists|i: int| 0 <= i < columns.len() && (#[trigger] columns[i]).owner_object_id == o
}

/// One more catalog row counts once, under its own name, at the distances from 4 to 96
/// at which it says the owner; without rows nothing is counted.
pub proof fn lemma_one_more_table(
    columns: Seq<ColumnView>,
    tables: Seq<SysTableEntry>,
    t: SysTableEntry,
    plains: Map<u64, Seq<u8>>,
    d: int,
    o: u32,
    n: Seq<char>,
)
    ensures
        table_tally(tables.push(t), plains, column_owners(columns))(d, o, n) == table_tally(
            tables,
            plains,
            column_owners(columns),
        )(d, o, n) + if 4 <= d <= 96 && row_says(columns, plains, t, d, o) && n == t.name@ {
            1nat
        } else {
            0
        },
        table_tally(Seq::empty(), plains, column_owners(columns))(d, o, n) == 0,
{
    assert(tables.push(t).drop_last() =~= tables);
}

proof fn lemma_row_counts(
    columns: Seq<ColumnView>,
    tables: Seq<SysTableEntry>,
    plains: Map<u64, Seq<u8>>,
    d: int,
    o: u32,
    n: Seq<char>,
)
    requires
        4 <= d <= 96,
    ensures
        table_sightings(tables, plains, column_owners(columns), d, o, n) > 0 <==> exists|i: int|
            0 <= i < tables.len() && row_says(columns, plains, #[trigger] tables[i], d, o)
                && tables[i].name@ == n,
    decreases tables.len(),
{
    if tables.len() > 0 {
        let rest = tables.drop_last();
        let t = tables.last();
        lemma_row_counts(columns, rest, plains, d, o, n);
        lemma_one_more_table(columns, rest, t, plains, d, o, n);
        assert(rest.push(t) =~= tables);
        if table_sightings(rest, plains, column_owners(columns), d, o, n) > 0 {
            let i = choose|i: int|
                0 <= i < rest.len() && row_says(columns, plains, #[trigger] rest[i], d, o)
                    && rest[i].name@ == n;
            assert(tables[i] == rest[i]);
        } else if row_says(columns, plains, t, d, o) && t.name@ == n {
            assert(tables[tables.len() - 1] == t);
        }
        if exists|i: int|
            0 <= i < tables.len() && row_says(columns, plains, #[trigger] tables[i], d, o)
                && tables[i].name@ == n {
            let i = choose|i: int|
                0 <= i < tables.len() && row_says(columns, plains, #[trigger] tables[i], d, o)
                    && tables[i].name@ == n;
            if i < rest.len() {
                assert(rest[i] == tables[i]);
            }
        }
    }
}

/// At the calibrated distance, an owner that a catalog row says is mapped: to the name
/// of the table, where all rows that say it name the same table, and else to the name
/// of one of the rows that say it. An owner that no row says is not mapped.
pub proof fn lemma_row_bridges_owner(
    columns: Seq<ColumnView>,
    tables: Seq<SysTableEntry>,
    plains: Map<u64, Seq<u8>>,
    bridge: OwnerBridge,
    d: usize,
    o: u32,
)
    requires
        is_backref_bridge(columns, tables, plains, bridge),
        bridge.backref_distance == Some(d),
    ensures
        4 <= d <= 96,
        bridge@.contains_key(o) <==> exists|i: int|
            0 <= i < tables.len() && row_says(columns, plains, #[trigger] tables[i], d as int, o),
        bridge@.contains_key(o) ==> exists|i: int|
            0 <= i < tables.len() && row_says(columns, plains, #[trigger] tables[i], d as int, o)
                && tables[i].name@ == bridge@[o].0,
        bridge@.contains_key(o) ==> bridge@[o].1 == BridgeSource::SysTableBackref,
        forall|n: Seq<char>|
            (forall|i: int|
                0 <= i < tables.len() && row_says(
                    columns,
                    plains,
                    #[trigger] tables[i],
                    d as int,
                    o,
                ) ==> tables[i].name@ == n) && bridge@.contains_key(o) ==> #[trigger] same_name(
                bridge@[o].0,
                n,
            ),
{
    let tally = table_tally(tables, plains, column_owners(columns));
    backref::lemma_best_distance(tally, bridge.backref_distance, 4);
    if bridge@.contains_key(o) {
        let n = bridge@[o].0;
        assert(backref::is_majority(tally, d as int, o, n));
        lemma_row_counts(columns, tables, plains, d as int, o, n);
    }
    assert forall|i: int|
        0 <= i < tables.len() && row_says(
            columns,
            plains,
            #[trigger] tables[i],
            d as int,
            o,
        ) implies bridge@.contains_key(o) by {
        lemma_row_counts(columns, tables, plains, d as int, o, tables[i].name@);
        backref::lemma_bridge_takes_majority(tally, d, bridge, o, tables[i].name@);
    }
}

/// The names are the same.
pub open spec fn same_name(a: Seq<char>, b: Seq<char>) -> bool {
    a == b
}

/// A file calibrates as soon as its catalog rows say, at one distance from 4 to 96, four
/// different pairs of owner and table name.
pub proof fn lemma_four_rows_calibrate(
    columns: Seq<ColumnView>,
    tables: Seq<SysTableEntry>,
    plains: Map<u64, Seq<u8>>,
    bridge: OwnerBridge,
    d: int,
    rows: Set<(u32, Seq<char>)>,
)
    requires
        is_backref_bridge(columns, tables, plains, bridge),
        4 <= d <= 96,
        rows.finite(),
        rows.len() >= 4,
        forall|p: (u32, Seq<char>)|
            rows.contains(p) <==> exists|i: int|
                0 <= i < tables.len() && row_says(columns, plains, #[trigger] tables[i], d, p.0)
                    && tables[i].name@ == p.1,
    ensures
        bridge.backref_distance is Some,
{
    let tally = table_tally(tables, plains, column_owners(columns));
    backref::lemma_best_distance(tally, bridge.backref_distance, d);
    let pairs = Set::new(|p: (u32, Seq<char>)| tally(d, p.0, p.1) > 0);
    assert forall|p: (u32, Seq<char>)| pairs.contains(p) <==> rows.contains(p) by {
        lemma_row_counts(columns, tables, plains, d, p.0, p.1);
    }
    assert(pairs =~= rows);
}

/// Without a calibrated distance nothing is mapped.
pub proof fn lemma_no_distance_no_bridge(
    columns: Seq<ColumnView>,
    tables: Seq<SysTableEntry>,
    plains: Map<u64, Seq<u8>>,
    bridge: OwnerBridge,
    o: u32,
)
    requires
        is_backref_bridge(columns, tables, plains, bridge),
        bridge.backref_distance is None,
    ensures
        !bridge@.contains_key(o),
        bridge.from_backref == 0 && bridge.from_sysobject == 0 && bridge.ambiguous_owners == 0,
{
}

/// The page of every catalog row that the store holds is decoded, under the
/// calibration byte that is known for it; a page without catalog rows is not.
pub proof fn lemma_table_pages_decoded(
    stored: Seq<Seq<u8>>,
    calibration: Seq<Option<u8>>,
    tables: Seq<SysTableEntry>,
    plains: Map<u64, Seq<u8>>,
)
    requires
        are_decoded(stored, calibration, tables, plains),
    ensures
        forall|i: int|
            0 <= i < tables.len() && (#[trigger] tables[i]).page_number < stored.len()
                ==> plains.contains_key(tables[i].page_number),
        forall|pn: u64| #[trigger]
            plains.contains_key(pn) ==> pn < stored.len() && exists|i: int|
                0 <= i < tables.len() && (#[trigger] tables[i]).page_number == pn,
        forall|pn: u64| #[trigger]
            plains.contains_key(pn) && pn < calibration.len() && calibration[pn as int] is Some
                ==> plains[pn] == pages::plaintext_with_bv(
                stored[pn as int],
                pn,
                calibration[pn as int]->0,
            ),
        forall|pn: u64| #[trigger]
            plains.contains_key(pn) && (pn >= calibration.len() || calibration[pn as int] is None)
                && stored[pn as int][0xFF2] == 'E' as u8 ==> plains[pn] == pages::plaintext(
                stored[pn as int],
                pn,
            ),
{
    assert forall|i: int|
        0 <= i < tables.len() && (#[trigger] tables[i]).page_number < stored.len() implies plains.contains_key(
        tables[i].page_number,
    ) by {
    }
}

/// One more owner covers its table, and changes nothing for the other tables.
pub proof fn lemma_one_more_owner(m: Map<u32, Bridged>, o: u32, entry: Bridged)
    requires
        !m.contains_key(o),
    ensures
        bridged_names(m.insert(o, entry)) == bridged_names(m).insert(entry.0),
        bridged_names(Map::<u32, Bridged>::empty()) == Set::<Seq<char>>::empty(),
{
    let after = m.insert(o, entry);
    assert forall|n: Seq<char>| bridged_names(after).contains(n) <==> bridged_names(m).insert(
        entry.0,
    ).contains(n) by {
        if bridged_names(after).contains(n) {
            let p = choose|p: u32| after.contains_key(p) && #[trigger] after[p].0 == n;
            if p != o {
                assert(m[p].0 == n);
            }
        }
        if bridged_names(m).contains(n) {
            let p = choose|p: u32| m.contains_key(p) && #[trigger] m[p].0 == n;
            assert(after[p].0 == n);
        }
        if n == entry.0 {
            assert(after[o].0 == n);
        }
    }
    assert(bridged_names(after) =~= bridged_names(m).insert(entry.0));
    assert(bridged_names(Map::<u32, Bridged>::empty()) =~= Set::<Seq<char>>::empty());
}

} // verus!
