//! Looking a table's columns up by the table's name.

use opensqlany::{ApModel, PageStore};
use vstd::prelude::*;
use vstd::set_lib::*;

use crate::order;
use crate::order::{count_distinct, sort_order};
use crate::owner_bridge;
use crate::owner_bridge::{
    bridge_owners_via_backref, extend_with_sysobject, BridgeSource, Bridged, OwnerBridge,
};
use crate::pages;
use crate::syscolumn;
use crate::syscolumn::{iter_syscolumns, ColumnView, SysColumn};
use crate::systable::SysTableEntry;
use crate::text::same_text;

verus! {

/// Largest `column_id` treated as a real ordinal rather than the residue of a
/// mis-parsed row.
pub const MAX_PLAUSIBLE_COLUMN_ID: u32 = 4096;

/// Everything that looking a table up brought to light, so that a caller can
/// explain a miss instead of reporting a bare "not found".
#[derive(Debug, Clone)]
pub struct SchemaRecovery {
    /// Table that was asked for.
    pub table: String,
    /// Whether the `SYSTABLE` catalog lists that name at all.
    pub in_catalog: bool,
    /// Table id of the first catalog row for the name.
    pub catalog_table_id: Option<u32>,
    /// Total `SYSCOLUMN` rows recovered from the file.
    pub syscolumn_rows: usize,
    /// Distinct owners among those rows.
    pub distinct_owners: usize,
    /// Owner the table was bridged to, if any.
    pub owner: Option<u32>,
    /// How that owner was bridged.
    pub source: Option<BridgeSource>,
    /// Back-reference distance calibrated for the file.
    pub backref_distance: Option<usize>,
    /// Distinct table names the bridge covers.
    pub bridged_tables: usize,
    /// Owners bridged by the `SYSTABLE` back-reference.
    pub from_backref: usize,
    /// Owners bridged by the `SYSOBJECT` scan.
    pub from_sysobject: usize,
    /// The table's columns, ordered by `column_id`. Empty when the table could
    /// not be bridged to an owner.
    pub columns: Vec<SysColumn>,
}

/// The column id is a plausible ordinal.
pub open spec fn is_plausible(id: u32) -> bool {
    0 < id <= MAX_PLAUSIBLE_COLUMN_ID
}

/// The columns whose id is plausible.
pub open spec fn plausible(columns: Seq<SysColumn>) -> Seq<SysColumn> {
    columns.filter(|c: SysColumn| is_plausible(c.column_id))
}

/// The plausible ids that occur.
pub open spec fn plausible_ids(columns: Seq<SysColumn>) -> Set<int> {
    Set::new(
        |id: int|
            exists|i: int|
                0 <= i < columns.len() && is_plausible((#[trigger] columns[i]).column_id)
                    && columns[i].column_id == id,
    )
}

/// The ids that do not occur, though plausible ones below and above them do.
pub open spec fn missing_ids(columns: Seq<SysColumn>) -> Set<int> {
    Set::new(
        |id: int|
            !plausible_ids(columns).contains(id) && exists|lo: int, hi: int|
                lo < id < hi && #[trigger] plausible_ids(columns).contains(lo)
                    && #[trigger] plausible_ids(columns).contains(hi),
    )
}

/// `lo` and `hi` are the lowest and the highest plausible id.
pub open spec fn is_id_range(columns: Seq<SysColumn>, lo: u32, hi: u32) -> bool {
    &&& plausible_ids(columns).contains(lo as int)
    &&& plausible_ids(columns).contains(hi as int)
    &&& forall|id: int| #[trigger] plausible_ids(columns).contains(id) ==> lo <= id <= hi
}

proof fn lemma_plausible_push(columns: Seq<SysColumn>, k: int)
    requires
        0 <= k < columns.len(),
    ensures
        plausible(columns.take(k + 1)) == if is_plausible(columns[k].column_id) {
            plausible(columns.take(k)).push(columns[k])
        } else {
            plausible(columns.take(k))
        },
        plausible(columns.take(k)).len() <= k,
    decreases k,
{
    reveal(Seq::filter);
    assert(columns.take(k + 1).drop_last() =~= columns.take(k));
    assert(columns.take(k + 1).last() == columns[k]);
    if k > 0 {
        lemma_plausible_push(columns, k - 1);
    } else {
        assert(plausible(columns.take(0)).len() == 0);
    }
}

impl SchemaRecovery {
    /// Columns whose `column_id` is a plausible ordinal, in order. A mis-parsed
    /// row can carry a wild id, which would otherwise swamp the gap report.
    pub fn plausible_columns(&self) -> (columns: Vec<&SysColumn>)
        ensures
            columns@.len() == plausible(self.columns@).len(),
            forall|i: int|
                0 <= i < columns@.len() ==> *(#[trigger] columns@[i]) == plausible(self.columns@)[i],
    {
        let mut columns: Vec<&SysColumn> = Vec::new();
        assert(plausible(self.columns@.take(0)).len() == 0) by {
            reveal(Seq::filter);
        }
        for k in 0..self.columns.len()
            invariant
                columns@.len() == plausible(self.columns@.take(k as int)).len(),
                forall|i: int|
                    0 <= i < columns@.len() ==> *(#[trigger] columns@[i]) == plausible(
                        self.columns@.take(k as int),
                    )[i],
        {
            proof {
                lemma_plausible_push(self.columns@, k as int);
            }
            let id: u32 = self.columns[k].column_id;
            if 0 < id && id <= MAX_PLAUSIBLE_COLUMN_ID {
                columns.push(&self.columns[k]);
            }
        }
        assert(self.columns@.take(self.columns@.len() as int) =~= self.columns@);
        columns
    }

    /// Number of recovered rows whose `column_id` is not a plausible ordinal.
    pub fn implausible_column_ids(&self) -> (n: usize)
        ensures
            n == self.columns@.len() - plausible(self.columns@).len(),
    {
        let columns = self.plausible_columns();
        proof {
            if self.columns@.len() > 0 {
                lemma_plausible_push(self.columns@, self.columns@.len() - 1);
                assert(self.columns@.take(self.columns@.len() as int) =~= self.columns@);
            } else {
                reveal(Seq::filter);
            }
        }
        self.columns.len() - columns.len()
    }

    /// Lowest and highest plausible `column_id` recovered, if any.
    pub fn column_id_range(&self) -> (range: Option<(u32, u32)>)
        ensures
            match range {
                Some((lo, hi)) => is_id_range(self.columns@, lo, hi),
                None => plausible_ids(self.columns@) == Set::<int>::empty(),
            },
    {
        let mut range: Option<(u32, u32)> = None;
        assert(plausible_ids(self.columns@.take(0)) =~= Set::<int>::empty());
        for k in 0..self.columns.len()
            invariant
                match range {
                    Some((lo, hi)) => is_id_range(self.columns@.take(k as int), lo, hi),
                    None => plausible_ids(self.columns@.take(k as int)) == Set::<int>::empty(),
                },
        {
            let id: u32 = self.columns[k].column_id;
            proof {
                lemma_ids_push(self.columns@, k as int);
            }
            if 0 < id && id <= MAX_PLAUSIBLE_COLUMN_ID {
                range = match range {
                    Some((lo, hi)) => Some(
                        (
                            if id < lo {
                                id
                            } else {
                                lo
                            },
                            if id > hi {
                                id
                            } else {
                                hi
                            },
                        ),
                    ),
                    None => Some((id, id)),
                };
            }
        }
        assert(self.columns@.take(self.columns@.len() as int) =~= self.columns@);
        range
    }

    fn has_id(&self, id: u32) -> (found: bool)
        requires
            is_plausible(id),
        ensures
            found == plausible_ids(self.columns@).contains(id as int),
    {
        for k in 0..self.columns.len()
            invariant
                is_plausible(id),
                forall|i: int| 0 <= i < k ==> (#[trigger] self.columns@[i]).column_id != id,
        {
            if self.columns[k].column_id == id {
                return true;
            }
        }
        false
    }

    /// How many `column_id`s inside [`Self::column_id_range`] have no recovered
    /// row.
    pub fn missing_column_ids(&self) -> (n: usize)
        ensures
            missing_ids(self.columns@).finite(),
            n == missing_ids(self.columns@).len(),
    {
        let ghost ids = plausible_ids(self.columns@);
        let ghost missing = missing_ids(self.columns@);
        match self.column_id_range() {
            Some((lo, hi)) => {
                let mut n: usize = 0;
                let ghost mut found = Set::<int>::empty();
                let mut id: u32 = lo;
                assert(is_plausible(lo) && is_plausible(hi));
                while id < hi
                    invariant
                        ids == plausible_ids(self.columns@),
                        is_id_range(self.columns@, lo, hi),
                        is_plausible(lo),
                        is_plausible(hi),
                        lo <= id <= hi,
                        n <= id - lo,
                        found.finite(),
                        n == found.len(),
                        forall|x: int| #[trigger]
                            found.contains(x) <==> lo <= x < id && !ids.contains(x),
                    decreases hi - id,
                {
                    if !self.has_id(id) {
                        n = n + 1;
                        proof {
                            found = found.insert(id as int);
                        }
                    }
                    id = id + 1;
                }
                proof {
                    assert forall|x: int| found.contains(x) <==> missing.contains(x) by {
                        if found.contains(x) {
                            assert(ids.contains(lo as int) && ids.contains(hi as int));
                            assert(lo < x < hi);
                        }
                    }
                    assert(found =~= missing);
                }
                n
            },
            None => {
                assert(missing =~= Set::<int>::empty());
                0
            },
        }
    }

    /// `true` when the recovered `column_id`s have holes.
    pub fn has_column_gaps(&self) -> (r: bool)
        ensures
            r == (missing_ids(self.columns@) != Set::<int>::empty()),
    {
        let n: usize = self.missing_column_ids();
        proof {
            if n == 0 {
                assert(missing_ids(self.columns@) =~= Set::<int>::empty());
            }
        }
        n > 0
    }
}

proof fn lemma_ids_push(columns: Seq<SysColumn>, k: int)
    requires
        0 <= k < columns.len(),
    ensures
        plausible_ids(columns.take(k + 1)) == if is_plausible(columns[k].column_id) {
            plausible_ids(columns.take(k)).insert(columns[k].column_id as int)
        } else {
            plausible_ids(columns.take(k))
        },
{
    let before = columns.take(k);
    let after = columns.take(k + 1);
    assert(after[k] == columns[k]);
    assert forall|id: int| plausible_ids(after).contains(id) <==> plausible_ids(before).contains(id)
        || (is_plausible(columns[k].column_id) && id == columns[k].column_id) by {
        if plausible_ids(before).contains(id) {
            let i = choose|i: int|
                0 <= i < before.len() && is_plausible((#[trigger] before[i]).column_id)
                    && before[i].column_id == id;
            assert(after[i].column_id == id);
        }
        if plausible_ids(after).contains(id) {
            let i = choose|i: int|
                0 <= i < after.len() && is_plausible((#[trigger] after[i]).column_id)
                    && after[i].column_id == id;
            if i < k {
                assert(before[i].column_id == id);
            }
        }
    }
    if is_plausible(columns[k].column_id) {
        assert(plausible_ids(after) =~= plausible_ids(before).insert(columns[k].column_id as int));
    } else {
        assert(plausible_ids(after) =~= plausible_ids(before));
    }
}

/// No plausible id occurs twice.
pub open spec fn distinct_ids(columns: Seq<SysColumn>) -> bool {
    forall|i: int, j: int|
        0 <= i < j < columns.len() && is_plausible((#[trigger] columns[i]).column_id)
            ==> columns[i].column_id != (#[trigger] columns[j]).column_id
}

proof fn lemma_ids_count(columns: Seq<SysColumn>, k: int)
    requires
        distinct_ids(columns),
        0 <= k <= columns.len(),
    ensures
        plausible_ids(columns.take(k)).finite(),
        plausible_ids(columns.take(k)).len() == plausible(columns.take(k)).len(),
    decreases k,
{
    if k == 0 {
        reveal(Seq::filter);
        assert(plausible_ids(columns.take(0)) =~= Set::<int>::empty());
    } else {
        lemma_ids_count(columns, k - 1);
        lemma_ids_push(columns, k - 1);
        lemma_plausible_push(columns, k - 1);
        let id = columns[k - 1].column_id;
        let before = columns.take(k - 1);
        if is_plausible(id) && plausible_ids(before).contains(id as int) {
            let i = choose|i: int|
                0 <= i < before.len() && is_plausible((#[trigger] before[i]).column_id)
                    && before[i].column_id == id;
            assert(columns[i].column_id == columns[k - 1].column_id);
        }
    }
}

/// Where no id occurs twice, the missing ids are those of the range less the
/// plausible columns.
pub proof fn lemma_gap_count(columns: Seq<SysColumn>, lo: u32, hi: u32)
    requires
        distinct_ids(columns),
        is_id_range(columns, lo, hi),
    ensures
        missing_ids(columns).len() == hi - lo + 1 - plausible(columns).len(),
{
    let ids = plausible_ids(columns);
    let missing = missing_ids(columns);
    lemma_ids_count(columns, columns.len() as int);
    assert(columns.take(columns.len() as int) =~= columns);
    let range = set_int_range(lo as int, hi + 1);
    lemma_int_range(lo as int, hi + 1);
    assert forall|x: int| range.contains(x) <==> ids.contains(x) || missing.contains(x) by {
        if range.contains(x) && !ids.contains(x) {
            assert(ids.contains(lo as int) && ids.contains(hi as int));
            assert(lo < x < hi);
        }
    }
    assert(range =~= ids + missing);
    assert(missing =~= range.difference(ids));
    assert(missing.subset_of(range));
    lemma_len_subset(missing, range);
    assert(ids.disjoint(missing));
    lemma_set_disjoint_lens(ids, missing);
}

/// Where the columns are in order of their ids, the range runs from the id of the
/// first plausible column to that of the last.
pub proof fn lemma_range_of_sorted(columns: Seq<SysColumn>, lo: u32, hi: u32)
    requires
        is_id_range(columns, lo, hi),
        forall|i: int, j: int|
            0 <= i <= j < columns.len() ==> (#[trigger] columns[i]).column_id <= (
            #[trigger] columns[j]).column_id,
    ensures
        plausible(columns).len() > 0,
        lo == plausible(columns).first().column_id,
        hi == plausible(columns).last().column_id,
{
    let n = columns.len() as int;
    assert(columns.take(n) =~= columns);
    lemma_sorted_ends(columns, n);
    let ids = plausible_ids(columns);
    assert(ids.contains(lo as int) && ids.contains(hi as int));
    let p = plausible(columns);
    assert(ids.contains(p.first().column_id as int) && ids.contains(p.last().column_id as int));
}

proof fn lemma_sorted_ends(columns: Seq<SysColumn>, k: int)
    requires
        0 <= k <= columns.len(),
        forall|i: int, j: int|
            0 <= i <= j < columns.len() ==> (#[trigger] columns[i]).column_id <= (
            #[trigger] columns[j]).column_id,
    ensures
        forall|id: int| #[trigger]
            plausible_ids(columns.take(k)).contains(id) ==> plausible(columns.take(k)).len() > 0
                && plausible(columns.take(k)).first().column_id <= id <= plausible(
                columns.take(k),
            ).last().column_id,
        plausible(columns.take(k)).len() > 0 ==> plausible_ids(columns.take(k)).contains(
            plausible(columns.take(k)).first().column_id as int,
        ) && plausible_ids(columns.take(k)).contains(
            plausible(columns.take(k)).last().column_id as int,
        ),
    decreases k,
{
    if k == 0 {
        reveal(Seq::filter);
        assert(plausible_ids(columns.take(0)) =~= Set::<int>::empty());
    } else {
        lemma_sorted_ends(columns, k - 1);
        lemma_ids_push(columns, k - 1);
        lemma_plausible_push(columns, k - 1);
        let before = columns.take(k - 1);
        let id = columns[k - 1].column_id;
        if is_plausible(id) {
            assert forall|x: int| plausible_ids(before).contains(x) implies x <= id by {
                let i = choose|i: int|
                    0 <= i < before.len() && is_plausible((#[trigger] before[i]).column_id)
                        && before[i].column_id == x;
                assert(columns[i].column_id <= columns[k - 1].column_id);
            }
            let p = plausible(before);
            if p.len() > 0 {
                assert(p.push(columns[k - 1]).first() == p.first());
                assert(plausible_ids(before).contains(p.first().column_id as int));
            }
        }
    }
}

/// `m` maps `owner` to the table `name`.
pub open spec fn maps_to(m: Map<u32, Bridged>, owner: u32, name: Seq<char>) -> bool {
    m.contains_key(owner) && m[owner].0 == name
}

/// The map that decides on a table: that of the back-reference, with what the
/// `SYSOBJECT` scan found filled in only when the back-reference does not resolve
/// the table.
pub open spec fn resolved_map(
    m: Map<u32, Bridged>,
    scanned: Seq<(u32, String)>,
    name: Seq<char>,
) -> Map<u32, Bridged> {
    if exists|o: u32| maps_to(m, o, name) {
        m
    } else {
        owner_bridge::filled_in(m, scanned, scanned.len() as int)
    }
}

/// The distinct pairs of id and name among the rows of an owner.
pub open spec fn columns_of(rows: Seq<ColumnView>, owner: u32) -> Set<(u32, Seq<char>)> {
    Set::new(
        |p: (u32, Seq<char>)|
            exists|i: int|
                0 <= i < rows.len() && (#[trigger] rows[i]).owner_object_id == owner
                    && rows[i].column_id == p.0 && rows[i].name == p.1,
    )
}

/// Of the owners that are mapped to the table, `owner` has the most columns, and
/// is the lowest of those that have as many.
pub open spec fn is_best_owner(
    rows: Seq<ColumnView>,
    m: Map<u32, Bridged>,
    name: Seq<char>,
    owner: u32,
) -> bool {
    &&& maps_to(m, owner, name)
    &&& forall|o: u32| #[trigger]
        maps_to(m, o, name) ==> columns_of(rows, o).len() < columns_of(rows, owner).len() || (
        columns_of(rows, o).len() == columns_of(rows, owner).len() && owner <= o)
}

/// The rows of an owner.
pub open spec fn rows_of_owner(rows: Seq<ColumnView>, owner: u32) -> Seq<ColumnView> {
    rows.filter(|c: ColumnView| c.owner_object_id == owner)
}

/// The ids of rows.
pub open spec fn ids_of(rows: Seq<ColumnView>) -> Seq<u32> {
    rows.map_values(|c: ColumnView| c.column_id)
}

/// The rows in order of their ids; rows with the same id stay in their order.
pub open spec fn sorted_by_id(rows: Seq<ColumnView>) -> Seq<ColumnView> {
    order::stable_order::<u32>(ids_of(rows)).map_values(|p: usize| rows[p as int])
}

/// Two rows have the same id and name.
pub open spec fn same_id_and_name(a: ColumnView, b: ColumnView) -> bool {
    a.column_id == b.column_id && a.name == b.name
}

/// The rows less those with the id and name of the row kept before them.
pub open spec fn without_repeats(rows: Seq<ColumnView>) -> Seq<ColumnView>
    decreases rows.len(),
{
    if rows.len() == 0 {
        rows
    } else {
        let kept = without_repeats(rows.drop_last());
        if kept.len() > 0 && same_id_and_name(kept.last(), rows.last()) {
            kept
        } else {
            kept.push(rows.last())
        }
    }
}

/// The columns of an owner, in order of their ids.
pub open spec fn owner_columns(rows: Seq<ColumnView>, owner: u32) -> Seq<ColumnView> {
    without_repeats(sorted_by_id(rows_of_owner(rows, owner)))
}

/// `id` is the table id of the first catalog row for the name.
pub open spec fn is_catalog_id(
    tables: Seq<SysTableEntry>,
    name: Seq<char>,
    id: Option<u32>,
) -> bool {
    match id {
        Some(tid) => exists|i: int|
            0 <= i < tables.len() && (#[trigger] tables[i]).name@ == name && tables[i].table_id == tid
                && forall|j: int| 0 <= j < i ==> (#[trigger] tables[j]).name@ != name,
        None => forall|i: int| 0 <= i < tables.len() ==> (#[trigger] tables[i]).name@ != name,
    }
}

/// `found` is what looking up the table `name` brings to light, where `bridge` is
/// the bridge that the back-references give and `scanned` what the `SYSOBJECT`
/// scan found.
pub open spec fn is_recovery(
    rows: Seq<ColumnView>,
    tables: Seq<SysTableEntry>,
    bridge: OwnerBridge,
    scanned: Seq<(u32, String)>,
    name: Seq<char>,
    found: SchemaRecovery,
) -> bool {
    let m = resolved_map(bridge@, scanned, name);
    &&& found.table@ == name
    &&& found.in_catalog == found.catalog_table_id is Some
    &&& is_catalog_id(tables, name, found.catalog_table_id)
    &&& found.syscolumn_rows == rows.len()
    &&& found.distinct_owners == rows.map_values(|c: ColumnView| c.owner_object_id).to_set().len()
    &&& found.backref_distance == bridge.backref_distance
    &&& found.bridged_tables == owner_bridge::bridged_names(m).len()
    &&& found.from_backref == owner_bridge::owners_from(m, BridgeSource::SysTableBackref).len()
    &&& found.from_sysobject == owner_bridge::owners_from(m, BridgeSource::SysObjectScan).len()
    &&& match found.owner {
        Some(owner) => {
            &&& is_best_owner(rows, m, name, owner)
            &&& found.source == Some(m[owner].1)
            &&& syscolumn::column_views(found.columns@) == owner_columns(rows, owner)
        },
        None => {
            &&& forall|o: u32| !maps_to(m, o, name)
            &&& found.source is None
            &&& found.columns@.len() == 0
        },
    }
}

/// The number of distinct pairs of id and name among the rows of an owner.
fn count_columns(columns: &[SysColumn], owner: u32) -> (n: usize)
    ensures
        n == columns_of(syscolumn::column_views(columns@), owner).len(),
{
    let ghost rows = syscolumn::column_views(columns@);
    let mut keys: Vec<(u32, &str)> = Vec::new();
    assert(order::key_views(keys@).to_set() =~= columns_of(rows.take(0), owner));
    for k in 0..columns.len()
        invariant
            rows == syscolumn::column_views(columns@),
            order::key_views(keys@).to_set() == columns_of(rows.take(k as int), owner),
    {
        let ghost before = order::key_views(keys@);
        let ghost old_keys = keys@;
        let ghost c = columns@[k as int]@;
        assert(rows[k as int] == c);
        proof {
            lemma_columns_push(rows, k as int, owner);
        }
        if columns[k].owner_object_id == owner {
            keys.push((columns[k].column_id, columns[k].name.as_str()));
            assert(order::key_views(keys@) =~= before.push((c.column_id, c.name)));
            proof {
                lemma_to_set_push(before, (c.column_id, c.name));
            }
        }
    }
    assert(rows.take(columns@.len() as int) =~= rows);
    count_distinct(&keys)
}

proof fn lemma_to_set_push<A>(s: Seq<A>, a: A)
    ensures
        s.push(a).to_set() == s.to_set().insert(a),
{
    assert forall|x: A| s.push(a).to_set().contains(x) <==> s.to_set().insert(a).contains(x) by {
        if s.to_set().contains(x) {
            let i = choose|i: int| 0 <= i < s.len() && s[i] == x;
            assert(s.push(a)[i] == x);
        }
        if x == a {
            assert(s.push(a)[s.len() as int] == x);
        }
        if s.push(a).to_set().contains(x) {
            let i = choose|i: int| 0 <= i < s.push(a).len() && s.push(a)[i] == x;
            if i < s.len() {
                assert(s[i] == x);
            }
        }
    }
    assert(s.push(a).to_set() =~= s.to_set().insert(a));
}

proof fn lemma_columns_push(rows: Seq<ColumnView>, k: int, owner: u32)
    requires
        0 <= k < rows.len(),
    ensures
        columns_of(rows.take(k + 1), owner) == if rows[k].owner_object_id == owner {
            columns_of(rows.take(k), owner).insert((rows[k].column_id, rows[k].name))
        } else {
            columns_of(rows.take(k), owner)
        },
{
    let before = rows.take(k);
    let after = rows.take(k + 1);
    assert(after[k] == rows[k]);
    assert forall|p: (u32, Seq<char>)|
        columns_of(after, owner).contains(p) <==> columns_of(before, owner).contains(p) || (
        rows[k].owner_object_id == owner && p == (rows[k].column_id, rows[k].name)) by {
        if columns_of(before, owner).contains(p) {
            let i = choose|i: int|
                0 <= i < before.len() && (#[trigger] before[i]).owner_object_id == owner
                    && before[i].column_id == p.0 && before[i].name == p.1;
            assert(after[i] == before[i]);
        }
        if columns_of(after, owner).contains(p) {
            let i = choose|i: int|
                0 <= i < after.len() && (#[trigger] after[i]).owner_object_id == owner
                    && after[i].column_id == p.0 && after[i].name == p.1;
            if i < k {
                assert(before[i] == after[i]);
            }
        }
    }
    if rows[k].owner_object_id == owner {
        assert(columns_of(after, owner) =~= columns_of(before, owner).insert(
            (rows[k].column_id, rows[k].name),
        ));
    } else {
        assert(columns_of(after, owner) =~= columns_of(before, owner));
    }
}

proof fn lemma_rows_of_owner_push(rows: Seq<ColumnView>, k: int, owner: u32)
    requires
        0 <= k < rows.len(),
    ensures
        rows_of_owner(rows.take(k + 1), owner) == if rows[k].owner_object_id == owner {
            rows_of_owner(rows.take(k), owner).push(rows[k])
        } else {
            rows_of_owner(rows.take(k), owner)
        },
{
    reveal(Seq::filter);
    assert(rows.take(k + 1).drop_last() =~= rows.take(k));
    assert(rows.take(k + 1).last() == rows[k]);
}

/// The columns of an owner, in order of their ids, rows that repeat the row
/// before them left out.
fn columns_of_owner(columns: &[SysColumn], owner: u32) -> (out: Vec<SysColumn>)
    ensures
        syscolumn::column_views(out@) == owner_columns(
            syscolumn::column_views(columns@),
            owner,
        ),
{
    let ghost rows = syscolumn::column_views(columns@);
    let mut mine: Vec<usize> = Vec::new();
    let mut ids: Vec<u32> = Vec::new();
    assert(rows_of_owner(rows.take(0), owner).len() == 0) by {
        reveal(Seq::filter);
    }
    for k in 0..columns.len()
        invariant
            rows == syscolumn::column_views(columns@),
            mine@.len() == ids@.len(),
            mine@.len() == rows_of_owner(rows.take(k as int), owner).len(),
            forall|i: int|
                0 <= i < mine@.len() ==> (#[trigger] mine@[i]) < columns@.len()
                    && columns@[mine@[i] as int]@ == rows_of_owner(rows.take(k as int), owner)[i]
                    && ids@[i] == columns@[mine@[i] as int].column_id,
    {
        assert(rows[k as int] == columns@[k as int]@);
        proof {
            lemma_rows_of_owner_push(rows, k as int, owner);
        }
        if columns[k].owner_object_id == owner {
            mine.push(k);
            ids.push(columns[k].column_id);
        }
    }
    let ghost own = rows_of_owner(rows, owner);
    assert(rows.take(columns@.len() as int) =~= rows);
    let sorted = sort_order(&ids);
    let ghost in_order = sorted_by_id(own);
    assert forall|i: int| 0 <= i < own.len() implies #[trigger] order::key_views(ids@)[i] == ids_of(
        own,
    )[i] by {
        assert(mine@[i] < columns@.len());
        assert(ids@[i] == own[i].column_id);
    }
    assert(order::key_views(ids@) =~= ids_of(own));
    let mut out: Vec<SysColumn> = Vec::new();
    assert(without_repeats(in_order.take(0)).len() == 0);
    for k in 0..sorted.len()
        invariant
            mine@.len() == ids@.len(),
            mine@.len() == own.len(),
            order::key_views(ids@) == ids_of(own),
            order::is_order_of::<u32>(ids_of(own), 0, ids@.len() as int, sorted@),
            sorted@ == order::stable_order::<u32>(ids_of(own)),
            in_order == sorted_by_id(own),
            in_order.len() == sorted@.len(),
            forall|i: int|
                0 <= i < mine@.len() ==> (#[trigger] mine@[i]) < columns@.len()
                    && columns@[mine@[i] as int]@ == own[i],
            syscolumn::column_views(out@) == without_repeats(in_order.take(k as int)),
    {
        let p: usize = mine[sorted[k]];
        let ghost kept = syscolumn::column_views(out@);
        let ghost old_out = out@;
        assert(in_order[k as int] == columns@[p as int]@);
        assert(in_order.take(k + 1).drop_last() =~= in_order.take(k as int));
        assert(in_order.take(k + 1).last() == in_order[k as int]);
        let n: usize = out.len();
        let repeats: bool = if n == 0 {
            false
        } else {
            out[n - 1].column_id == columns[p].column_id && same_text(
                out[n - 1].name.as_str(),
                columns[p].name.as_str(),
            )
        };
        assert(kept.len() == out@.len());
        if n > 0 {
            assert(kept.last() == out@[n - 1]@);
        }
        if !repeats {
            out.push(columns[p].duplicate());
            assert(syscolumn::column_views(out@) =~= kept.push(columns@[p as int]@));
        }
    }
    assert(in_order.take(sorted@.len() as int) =~= in_order);
    out
}

/// Of the owners mapped to the table, the one with the most columns, the lowest
/// of those with as many.
fn best_owner(columns: &[SysColumn], bridge: &OwnerBridge, table_name: &str) -> (owner: Option<u32>)
    requires
        bridge.wf(),
    ensures
        match owner {
            Some(o) => is_best_owner(
                syscolumn::column_views(columns@),
                bridge@,
                table_name@,
                o,
            ),
            None => forall|o: u32| !maps_to(bridge@, o, table_name@),
        },
{
    let ghost rows = syscolumn::column_views(columns@);
    let owners = bridge.owners_for(table_name);
    if owners.len() == 0 {
        assert forall|o: u32| !maps_to(bridge@, o, table_name@) by {
            assert(!owners@.contains(o));
        }
        return None;
    }
    let mut best: u32 = owners[0];
    let mut most: usize = count_columns(columns, best);
    assert(owners@.contains(owners@[0]));
    for k in 1..owners.len()
        invariant
            rows == syscolumn::column_views(columns@),
            owners@.len() > 0,
            forall|o: u32| #[trigger] owners@.contains(o) <==> maps_to(bridge@, o, table_name@),
            forall|i: int, j: int| 0 <= i < j < owners@.len() ==> owners@[i] < owners@[j],
            maps_to(bridge@, best, table_name@),
            most == columns_of(rows, best).len(),
            exists|i: int| 0 <= i < k && #[trigger] owners@[i] == best,
            forall|i: int|
                0 <= i < k ==> columns_of(rows, #[trigger] owners@[i]).len() < most || (columns_of(
                    rows,
                    owners@[i],
                ).len() == most && best <= owners@[i]),
    {
        let o: u32 = owners[k];
        assert(owners@.contains(owners@[k as int]));
        let n: usize = count_columns(columns, o);
        if n > most {
            best = o;
            most = n;
        }
    }
    assert forall|o: u32| #[trigger] maps_to(bridge@, o, table_name@) implies columns_of(
        rows,
        o,
    ).len() < most || (columns_of(rows, o).len() == most && best <= o) by {
        assert(owners@.contains(o));
        let i = choose|i: int| 0 <= i < owners@.len() && owners@[i] == o;
        assert(owners@[i] == o);
    }
    Some(best)
}

/// The table id of the first catalog row for the name.
fn catalog_id(tables: &[SysTableEntry], table_name: &str) -> (id: Option<u32>)
    ensures
        is_catalog_id(tables@, table_name@, id),
{
    for k in 0..tables.len()
        invariant
            forall|j: int| 0 <= j < k ==> (#[trigger] tables@[j]).name@ != table_name@,
    {
        if same_text(tables[k].name.as_str(), table_name) {
            assert(tables@[k as int].name@ == table_name@);
            return Some(tables[k].table_id);
        }
    }
    None
}

fn distinct_owners(columns: &[SysColumn]) -> (n: usize)
    ensures
        n == syscolumn::column_views(columns@).map_values(
            |c: ColumnView| c.owner_object_id,
        ).to_set().len(),
{
    let ghost views = syscolumn::column_views(columns@);
    let ghost wanted = views.map_values(|c: ColumnView| c.owner_object_id);
    let mut owners: Vec<u32> = Vec::new();
    for k in 0..columns.len()
        invariant
            owners@.len() == k,
            forall|i: int| 0 <= i < k ==> #[trigger] owners@[i] == columns@[i].owner_object_id,
    {
        owners.push(columns[k].owner_object_id);
    }
    proof {
        assert forall|i: int| 0 <= i < wanted.len() implies #[trigger] wanted[i]
            == order::key_views(owners@)[i] by {
            assert(views[i] == columns@[i]@);
            assert(owners@[i] == columns@[i].owner_object_id);
        }
        assert(order::key_views(owners@) =~= wanted);
    }
    count_distinct(&owners)
}

/// Looks a table's columns up among recovered rows.
///
/// `bridge` is the bridge that the back-references give; what the `SYSOBJECT`
/// scan found is used only when that bridge does not resolve the table.
pub fn schema_from_rows(
    columns: &[SysColumn],
    tables: &[SysTableEntry],
    bridge: OwnerBridge,
    scanned: &[(u32, String)],
    table_name: &str,
) -> (found: SchemaRecovery)
    requires
        bridge.wf(),
    ensures
        is_recovery(
            syscolumn::column_views(columns@),
            tables@,
            bridge,
            scanned@,
            table_name@,
            found,
        ),
{
    let ghost rows = syscolumn::column_views(columns@);
    let ghost m = resolved_map(bridge@, scanned@, table_name@);
    let id = catalog_id(tables, table_name);
    let mut resolved = bridge;
    let owners = resolved.owners_for(table_name);
    if owners.len() == 0 {
        assert forall|o: u32| !maps_to(bridge@, o, table_name@) by {
            assert(!owners@.contains(o));
        }
        extend_with_sysobject(&mut resolved, scanned);
    } else {
        assert(owners@.contains(owners@[0]));
        assert(maps_to(bridge@, owners@[0], table_name@));
    }
    assert(resolved@ == m);
    let mut found = SchemaRecovery {
        table: table_name.to_owned(),
        in_catalog: id.is_some(),
        catalog_table_id: id,
        syscolumn_rows: columns.len(),
        distinct_owners: distinct_owners(columns),
        owner: None,
        source: None,
        backref_distance: resolved.backref_distance,
        bridged_tables: resolved.tables(),
        from_backref: resolved.from_backref,
        from_sysobject: resolved.from_sysobject,
        columns: Vec::new(),
    };
    if let Some(owner) = best_owner(columns, &resolved, table_name) {
        found.owner = Some(owner);
        found.source = resolved.source_for(owner);
        found.columns = columns_of_owner(columns, owner);
    }
    found
}

/// Looks a table's columns up, and reports what the lookup found on the way.
///
/// Owners are bridged to table names by the `SYSTABLE` back-reference, falling
/// back to what the `SYSOBJECT` scan found only when the back-reference does not
/// resolve the table. `tables` are the `SYSTABLE` rows of the store, and
/// `calibration` holds, by page number, the calibration bytes that are known.
pub fn recover_schema(
    store: &PageStore,
    model: &ApModel,
    calibration: &[Option<u8>],
    tables: &[SysTableEntry],
    scanned: &[(u32, String)],
    table_name: &str,
) -> (found: SchemaRecovery)
    ensures
        is_schema_of(
            pages::stored_pages(*store),
            calibration@,
            tables@,
            scanned@,
            table_name@,
            found,
        ),
{
    let columns = iter_syscolumns(store, model, calibration);
    let bridge = bridge_owners_via_backref(store, model, calibration, columns.as_slice(), tables);
    proof {
        let rows = syscolumn::column_views(columns@);
        let plains = choose|plains: Map<u64, Seq<u8>>| #[trigger]
            owner_bridge::are_decoded(pages::stored_pages(*store), calibration@, tables@, plains)
                && owner_bridge::is_backref_bridge(rows, tables@, plains, bridge);
        assert(owner_bridge::are_decoded(
            pages::stored_pages(*store),
            calibration@,
            tables@,
            plains,
        ));
        assert(owner_bridge::is_backref_bridge(rows, tables@, plains, bridge));
    }
    schema_from_rows(columns.as_slice(), tables, bridge, scanned, table_name)
}

/// `found` is what looking up the table in a store can bring to light: for some
/// plaintexts of the pages with catalog rows, what follows from the bridge that
/// these give.
pub open spec fn is_schema_of(
    stored: Seq<Seq<u8>>,
    calibration: Seq<Option<u8>>,
    tables: Seq<SysTableEntry>,
    scanned: Seq<(u32, String)>,
    name: Seq<char>,
    found: SchemaRecovery,
) -> bool {
    exists|plains: Map<u64, Seq<u8>>, bridge: OwnerBridge|
        {
            &&& owner_bridge::are_decoded(stored, calibration, tables, plains)
            &&& #[trigger] owner_bridge::is_backref_bridge(
                syscolumn::all_rows(stored, calibration),
                tables,
                plains,
                bridge,
            )
            &&& is_recovery(
                syscolumn::all_rows(stored, calibration),
                tables,
                bridge,
                scanned,
                name,
                found,
            )
        }
}

/// All columns of the table, ordered by `column_id`. Empty if the table cannot be
/// bridged to an owner; [`recover_schema`] says why.
pub fn schema_for(
    store: &PageStore,
    model: &ApModel,
    calibration: &[Option<u8>],
    tables: &[SysTableEntry],
    scanned: &[(u32, String)],
    table_name: &str,
) -> (columns: Vec<SysColumn>)
    ensures
        exists|found: SchemaRecovery| #[trigger]
            is_schema_of(
                pages::stored_pages(*store),
                calibration@,
                tables@,
                scanned@,
                table_name@,
                found,
            ) && found.columns@ == columns@,
{
    let found = recover_schema(store, model, calibration, tables, scanned, table_name);
    found.columns
}

/// One of the rows has the id and name of `c`.
pub open spec fn has_id_and_name(rows: Seq<ColumnView>, c: ColumnView) -> bool {
    exists|i: int| 0 <= i < rows.len() && same_id_and_name(#[trigger] rows[i], c)
}

proof fn lemma_without_repeats(rows: Seq<ColumnView>)
    requires
        forall|i: int, j: int|
            0 <= i <= j < rows.len() ==> (#[trigger] rows[i]).column_id <= (
            #[trigger] rows[j]).column_id,
    ensures
        forall|i: int, j: int|
            0 <= i <= j < without_repeats(rows).len() ==> (#[trigger] without_repeats(
                rows,
            )[i]).column_id <= (#[trigger] without_repeats(rows)[j]).column_id,
        rows.len() > 0 ==> without_repeats(rows).len() > 0 && same_id_and_name(
            without_repeats(rows).last(),
            rows.last(),
        ),
        forall|i: int|
            0 <= i < without_repeats(rows).len() ==> rows.contains(
                #[trigger] without_repeats(rows)[i],
            ),
        forall|i: int|
            0 < i < without_repeats(rows).len() ==> !same_id_and_name(
                without_repeats(rows)[i - 1],
                #[trigger] without_repeats(rows)[i],
            ),
        forall|p: int|
            0 <= p < rows.len() ==> #[trigger] has_id_and_name(without_repeats(rows), rows[p]),
    decreases rows.len(),
{
    if rows.len() > 0 {
        let rest = rows.drop_last();
        lemma_without_repeats(rest);
        let kept = without_repeats(rest);
        assert(rows.contains(rows[rows.len() - 1]));
        assert forall|i: int| 0 <= i < kept.len() implies rows.contains(#[trigger] kept[i])
            && kept[i].column_id <= rows.last().column_id by {
            assert(rest.contains(kept[i]));
            let p = choose|p: int| 0 <= p < rest.len() && rest[p] == kept[i];
            assert(rows[p] == kept[i]);
        }
        let out = without_repeats(rows);
        assert forall|i: int| 0 < i < out.len() implies !same_id_and_name(
            out[i - 1],
            #[trigger] out[i],
        ) by {
            if i < kept.len() {
                assert(out[i] == kept[i] && out[i - 1] == kept[i - 1]);
            }
        }
        assert forall|p: int| 0 <= p < rows.len() implies #[trigger] has_id_and_name(
            out,
            rows[p],
        ) by {
            if p < rest.len() {
                assert(rest[p] == rows[p]);
                assert(has_id_and_name(kept, rest[p]));
                let i = choose|i: int|
                    0 <= i < kept.len() && same_id_and_name(#[trigger] kept[i], rows[p]);
                assert(out[i] == kept[i]);
            } else {
                assert(same_id_and_name(out[out.len() - 1], rows[p]));
            }
        }
    }
}

/// The columns of an owner come in order of their ids, each is one of the owner's
/// rows, none repeats the id and name of the one before it, and the id and name of
/// every row of the owner is there.
pub proof fn lemma_owner_columns(rows: Seq<ColumnView>, owner: u32)
    requires
        rows.len() <= usize::MAX,
    ensures
        forall|i: int, j: int|
            0 <= i <= j < owner_columns(rows, owner).len() ==> (#[trigger] owner_columns(
                rows,
                owner,
            )[i]).column_id <= (#[trigger] owner_columns(rows, owner)[j]).column_id,
        forall|i: int|
            0 <= i < owner_columns(rows, owner).len() ==> (#[trigger] owner_columns(
                rows,
                owner,
            )[i]).owner_object_id == owner && rows.contains(owner_columns(rows, owner)[i]),
        forall|i: int|
            0 < i < owner_columns(rows, owner).len() ==> !same_id_and_name(
                owner_columns(rows, owner)[i - 1],
                #[trigger] owner_columns(rows, owner)[i],
            ),
        forall|p: int|
            0 <= p < rows.len() && rows[p].owner_object_id == owner ==> #[trigger] has_id_and_name(
                owner_columns(rows, owner),
                rows[p],
            ),
{
    let own = rows_of_owner(rows, owner);
    lemma_rows_of_owner(rows, owner);
    let ids = ids_of(own);
    order::lemma_stable_order::<u32>(ids);
    let ord = order::stable_order::<u32>(ids);
    let sorted = sorted_by_id(own);
    assert forall|i: int, j: int| 0 <= i <= j < sorted.len() implies (
    #[trigger] sorted[i]).column_id <= (#[trigger] sorted[j]).column_id by {
        assert(sorted[i] == own[ord[i] as int] && sorted[j] == own[ord[j] as int]);
        if i < j {
            assert(order::comes_before::<u32>(ids, ord[i] as int, ord[j] as int));
        }
    }
    lemma_without_repeats(sorted);
    let out = owner_columns(rows, owner);
    assert forall|i: int| 0 <= i < out.len() implies (#[trigger] out[i]).owner_object_id == owner
        && rows.contains(out[i]) by {
        assert(sorted.contains(out[i]));
        let p = choose|p: int| 0 <= p < sorted.len() && sorted[p] == out[i];
        assert(sorted[p] == own[ord[p] as int]);
    }
    assert forall|p: int|
        0 <= p < rows.len() && rows[p].owner_object_id == owner implies #[trigger] has_id_and_name(
        out,
        rows[p],
    ) by {
        rows.filter_lemma(|c: ColumnView| c.owner_object_id == owner);
        assert(own.contains(rows[p]));
        let q = choose|q: int| 0 <= q < own.len() && own[q] == rows[p];
        order::lemma_order_complete::<u32>(ids, 0, ids.len() as int, ord, q);
        let k = choose|k: int| 0 <= k < ord.len() && ord[k] == q as usize;
        assert(sorted[k] == rows[p]);
        assert(has_id_and_name(out, sorted[k]));
    }
}

proof fn lemma_rows_of_owner(rows: Seq<ColumnView>, owner: u32)
    ensures
        rows_of_owner(rows, owner).len() <= rows.len(),
        forall|i: int|
            0 <= i < rows_of_owner(rows, owner).len() ==> (#[trigger] rows_of_owner(
                rows,
                owner,
            )[i]).owner_object_id == owner && rows.contains(rows_of_owner(rows, owner)[i]),
    decreases rows.len(),
{
    reveal(Seq::filter);
    if rows.len() > 0 {
        let rest = rows.drop_last();
        lemma_rows_of_owner(rest, owner);
        let own = rows_of_owner(rows, owner);
        let before = rows_of_owner(rest, owner);
        assert forall|i: int| 0 <= i < own.len() implies (#[trigger] own[i]).owner_object_id == owner
            && rows.contains(own[i]) by {
            if i < before.len() {
                assert(own[i] == before[i]);
                let p = choose|p: int| 0 <= p < rest.len() && rest[p] == before[i];
                assert(rows[p] == own[i]);
            } else {
                assert(rows[rows.len() - 1] == own[i]);
            }
        }
    }
}

/// The columns that a lookup finds come in order of their ids, so that the range of
/// their ids runs from the first plausible column to the last.
pub proof fn lemma_found_in_order(
    rows: Seq<ColumnView>,
    tables: Seq<SysTableEntry>,
    bridge: OwnerBridge,
    scanned: Seq<(u32, String)>,
    name: Seq<char>,
    found: SchemaRecovery,
)
    requires
        rows.len() <= usize::MAX,
        is_recovery(rows, tables, bridge, scanned, name, found),
    ensures
        forall|i: int, j: int|
            0 <= i <= j < found.columns@.len() ==> (#[trigger] found.columns@[i]).column_id <= (
            #[trigger] found.columns@[j]).column_id,
{
    if let Some(owner) = found.owner {
        lemma_owner_columns(rows, owner);
        let out = owner_columns(rows, owner);
        assert forall|i: int, j: int| 0 <= i <= j < found.columns@.len() implies (
        #[trigger] found.columns@[i]).column_id <= (#[trigger] found.columns@[j]).column_id by {
            assert(syscolumn::column_views(found.columns@)[i] == found.columns@[i]@);
            assert(syscolumn::column_views(found.columns@)[j] == found.columns@[j]@);
            assert(out[i].column_id <= out[j].column_id);
        }
    }
}

/// A table that the back-reference resolves has columns.
pub proof fn lemma_resolved_has_columns(
    rows: Seq<ColumnView>,
    tables: Seq<SysTableEntry>,
    plains: Map<u64, Seq<u8>>,
    bridge: OwnerBridge,
    scanned: Seq<(u32, String)>,
    name: Seq<char>,
    found: SchemaRecovery,
)
    requires
        rows.len() <= usize::MAX,
        owner_bridge::is_backref_bridge(rows, tables, plains, bridge),
        is_recovery(rows, tables, bridge, scanned, name, found),
        exists|o: u32| maps_to(bridge@, o, name),
    ensures
        found.owner is Some,
        found.columns@.len() > 0,
{
    let o = choose|o: u32| maps_to(bridge@, o, name);
    assert(resolved_map(bridge@, scanned, name) == bridge@);
    assert(maps_to(bridge@, o, name));
    let owner = found.owner->0;
    owner_bridge::lemma_bridged_owner_is_used(rows, tables, plains, bridge, owner);
    let p = choose|p: int| 0 <= p < rows.len() && (#[trigger] rows[p]).owner_object_id == owner;
    lemma_owner_columns(rows, owner);
    assert(has_id_and_name(owner_columns(rows, owner), rows[p]));
    assert(syscolumn::column_views(found.columns@).len() == found.columns@.len());
}

/// Column ids from 1 to 4096 are plausible, and no others: one more column joins the
/// plausible ones, at their end, exactly if its id is.
pub proof fn lemma_one_more_column(columns: Seq<SysColumn>, c: SysColumn)
    ensures
        plausible(columns.push(c)) == if 1 <= c.column_id <= 4096 {
            plausible(columns).push(c)
        } else {
            plausible(columns)
        },
        plausible(Seq::empty()).len() == 0,
{
    let all = columns.push(c);
    lemma_plausible_push(all, columns.len() as int);
    assert(all.take(columns.len() as int) =~= columns);
    assert(all.take(columns.len() as int + 1) =~= all);
    reveal(Seq::filter);
}

/// A column id is missing exactly if no column has it, while one column has a smaller
/// id and one has a larger id, both from 1 to 4096.
pub proof fn lemma_missing(columns: Seq<SysColumn>, id: int)
    ensures
        missing_ids(columns).contains(id) <==> {
            &&& forall|i: int| 0 <= i < columns.len() ==> (#[trigger] columns[i]).column_id != id
            &&& exists|i: int|
                0 <= i < columns.len() && 1 <= (#[trigger] columns[i]).column_id < id
            &&& exists|i: int|
                0 <= i < columns.len() && id < (#[trigger] columns[i]).column_id <= 4096
        },
{
    let ids = plausible_ids(columns);
    assert forall|i: int| 0 <= i < columns.len() && 1 <= (#[trigger] columns[i]).column_id <= 4096 implies ids.contains(
        columns[i].column_id as int,
    ) by {
    }
    if missing_ids(columns).contains(id) {
        let (lo, hi) = choose|lo: int, hi: int|
            lo < id < hi && #[trigger] ids.contains(lo) && #[trigger] ids.contains(hi);
        let i = choose|i: int|
            0 <= i < columns.len() && is_plausible((#[trigger] columns[i]).column_id)
                && columns[i].column_id == lo;
        let j = choose|j: int|
            0 <= j < columns.len() && is_plausible((#[trigger] columns[j]).column_id)
                && columns[j].column_id == hi;
        assert(1 <= columns[i].column_id < id);
        assert(id < columns[j].column_id <= 4096);
    }
    if (exists|i: int| 0 <= i < columns.len() && 1 <= (#[trigger] columns[i]).column_id < id)
        && (exists|i: int| 0 <= i < columns.len() && id < (#[trigger] columns[i]).column_id <= 4096)
        && (forall|i: int| 0 <= i < columns.len() ==> (#[trigger] columns[i]).column_id != id) {
        let i = choose|i: int| 0 <= i < columns.len() && 1 <= (#[trigger] columns[i]).column_id < id;
        let j = choose|j: int|
            0 <= j < columns.len() && id < (#[trigger] columns[j]).column_id <= 4096;
        assert(ids.contains(columns[i].column_id as int));
        assert(ids.contains(columns[j].column_id as int));
        if ids.contains(id) {
            let k = choose|k: int|
                0 <= k < columns.len() && is_plausible((#[trigger] columns[k]).column_id)
                    && columns[k].column_id == id;
            assert(columns[k].column_id != id);
        }
    }
}

/// The range of column ids reaches from the smallest to the largest id from 1 to 4096
/// that a column has.
pub proof fn lemma_id_range(columns: Seq<SysColumn>, lo: u32, hi: u32)
    requires
        is_id_range(columns, lo, hi),
    ensures
        1 <= lo <= hi <= 4096,
        exists|i: int| 0 <= i < columns.len() && (#[trigger] columns[i]).column_id == lo,
        exists|i: int| 0 <= i < columns.len() && (#[trigger] columns[i]).column_id == hi,
        forall|i: int|
            0 <= i < columns.len() && 1 <= (#[trigger] columns[i]).column_id <= 4096 ==> lo
                <= columns[i].column_id <= hi,
{
    let ids = plausible_ids(columns);
    assert(ids.contains(lo as int) && ids.contains(hi as int));
    assert forall|i: int|
        0 <= i < columns.len() && 1 <= (#[trigger] columns[i]).column_id <= 4096 implies lo
        <= columns[i].column_id <= hi by {
        assert(ids.contains(columns[i].column_id as int));
    }
}

/// There is no range exactly if no column has a plausible id.
pub proof fn lemma_no_id_range(columns: Seq<SysColumn>)
    ensures
        plausible_ids(columns) == Set::<int>::empty() <==> forall|i: int|
            0 <= i < columns.len() ==> !(1 <= (#[trigger] columns[i]).column_id <= 4096),
{
    let ids = plausible_ids(columns);
    if forall|i: int|
        0 <= i < columns.len() ==> !(1 <= (#[trigger] columns[i]).column_id <= 4096) {
        assert(ids =~= Set::<int>::empty());
    } else {
        let i = choose|i: int|
            0 <= i < columns.len() && 1 <= (#[trigger] columns[i]).column_id <= 4096;
        assert(ids.contains(columns[i].column_id as int));
    }
}

/// One more row joins the rows of its own owner, at their end, and adds its column id
/// and name to the columns of that owner.
pub proof fn lemma_one_more_row(rows: Seq<ColumnView>, c: ColumnView, owner: u32)
    ensures
        rows_of_owner(rows.push(c), owner) == if c.owner_object_id == owner {
            rows_of_owner(rows, owner).push(c)
        } else {
            rows_of_owner(rows, owner)
        },
        columns_of(rows.push(c), owner) == if c.owner_object_id == owner {
            columns_of(rows, owner).insert((c.column_id, c.name))
        } else {
            columns_of(rows, owner)
        },
        rows_of_owner(Seq::empty(), owner).len() == 0,
        columns_of(Seq::empty(), owner) == Set::<(u32, Seq<char>)>::empty(),
{
    let all = rows.push(c);
    let n = rows.len() as int;
    lemma_rows_of_owner_push(all, n, owner);
    lemma_columns_push(all, n, owner);
    assert(all.take(n) =~= rows);
    assert(all.take(n + 1) =~= all);
    reveal(Seq::filter);
    assert(columns_of(Seq::empty(), owner) =~= Set::<(u32, Seq<char>)>::empty());
}

/// What a lookup finds: a table that an owner is mapped to is resolved to one of its
/// owners; none of them has more distinct columns, and none with as many has a smaller
/// id. All columns of that owner are listed, by ascending id, and no others. A table
/// that no owner is mapped to is not resolved.
pub proof fn lemma_lookup(
    rows: Seq<ColumnView>,
    tables: Seq<SysTableEntry>,
    bridge: OwnerBridge,
    scanned: Seq<(u32, String)>,
    name: Seq<char>,
    found: SchemaRecovery,
    o: u32,
)
    requires
        rows.len() <= usize::MAX,
        is_recovery(rows, tables, bridge, scanned, name, found),
        bridge@.contains_key(o),
        bridge@[o].0 == name,
    ensures
        found.owner is Some,
        bridge@.contains_key(found.owner->0) && bridge@[found.owner->0].0 == name,
        found.source == Some(bridge@[found.owner->0].1),
        columns_of(rows, o).len() <= columns_of(rows, found.owner->0).len(),
        columns_of(rows, o).len() == columns_of(rows, found.owner->0).len() ==> found.owner->0 <= o,
        forall|p: int|
            0 <= p < rows.len() && (#[trigger] rows[p]).owner_object_id == found.owner->0
                ==> lists_column(found.columns@, rows[p].column_id, rows[p].name),
        forall|i: int|
            0 <= i < found.columns@.len() ==> (#[trigger] found.columns@[i]).owner_object_id
                == found.owner->0 && rows.contains(found.columns@[i]@),
        forall|i: int, j: int|
            0 <= i <= j < found.columns@.len() ==> (#[trigger] found.columns@[i]).column_id <= (
            #[trigger] found.columns@[j]).column_id,
        forall|i: int|
            0 < i < found.columns@.len() ==> (#[trigger] found.columns@[i]).column_id
                != found.columns@[i - 1].column_id || found.columns@[i].name@
                != found.columns@[i - 1].name@,
{
    let m = resolved_map(bridge@, scanned, name);
    assert(maps_to(bridge@, o, name));
    assert(m == bridge@);
    assert(maps_to(m, o, name));
    let owner = found.owner->0;
    lemma_listed_columns(rows, owner, found.columns@);
}

/// One of the columns has the id and the name.
pub open spec fn lists_column(columns: Seq<SysColumn>, column_id: u32, name: Seq<char>) -> bool {
    exists|i: int|
        0 <= i < columns.len() && (#[trigger] columns[i]).column_id == column_id && columns[i].name@
            == name
}

proof fn lemma_listed_columns(rows: Seq<ColumnView>, owner: u32, columns: Seq<SysColumn>)
    requires
        rows.len() <= usize::MAX,
        syscolumn::column_views(columns) == owner_columns(rows, owner),
    ensures
        forall|p: int|
            0 <= p < rows.len() && (#[trigger] rows[p]).owner_object_id == owner ==> lists_column(
                columns,
                rows[p].column_id,
                rows[p].name,
            ),
        forall|i: int|
            0 <= i < columns.len() ==> (#[trigger] columns[i]).owner_object_id == owner
                && rows.contains(columns[i]@),
        forall|i: int, j: int|
            0 <= i <= j < columns.len() ==> (#[trigger] columns[i]).column_id <= (
            #[trigger] columns[j]).column_id,
        forall|i: int|
            0 < i < columns.len() ==> (#[trigger] columns[i]).column_id != columns[i - 1].column_id
                || columns[i].name@ != columns[i - 1].name@,
{
    lemma_owner_columns(rows, owner);
    let views = owner_columns(rows, owner);
    assert(views.len() == columns.len());
    assert forall|i: int| 0 <= i < columns.len() implies views[i] == (#[trigger] columns[i])@ by {
        assert(syscolumn::column_views(columns)[i] == columns[i]@);
    }
    assert forall|p: int| 0 <= p < rows.len() && (#[trigger] rows[p]).owner_object_id == owner implies lists_column(
        columns,
        rows[p].column_id,
        rows[p].name,
    ) by {
        assert(has_id_and_name(views, rows[p]));
        let i = choose|i: int| 0 <= i < views.len() && same_id_and_name(#[trigger] views[i], rows[p]);
        assert(columns[i].name@ == rows[p].name);
    }
    assert forall|i: int, j: int| 0 <= i <= j < columns.len() implies (
    #[trigger] columns[i]).column_id <= (#[trigger] columns[j]).column_id by {
        assert(views[i].column_id <= views[j].column_id);
    }
    assert forall|i: int| 0 < i < columns.len() implies (#[trigger] columns[i]).column_id
        != columns[i - 1].column_id || columns[i].name@ != columns[i - 1].name@ by {
        assert(views[i] == columns[i]@ && views[i - 1] == columns[i - 1]@);
        assert(!same_id_and_name(views[i - 1], views[i]));
    }
}

/// A table that the back-reference does not resolve, and no scanned owner names, has no
/// columns; one that a scanned owner names, and the back-reference maps to no other
/// table, is resolved through the scan.
pub proof fn lemma_lookup_falls_back(
    rows: Seq<ColumnView>,
    tables: Seq<SysTableEntry>,
    bridge: OwnerBridge,
    scanned: Seq<(u32, String)>,
    name: Seq<char>,
    found: SchemaRecovery,
)
    requires
        rows.len() <= usize::MAX,
        is_recovery(rows, tables, bridge, scanned, name, found),
        forall|o: u32| #[trigger] bridge@.contains_key(o) ==> bridge@[o].0 != name,
    ensures
        (forall|i: int| 0 <= i < scanned.len() ==> (#[trigger] scanned[i]).1@ != name)
            ==> found.owner is None && found.source is None && found.columns@.len() == 0,
        forall|i: int|
            0 <= i < scanned.len() && (#[trigger] scanned[i]).1@ == name && !bridge@.contains_key(
                scanned[i].0,
            ) && (forall|j: int| 0 <= j < i ==> (#[trigger] scanned[j]).0 != scanned[i].0)
                ==> found.owner is Some,
        found.owner is Some ==> found.source == Some(BridgeSource::SysObjectScan)
            && !bridge@.contains_key(found.owner->0) && exists|i: int|
            0 <= i < scanned.len() && (#[trigger] scanned[i]).0 == found.owner->0 && scanned[i].1@
                == name,
{
    let m = resolved_map(bridge@, scanned, name);
    let n = scanned.len() as int;
    assert(!(exists|o: u32| maps_to(bridge@, o, name)));
    assert(m == owner_bridge::filled_in(bridge@, scanned, n));
    if found.owner is Some {
        let o = found.owner->0;
        assert(maps_to(m, o, name));
        owner_bridge::lemma_filled_in(bridge@, scanned, n, o);
        if bridge@.contains_key(o) {
            assert(bridge@[o].0 != name);
        }
    }
    assert forall|i: int|
        0 <= i < scanned.len() && (#[trigger] scanned[i]).1@ == name && !bridge@.contains_key(
            scanned[i].0,
        ) && (forall|j: int| 0 <= j < i ==> (#[trigger] scanned[j]).0 != scanned[i].0) implies found.owner is Some by {
        let o = scanned[i].0;
        owner_bridge::lemma_filled_in(bridge@, scanned, n, o);
        let k = choose|k: int|
            0 <= k < n && (#[trigger] scanned[k]).0 == o && m[o] == (
                scanned[k].1@,
                BridgeSource::SysObjectScan,
            ) && forall|j: int| 0 <= j < k ==> (#[trigger] scanned[j]).0 != o;
        assert(k == i) by {
            if k < i {
                assert(scanned[k].0 != scanned[i].0);
            }
            if i < k {
                assert(scanned[i].0 != o);
            }
        }
        assert(maps_to(m, o, name));
    }
}

/// What a lookup says besides: whether the catalog lists the table, the id of its first
/// row, how many rows and owners there are, and how many owners came from where.
pub proof fn lemma_lookup_counts(
    rows: Seq<ColumnView>,
    tables: Seq<SysTableEntry>,
    bridge: OwnerBridge,
    scanned: Seq<(u32, String)>,
    name: Seq<char>,
    found: SchemaRecovery,
    i: int,
)
    requires
        is_recovery(rows, tables, bridge, scanned, name, found),
    ensures
        found.table@ == name,
        0 <= i < tables.len() && tables[i].name@ == name && (forall|j: int|
            0 <= j < i ==> (#[trigger] tables[j]).name@ != name) ==> found.catalog_table_id == Some(
            tables[i].table_id,
        ),
        (forall|j: int| 0 <= j < tables.len() ==> (#[trigger] tables[j]).name@ != name)
            <==> found.catalog_table_id is None,
        found.in_catalog <==> found.catalog_table_id is Some,
        found.syscolumn_rows == rows.len(),
        found.distinct_owners == Set::new(
            |o: u32|
                exists|p: int| 0 <= p < rows.len() && (#[trigger] rows[p]).owner_object_id == o,
        ).len(),
        found.backref_distance == bridge.backref_distance,
        bridge.wf() && (exists|o: u32| #[trigger] bridge@.contains_key(o) && bridge@[o].0 == name)
            ==> found.from_backref == bridge.from_backref && found.from_sysobject
            == bridge.from_sysobject,
{
    let ids = rows.map_values(|c: ColumnView| c.owner_object_id);
    let owners = Set::new(
        |o: u32| exists|p: int| 0 <= p < rows.len() && (#[trigger] rows[p]).owner_object_id == o,
    );
    assert forall|o: u32| ids.to_set().contains(o) <==> owners.contains(o) by {
        if ids.to_set().contains(o) {
            let p = choose|p: int| 0 <= p < ids.len() && ids[p] == o;
            assert(rows[p].owner_object_id == o);
        }
        if owners.contains(o) {
            let p = choose|p: int| 0 <= p < rows.len() && (#[trigger] rows[p]).owner_object_id == o;
            assert(ids[p] == o);
        }
    }
    assert(ids.to_set() =~= owners);
    if exists|o: u32| #[trigger] bridge@.contains_key(o) && bridge@[o].0 == name {
        let o = choose|o: u32| #[trigger] bridge@.contains_key(o) && bridge@[o].0 == name;
        assert(maps_to(bridge@, o, name));
    }
}

/// Of rows with the same id and name that follow one another, the first is kept; every
/// other row is kept too.
pub proof fn lemma_first_of_repeats(rows: Seq<ColumnView>, c: ColumnView)
    ensures
        without_repeats(Seq::empty()).len() == 0,
        rows.len() > 0 && rows.last().column_id == c.column_id && rows.last().name == c.name
            ==> without_repeats(rows.push(c)) == without_repeats(rows),
        rows.len() == 0 || rows.last().column_id != c.column_id || rows.last().name != c.name
            ==> without_repeats(rows.push(c)) == without_repeats(rows).push(c),
{
    assert(rows.push(c).drop_last() =~= rows);
    lemma_last_kept(rows);
}

proof fn lemma_last_kept(rows: Seq<ColumnView>)
    ensures
        rows.len() > 0 ==> without_repeats(rows).len() > 0 && same_id_and_name(
            without_repeats(rows).last(),
            rows.last(),
        ),
        rows.len() == 0 ==> without_repeats(rows).len() == 0,
    decreases rows.len(),
{
    if rows.len() > 0 {
        lemma_last_kept(rows.drop_last());
    }
}

/// The rows of an owner are sorted by column id, each once, and those with the same id
/// stay as they were; then repeats are dropped. `from` says which row stands where.
pub proof fn lemma_rows_by_id(rows: Seq<ColumnView>, owner: u32) -> (from: Seq<int>)
    requires
        rows.len() <= usize::MAX,
    ensures
        ({
            let mine = rows.filter(|c: ColumnView| c.owner_object_id == owner);
            &&& from.len() == mine.len()
            &&& forall|i: int| 0 <= i < from.len() ==> 0 <= #[trigger] from[i] < mine.len()
            &&& forall|i: int, j: int|
                0 <= i < j < from.len() ==> mine[#[trigger] from[i]].column_id < mine[
                #[trigger] from[j]].column_id || (mine[from[i]].column_id
                    == mine[from[j]].column_id && from[i] < from[j])
            &&& owner_columns(rows, owner) == without_repeats(from.map_values(|p: int| mine[p]))
        }),
{
    let mine = rows_of_owner(rows, owner);
    lemma_rows_of_owner(rows, owner);
    let ids = ids_of(mine);
    order::lemma_stable_order::<u32>(ids);
    let positions = order::stable_order::<u32>(ids);
    let from = positions.map_values(|p: usize| p as int);
    assert forall|i: int, j: int| 0 <= i < j < from.len() implies mine[#[trigger] from[i]].column_id
        < mine[#[trigger] from[j]].column_id || (mine[from[i]].column_id
        == mine[from[j]].column_id && from[i] < from[j]) by {
        assert(order::comes_before::<u32>(ids, positions[i] as int, positions[j] as int));
        assert(ids[from[i]] == mine[from[i]].column_id && ids[from[j]] == mine[from[j]].column_id);
    }
    assert(sorted_by_id(mine) =~= from.map_values(|p: int| mine[p]));
    from
}

/// How many tables and owners are bridged, where the back-reference resolves the table:
/// those that the back-reference bridges. Where it does not: those, and those of the scan
/// whose owners it left out.
pub proof fn lemma_bridged_counts(
    rows: Seq<ColumnView>,
    tables: Seq<SysTableEntry>,
    bridge: OwnerBridge,
    scanned: Seq<(u32, String)>,
    name: Seq<char>,
    found: SchemaRecovery,
)
    requires
        is_recovery(rows, tables, bridge, scanned, name, found),
    ensures
        ({
            let m = if exists|o: u32| #[trigger] bridge@.contains_key(o) && bridge@[o].0 == name {
                bridge@
            } else {
                owner_bridge::filled_in(bridge@, scanned, scanned.len() as int)
            };
            &&& found.bridged_tables == owner_bridge::bridged_names(m).len()
            &&& found.from_backref == Set::new(
                |o: u32| m.contains_key(o) && m[o].1 == BridgeSource::SysTableBackref,
            ).len()
            &&& found.from_sysobject == Set::new(
                |o: u32| m.contains_key(o) && m[o].1 == BridgeSource::SysObjectScan,
            ).len()
        }),
{
    if exists|o: u32| #[trigger] bridge@.contains_key(o) && bridge@[o].0 == name {
        let o = choose|o: u32| #[trigger] bridge@.contains_key(o) && bridge@[o].0 == name;
        assert(maps_to(bridge@, o, name));
    } else if exists|o: u32| maps_to(bridge@, o, name) {
        let o = choose|o: u32| maps_to(bridge@, o, name);
        assert(bridge@.contains_key(o) && bridge@[o].0 == name);
    }
    let m = resolved_map(bridge@, scanned, name);
    assert(owner_bridge::owners_from(m, BridgeSource::SysTableBackref) =~= Set::new(
        |o: u32| m.contains_key(o) && m[o].1 == BridgeSource::SysTableBackref,
    ));
    assert(owner_bridge::owners_from(m, BridgeSource::SysObjectScan) =~= Set::new(
        |o: u32| m.contains_key(o) && m[o].1 == BridgeSource::SysObjectScan,
    ));
}

/// A lookup in a store looks at all rows of the store: it counts them all, and lists
/// every column that the store defines for the owner that it settles on, and no other.
pub proof fn lemma_lookup_in_store(
    stored: Seq<Seq<u8>>,
    calibration: Seq<Option<u8>>,
    tables: Seq<SysTableEntry>,
    scanned: Seq<(u32, String)>,
    name: Seq<char>,
    found: SchemaRecovery,
)
    requires
        is_schema_of(stored, calibration, tables, scanned, name, found),
        syscolumn::all_rows(stored, calibration).len() <= usize::MAX,
    ensures
        found.table@ == name,
        found.syscolumn_rows == syscolumn::all_rows(stored, calibration).len(),
        found.owner is Some ==> forall|p: int|
            0 <= p < syscolumn::all_rows(stored, calibration).len() && (
            #[trigger] syscolumn::all_rows(stored, calibration)[p]).owner_object_id
                == found.owner->0 ==> lists_column(
                found.columns@,
                syscolumn::all_rows(stored, calibration)[p].column_id,
                syscolumn::all_rows(stored, calibration)[p].name,
            ),
        forall|i: int|
            0 <= i < found.columns@.len() ==> found.owner == Some(
                (#[trigger] found.columns@[i]).owner_object_id,
            ) && syscolumn::all_rows(stored, calibration).contains(found.columns@[i]@),
        exists|plains: Map<u64, Seq<u8>>, bridge: OwnerBridge| #[trigger]
            owner_bridge::are_decoded(stored, calibration, tables, plains)
                && #[trigger] owner_bridge::is_backref_bridge(
                syscolumn::all_rows(stored, calibration),
                tables,
                plains,
                bridge,
            ) && is_recovery(
                syscolumn::all_rows(stored, calibration),
                tables,
                bridge,
                scanned,
                name,
                found,
            ),
{
    let rows = syscolumn::all_rows(stored, calibration);
    if found.owner is Some {
        lemma_listed_columns(rows, found.owner->0, found.columns@);
    }
}

/// From the bytes to the schema: where a catalog row says, at the calibrated distance,
/// that its table has the owner `o`, no row of another table says so, and no other row of
/// the table says another owner, the lookup of the table settles on `o`, through the
/// back-reference, and lists every column that a row defines for `o`.
pub proof fn lemma_table_gets_its_columns(
    rows: Seq<ColumnView>,
    tables: Seq<SysTableEntry>,
    plains: Map<u64, Seq<u8>>,
    bridge: OwnerBridge,
    scanned: Seq<(u32, String)>,
    found: SchemaRecovery,
    d: usize,
    t: int,
    o: u32,
)
    requires
        rows.len() <= usize::MAX,
        owner_bridge::is_backref_bridge(rows, tables, plains, bridge),
        bridge.backref_distance == Some(d),
        0 <= t < tables.len(),
        owner_bridge::row_says(rows, plains, tables[t], d as int, o),
        forall|i: int, p: u32|
            0 <= i < tables.len() && #[trigger] owner_bridge::row_says(
                rows,
                plains,
                tables[i],
                d as int,
                p,
            ) ==> (p == o <==> tables[i].name@ == tables[t].name@),
        is_recovery(rows, tables, bridge, scanned, tables[t].name@, found),
    ensures
        found.owner == Some(o),
        found.source == Some(BridgeSource::SysTableBackref),
        forall|p: int|
            0 <= p < rows.len() && (#[trigger] rows[p]).owner_object_id == o ==> lists_column(
                found.columns@,
                rows[p].column_id,
                rows[p].name,
            ),
{
    let name = tables[t].name@;
    owner_bridge::lemma_row_bridges_owner(rows, tables, plains, bridge, d, o);
    let i = choose|i: int|
        0 <= i < tables.len() && owner_bridge::row_says(
            rows,
            plains,
            #[trigger] tables[i],
            d as int,
            o,
        ) && tables[i].name@ == bridge@[o].0;
    assert(tables[i].name@ == name);
    lemma_lookup(rows, tables, bridge, scanned, name, found, o);
    let q = found.owner->0;
    owner_bridge::lemma_row_bridges_owner(rows, tables, plains, bridge, d, q);
    let j = choose|j: int|
        0 <= j < tables.len() && owner_bridge::row_says(
            rows,
            plains,
            #[trigger] tables[j],
            d as int,
            q,
        ) && tables[j].name@ == bridge@[q].0;
    assert(q == o);
}

} // verus!
