//! Reports on what else the catalog holds: indexes, foreign keys, nullability, and
//! how pages are attributed to tables.

use vstd::prelude::*;
use vstd::string::*;

use crate::layout;
use crate::layout::{push_hex_byte, push_left, push_right, unsigned_text};
use crate::report::{left_text, right_text};
use crate::systable::SysTableEntry;
use crate::text;
use crate::text::starts_with;

verus! {

/// Why pages cannot be attributed to tables.
#[derive(Debug, Clone, Copy, PartialEq, Eq, Structural)]
pub enum AttributionGap {
    /// No catalog rows were found.
    NoCatalogRows,
    /// Catalog rows were found, but none says where the table's data starts.
    AllRootsZeroed,
}

/// The catalog row says where the table's data starts. A root page of zero says
/// nothing: page 0 holds no table.
pub open spec fn has_root(t: SysTableEntry) -> bool {
    t.data_root_page is Some && t.data_root_page != Some(0u32)
}

/// Why pages cannot be attributed to the tables of a catalog. One table whose data
/// starts somewhere is enough that they can.
pub open spec fn gap_of(tables: Seq<SysTableEntry>) -> Option<AttributionGap> {
    if tables.len() == 0 {
        Some(AttributionGap::NoCatalogRows)
    } else if forall|i: int| 0 <= i < tables.len() ==> !has_root(#[trigger] tables[i]) {
        Some(AttributionGap::AllRootsZeroed)
    } else {
        None
    }
}

/// Says why pages cannot be attributed to the tables of a catalog, if they cannot.
pub fn attribution_gap(tables: &[SysTableEntry]) -> (gap: Option<AttributionGap>)
    ensures
        gap == gap_of(tables@),
{
    if tables.len() == 0 {
        return Some(AttributionGap::NoCatalogRows);
    }
    for k in 0..tables.len()
        invariant
            forall|i: int| 0 <= i < k ==> !has_root(#[trigger] tables@[i]),
    {
        if let Some(root) = tables[k].data_root_page {
            if root != 0 {
                assert(has_root(tables@[k as int]));
                return None;
            }
        }
    }
    Some(AttributionGap::AllRootsZeroed)
}

/// The warning that goes with a gap.
pub open spec fn gap_text(gap: AttributionGap) -> Seq<char> {
    match gap {
        AttributionGap::NoCatalogRows => "warning: no SYSTABLE rows found; page-to-table attribution is unavailable\n"@,
        AttributionGap::AllRootsZeroed => "warning: SYSTABLE rows were found, but every data_root_page is zero, so page-to-table attribution has no B-tree root to anchor on (seen on some QuickBooks Enterprise 24.0 files - see openqbw#16). Attribution-dependent output below will be empty; the table listing itself is unaffected.\n"@,
    }
}

/// The warning that goes with a gap: it says why output will be empty, rather than
/// leaving that to show downstream.
pub fn attribution_warning(gap: AttributionGap) -> (warning: &'static str)
    ensures
        warning@ == gap_text(gap),
{
    match gap {
        AttributionGap::NoCatalogRows => "warning: no SYSTABLE rows found; page-to-table attribution is unavailable\n",
        AttributionGap::AllRootsZeroed => "warning: SYSTABLE rows were found, but every data_root_page is zero, so page-to-table attribution has no B-tree root to anchor on (seen on some QuickBooks Enterprise 24.0 files - see openqbw#16). Attribution-dependent output below will be empty; the table listing itself is unaffected.\n",
    }
}

/// One index of the catalog.
#[derive(Debug, Clone, PartialEq, Eq)]
pub struct SysIndexEntry {
    /// Table that the index belongs to.
    pub table_id: u32,
    /// First page of the index.
    pub root_page: u32,
    /// Name of the index.
    pub name: String,
}

impl SysIndexEntry {
    /// The index is that of a foreign key.
    pub open spec fn is_fk(&self) -> bool {
        "fkey_"@.is_prefix_of(self.name@)
    }

    /// Whether the index is that of a foreign key, as its name says.
    pub fn is_foreign_key(&self) -> (r: bool)
        ensures
            r == self.is_fk(),
    {
        starts_with(self.name.as_str(), "fkey_")
    }
}

/// The number of indexes of foreign keys.
pub open spec fn fk_count(entries: Seq<SysIndexEntry>) -> nat
    decreases entries.len(),
{
    if entries.len() == 0 {
        0
    } else {
        fk_count(entries.drop_last()) + if entries.last().is_fk() {
            1nat
        } else {
            0
        }
    }
}

/// Counts the indexes of foreign keys.
pub fn count_foreign_keys(entries: &[SysIndexEntry]) -> (n: usize)
    ensures
        n == fk_count(entries@),
{
    let mut n: usize = 0;
    for k in 0..entries.len()
        invariant
            n <= k,
            n == fk_count(entries@.take(k as int)),
    {
        assert(entries@.take(k + 1).drop_last() =~= entries@.take(k as int));
        if entries[k].is_foreign_key() {
            n = n + 1;
        }
    }
    assert(entries@.take(entries@.len() as int) =~= entries@);
    n
}

/// The name of a table: the first one listed for its id, and a placeholder where
/// none is.
pub open spec fn owner_name(tables: Seq<SysTableEntry>, id: u32) -> Seq<char>
    decreases tables.len(),
{
    if tables.len() == 0 {
        "<orphan>"@
    } else if tables[0].table_id == id {
        tables[0].name@
    } else {
        owner_name(tables.skip(1), id)
    }
}

fn find_owner<'a>(tables: &'a [SysTableEntry], id: u32) -> (name: &'a str)
    ensures
        name@ == owner_name(tables@, id),
{
    assert(tables@.skip(0) =~= tables@);
    for k in 0..tables.len()
        invariant
            owner_name(tables@, id) == owner_name(tables@.skip(k as int), id),
    {
        assert(tables@.skip(k as int)[0] == tables@[k as int]);
        assert(tables@.skip(k as int).skip(1) =~= tables@.skip(k + 1));
        if tables[k].table_id == id {
            return tables[k].name.as_str();
        }
    }
    "<orphan>"
}

/// A line with four cells: table id, root page, owner and index name.
pub open spec fn index_cells(
    tid: Seq<char>,
    root: Seq<char>,
    owner: Seq<char>,
    name: Seq<char>,
) -> Seq<char> {
    layout::right_aligned(tid, 8) + "  "@ + layout::right_aligned(root, 8) + "  "@
        + layout::left_aligned(owner, 40) + "  "@ + name + "\n"@
}

/// The lines of indexes; only those of foreign keys if `fk_only`.
pub open spec fn index_lines(
    entries: Seq<SysIndexEntry>,
    tables: Seq<SysTableEntry>,
    fk_only: bool,
) -> Seq<char>
    decreases entries.len(),
{
    if entries.len() == 0 {
        index_cells("tid"@, "root"@, "owner"@, "index_name"@)
    } else {
        let e = entries.last();
        let before = index_lines(entries.drop_last(), tables, fk_only);
        if fk_only && !e.is_fk() {
            before
        } else {
            before + index_cells(
                layout::decimal(e.table_id as int),
                layout::decimal(e.root_page as int),
                owner_name(tables, e.table_id),
                e.name@,
            )
        }
    }
}

fn push_index_cells(out: &mut String, tid: &str, root: &str, owner: &str, name: &str)
    ensures
        final(out)@ == old(out)@ + index_cells(tid@, root@, owner@, name@),
{
    let mut line = right_text(tid, 8);
    line.append("  ");
    push_right(&mut line, root, 8);
    line.append("  ");
    push_left(&mut line, owner, 40);
    line.append("  ");
    line.append(name);
    line.append("\n");
    out.append(line.as_str());
}

/// The indexes, one line each, under a line of headings; only those of foreign
/// keys if `fk_only`.
pub fn index_listing(
    entries: &[SysIndexEntry],
    tables: &[SysTableEntry],
    fk_only: bool,
) -> (out: String)
    ensures
        out@ == index_lines(entries@, tables@, fk_only),
{
    let mut out = String::new();
    push_index_cells(&mut out, "tid", "root", "owner", "index_name");
    assert(out@ =~= index_lines(entries@.take(0), tables@, fk_only));
    for k in 0..entries.len()
        invariant
            out@ == index_lines(entries@.take(k as int), tables@, fk_only),
    {
        let e = &entries[k];
        assert(entries@.take(k + 1).drop_last() =~= entries@.take(k as int));
        assert(entries@.take(k + 1).last() == *e);
        if !fk_only || e.is_foreign_key() {
            push_index_cells(
                &mut out,
                unsigned_text(e.table_id as u64).as_str(),
                unsigned_text(e.root_page as u64).as_str(),
                find_owner(tables, e.table_id),
                e.name.as_str(),
            );
        }
    }
    assert(entries@.take(entries@.len() as int) =~= entries@);
    out
}

/// The line on the number of indexes.
pub open spec fn index_summary_text(entries: Seq<SysIndexEntry>, distinct_roots: int) -> Seq<char> {
    "sysindex entries: "@ + layout::decimal(entries.len() as int) + " (fk: "@ + layout::decimal(
        fk_count(entries) as int,
    ) + ")  distinct (table_id,root_page) pairs: "@ + layout::decimal(distinct_roots) + "\n"@
}

/// The line on the number of indexes.
pub fn index_summary(entries: &[SysIndexEntry], distinct_roots: usize) -> (out: String)
    ensures
        out@ == index_summary_text(entries@, distinct_roots as int),
{
    let mut out: String = "sysindex entries: ".to_owned();
    out.append(unsigned_text(entries.len() as u64).as_str());
    out.append(" (fk: ");
    out.append(unsigned_text(count_foreign_keys(entries) as u64).as_str());
    out.append(")  distinct (table_id,root_page) pairs: ");
    out.append(unsigned_text(distinct_roots as u64).as_str());
    out.append("\n");
    out
}

/// How the attribution of pages by position compares with the indexes.
#[derive(Debug, Clone)]
pub struct CrossValidation {
    /// Distinct pairs of table and root page.
    pub distinct_roots: usize,
    /// Pairs on which both agree.
    pub agree: usize,
    /// Pairs on which they disagree.
    pub disagree: usize,
    /// Pairs whose page is not attributed.
    pub missing: usize,
    /// Indexes whose table is not in the catalog.
    pub orphan_index: usize,
    /// Some of the pairs on which they disagree.
    pub disagree_samples: Vec<DisagreeSample>,
}

/// A page that an index and the attribution by position give to different tables.
#[derive(Debug, Clone)]
pub struct DisagreeSample {
    /// Table id of the index.
    pub table_id: u32,
    /// Name of the index's table.
    pub index_table: String,
    /// Table that the page is attributed to.
    pub position_table: String,
    /// Root page of the index.
    pub root_page: u32,
    /// Name of the index.
    pub index_name: String,
}

/// The line of a disagreement.
pub open spec fn sample_line(s: DisagreeSample) -> Seq<char> {
    "    tid="@ + layout::left_aligned(layout::decimal(s.table_id as int), 6) + " "@
        + layout::left_aligned(s.index_table@, 32) + " -> "@ + layout::left_aligned(
        s.position_table@,
        32,
    ) + " @ root="@ + layout::left_aligned(layout::decimal(s.root_page as int), 8) + " : "@
        + s.index_name@ + "\n"@
}

/// The lines of disagreements.
pub open spec fn sample_lines(samples: Seq<DisagreeSample>) -> Seq<char>
    decreases samples.len(),
{
    if samples.len() == 0 {
        "  disagreement samples (sysindex_table -> position_table @ root_page : index):\n"@
    } else {
        sample_lines(samples.drop_last()) + sample_line(samples.last())
    }
}

/// The lines on a comparison. `percent` is the share of the pairs that agree.
pub open spec fn audit_text(audit: CrossValidation, percent: Seq<char>) -> Seq<char> {
    "cross-validation: agree="@ + layout::decimal(audit.agree as int) + " disagree="@
        + layout::decimal(audit.disagree as int) + " missing="@ + layout::decimal(
        audit.missing as int,
    ) + " orphan="@ + layout::decimal(audit.orphan_index as int) + "  agreement_rate="@ + percent
        + "%\n"@ + if audit.disagree_samples@.len() == 0 {
        ""@
    } else {
        sample_lines(audit.disagree_samples@)
    }
}

fn push_sample_line(out: &mut String, s: &DisagreeSample)
    ensures
        final(out)@ == old(out)@ + sample_line(*s),
{
    let mut line: String = "    tid=".to_owned();
    push_left(&mut line, unsigned_text(s.table_id as u64).as_str(), 6);
    line.append(" ");
    push_left(&mut line, s.index_table.as_str(), 32);
    line.append(" -> ");
    push_left(&mut line, s.position_table.as_str(), 32);
    line.append(" @ root=");
    push_left(&mut line, unsigned_text(s.root_page as u64).as_str(), 8);
    line.append(" : ");
    line.append(s.index_name.as_str());
    line.append("\n");
    out.append(line.as_str());
}

fn sample_listing(samples: &Vec<DisagreeSample>) -> (out: String)
    ensures
        out@ == sample_lines(samples@),
{
    let mut out: String =
        "  disagreement samples (sysindex_table -> position_table @ root_page : index):\n".to_owned();
    assert(out@ == sample_lines(samples@.take(0)));
    for k in 0..samples.len()
        invariant
            out@ == sample_lines(samples@.take(k as int)),
    {
        push_sample_line(&mut out, &samples[k]);
        assert(samples@.take(k + 1).drop_last() =~= samples@.take(k as int));
    }
    assert(samples@.take(samples@.len() as int) =~= samples@);
    out
}

/// The lines on a comparison. `percent` is the share of the pairs that agree.
pub fn audit_summary(audit: &CrossValidation, percent: &str) -> (out: String)
    ensures
        out@ == audit_text(*audit, percent@),
{
    let mut out: String = "cross-validation: agree=".to_owned();
    out.append(unsigned_text(audit.agree as u64).as_str());
    out.append(" disagree=");
    out.append(unsigned_text(audit.disagree as u64).as_str());
    out.append(" missing=");
    out.append(unsigned_text(audit.missing as u64).as_str());
    out.append(" orphan=");
    out.append(unsigned_text(audit.orphan_index as u64).as_str());
    out.append("  agreement_rate=");
    out.append(percent);
    out.append("%\n");
    if audit.disagree_samples.len() == 0 {
        out.append("");
    } else {
        out.append(sample_listing(&audit.disagree_samples).as_str());
    }
    out
}

/// A foreign key that column names suggest.
#[derive(Debug, Clone)]
pub struct FkEdge {
    /// Table that holds the column.
    pub source_table: String,
    /// Ordinal of the column.
    pub source_column_id: u32,
    /// Name of the column.
    pub source_column: String,
    /// Table that the column refers to, where one was found.
    pub target_table: Option<String>,
    /// How well the name fits.
    pub score: u32,
}

/// A line with five cells: source table, column id, column, target table and
/// score.
pub open spec fn edge_cells(
    source: Seq<char>,
    id: Seq<char>,
    column: Seq<char>,
    target: Seq<char>,
    score: Seq<char>,
) -> Seq<char> {
    layout::left_aligned(source, 40) + "  "@ + layout::right_aligned(id, 4) + "  "@
        + layout::left_aligned(column, 28) + "  "@ + layout::left_aligned(target, 40) + "  "@
        + layout::right_aligned(score, 5) + "\n"@
}

/// The target of an edge, a dash where there is none.
pub open spec fn target_or_dash(target: Option<String>) -> Seq<char> {
    match target {
        Some(t) => t@,
        None => "-"@,
    }
}

/// The lines of edges; only those that found a target if `resolved_only`.
pub open spec fn edge_lines(edges: Seq<FkEdge>, resolved_only: bool) -> Seq<char>
    decreases edges.len(),
{
    if edges.len() == 0 {
        edge_cells("source_table"@, "col"@, "source_column"@, "target_table"@, "score"@)
    } else {
        let e = edges.last();
        let before = edge_lines(edges.drop_last(), resolved_only);
        if resolved_only && e.target_table is None {
            before
        } else {
            before + edge_cells(
                e.source_table@,
                layout::decimal(e.source_column_id as int),
                e.source_column@,
                target_or_dash(e.target_table),
                layout::decimal(e.score as int),
            )
        }
    }
}

fn push_edge_cells(
    out: &mut String,
    source: &str,
    id: &str,
    column: &str,
    target: &str,
    score: &str,
)
    ensures
        final(out)@ == old(out)@ + edge_cells(source@, id@, column@, target@, score@),
{
    let mut line = left_text(source, 40);
    line.append("  ");
    push_right(&mut line, id, 4);
    line.append("  ");
    push_left(&mut line, column, 28);
    line.append("  ");
    push_left(&mut line, target, 40);
    line.append("  ");
    push_right(&mut line, score, 5);
    line.append("\n");
    out.append(line.as_str());
}

/// The foreign keys that column names suggest, one line each, under a line of
/// headings; only those that found a target if `resolved_only`.
pub fn edge_listing(edges: &[FkEdge], resolved_only: bool) -> (out: String)
    ensures
        out@ == edge_lines(edges@, resolved_only),
{
    let mut out = String::new();
    push_edge_cells(&mut out, "source_table", "col", "source_column", "target_table", "score");
    assert(out@ =~= edge_lines(edges@.take(0), resolved_only));
    for k in 0..edges.len()
        invariant
            out@ == edge_lines(edges@.take(k as int), resolved_only),
    {
        let e = &edges[k];
        assert(edges@.take(k + 1).drop_last() =~= edges@.take(k as int));
        assert(edges@.take(k + 1).last() == *e);
        if !resolved_only || e.target_table.is_some() {
            let target: &str = match &e.target_table {
                Some(t) => t.as_str(),
                None => "-",
            };
            push_edge_cells(
                &mut out,
                e.source_table.as_str(),
                unsigned_text(e.source_column_id as u64).as_str(),
                e.source_column.as_str(),
                target,
                unsigned_text(e.score as u64).as_str(),
            );
        }
    }
    assert(edges@.take(edges@.len() as int) =~= edges@);
    out
}

/// The columns that carry one value of the nulls flag.
#[derive(Debug, Clone)]
pub struct NullsFlagBucket {
    /// The value.
    pub flag: u8,
    /// Number of columns.
    pub count: usize,
    /// Names of some of the columns.
    pub sample_columns: Vec<String>,
}

/// The number of columns in buckets.
pub open spec fn bucket_total(buckets: Seq<NullsFlagBucket>) -> nat
    decreases buckets.len(),
{
    if buckets.len() == 0 {
        0
    } else {
        bucket_total(buckets.drop_last()) + buckets.last().count as nat
    }
}

/// Texts, joined by a comma and a space.
pub open spec fn joined(parts: Seq<String>) -> Seq<char>
    decreases parts.len(),
{
    if parts.len() == 0 {
        seq![]
    } else if parts.len() == 1 {
        parts[0]@
    } else {
        joined(parts.drop_last()) + ", "@ + parts.last()@
    }
}

/// The line of a bucket.
pub open spec fn bucket_line(b: NullsFlagBucket) -> Seq<char> {
    "0x"@ + layout::hex_byte(b.flag) + "    "@ + layout::right_aligned(
        layout::decimal(b.count as int),
        8,
    ) + "  "@ + joined(b.sample_columns@) + "\n"@
}

/// The lines of buckets.
pub open spec fn bucket_lines(buckets: Seq<NullsFlagBucket>) -> Seq<char>
    decreases buckets.len(),
{
    if buckets.len() == 0 {
        "  byte     count  sample_columns\n"@
    } else {
        bucket_lines(buckets.drop_last()) + bucket_line(buckets.last())
    }
}

/// The report on the values of the nulls flag.
pub open spec fn nulls_text(buckets: Seq<NullsFlagBucket>) -> Seq<char> {
    "total syscolumn rows: "@ + layout::decimal(bucket_total(buckets) as int)
        + "  distinct nulls_flag values: "@ + layout::decimal(buckets.len() as int) + "\n"@
        + bucket_lines(buckets)
}

fn join(parts: &Vec<String>) -> (out: String)
    ensures
        out@ == joined(parts@),
{
    let mut out = String::new();
    assert(out@ =~= joined(parts@.take(0)));
    for k in 0..parts.len()
        invariant
            out@ == joined(parts@.take(k as int)),
    {
        assert(parts@.take(k + 1).drop_last() =~= parts@.take(k as int));
        if k > 0 {
            out.append(", ");
            out.append(parts[k].as_str());
        } else {
            out.append(parts[k].as_str());
            assert(out@ =~= parts@[0]@);
        }
    }
    assert(parts@.take(parts@.len() as int) =~= parts@);
    out
}

fn push_bucket_line(out: &mut String, b: &NullsFlagBucket)
    ensures
        final(out)@ == old(out)@ + bucket_line(*b),
{
    let mut line: String = "0x".to_owned();
    push_hex_byte(&mut line, b.flag);
    line.append("    ");
    push_right(&mut line, unsigned_text(b.count as u64).as_str(), 8);
    line.append("  ");
    line.append(join(&b.sample_columns).as_str());
    line.append("\n");
    out.append(line.as_str());
}

proof fn lemma_bucket_total(buckets: Seq<NullsFlagBucket>, k: int)
    requires
        0 <= k <= buckets.len(),
    ensures
        bucket_total(buckets.take(k)) <= bucket_total(buckets),
    decreases buckets.len(),
{
    if k < buckets.len() {
        lemma_bucket_total(buckets.drop_last(), k);
        assert(buckets.drop_last().take(k) =~= buckets.take(k));
    } else {
        assert(buckets.take(k) =~= buckets);
    }
}

/// The report on the values of the nulls flag.
pub fn nulls_report(buckets: &[NullsFlagBucket]) -> (out: String)
    requires
        bucket_total(buckets@) <= usize::MAX,
    ensures
        out@ == nulls_text(buckets@),
{
    let mut total: usize = 0;
    let mut lines: String = "  byte     count  sample_columns\n".to_owned();
    assert(lines@ == bucket_lines(buckets@.take(0)));
    for k in 0..buckets.len()
        invariant
            bucket_total(buckets@) <= usize::MAX,
            total == bucket_total(buckets@.take(k as int)),
            lines@ == bucket_lines(buckets@.take(k as int)),
    {
        proof {
            assert(buckets@.take(k + 1).drop_last() =~= buckets@.take(k as int));
            lemma_bucket_total(buckets@, k + 1);
        }
        total = total + buckets[k].count;
        push_bucket_line(&mut lines, &buckets[k]);
    }
    assert(buckets@.take(buckets@.len() as int) =~= buckets@);
    let mut out: String = "total syscolumn rows: ".to_owned();
    out.append(unsigned_text(total as u64).as_str());
    out.append("  distinct nulls_flag values: ");
    out.append(unsigned_text(buckets.len() as u64).as_str());
    out.append("\n");
    out.append(lines.as_str());
    out
}

/// How pages fared against the row widths of the tables that they are attributed
/// to.
#[derive(Debug, Clone)]
pub struct ValidationStats {
    /// Pages whose rows fit.
    pub pass: usize,
    /// Pages whose rows do not fit.
    pub fail: usize,
    /// Pages whose table has no known widths.
    pub no_band: usize,
    /// Pages whose rows could not be measured.
    pub unmeasured: usize,
}

impl ValidationStats {
    /// The number of pages.
    pub open spec fn sum(&self) -> int {
        self.pass + self.fail + self.no_band + self.unmeasured
    }

    /// The number of pages.
    pub fn total(&self) -> (n: usize)
        requires
            self.sum() <= usize::MAX,
        ensures
            n == self.sum(),
    {
        self.pass + self.fail + self.no_band + self.unmeasured
    }
}

/// A line with five cells.
pub open spec fn five_cells(
    a: Seq<char>,
    b: Seq<char>,
    c: Seq<char>,
    d: Seq<char>,
    e: Seq<char>,
) -> Seq<char> {
    layout::right_aligned(a, 10) + "  "@ + layout::right_aligned(b, 10) + "  "@
        + layout::right_aligned(c, 10) + "  "@ + layout::right_aligned(d, 10) + "  "@
        + layout::right_aligned(e, 10) + "\n"@
}

fn five_cells_text(a: &str, b: &str, c: &str, d: &str, e: &str) -> (line: String)
    ensures
        line@ == five_cells(a@, b@, c@, d@, e@),
{
    let mut line = right_text(a, 10);
    line.append("  ");
    push_right(&mut line, b, 10);
    line.append("  ");
    push_right(&mut line, c, 10);
    line.append("  ");
    push_right(&mut line, d, 10);
    line.append("  ");
    push_right(&mut line, e, 10);
    line.append("\n");
    line
}

/// The counts of pages, under a line of headings.
pub fn validation_table(stats: &ValidationStats) -> (out: String)
    requires
        stats.sum() <= usize::MAX,
    ensures
        out@ == five_cells("pass"@, "fail"@, "no_band"@, "unmeasured"@, "total"@) + five_cells(
            layout::decimal(stats.pass as int),
            layout::decimal(stats.fail as int),
            layout::decimal(stats.no_band as int),
            layout::decimal(stats.unmeasured as int),
            layout::decimal(stats.sum()),
        ),
{
    let mut out = five_cells_text("pass", "fail", "no_band", "unmeasured", "total");
    let line = five_cells_text(
        unsigned_text(stats.pass as u64).as_str(),
        unsigned_text(stats.fail as u64).as_str(),
        unsigned_text(stats.no_band as u64).as_str(),
        unsigned_text(stats.unmeasured as u64).as_str(),
        unsigned_text(stats.total() as u64).as_str(),
    );
    out.append(line.as_str());
    out
}

/// Pages cannot be attributed where there are no catalog rows, nor where no row has a root
/// page other than zero; one such row is enough that they can.
pub proof fn lemma_gap(tables: Seq<SysTableEntry>, i: int)
    ensures
        gap_of(tables) == Some(AttributionGap::NoCatalogRows) <==> tables.len() == 0,
        0 <= i < tables.len() && tables[i].data_root_page is Some && tables[i].data_root_page->0
            != 0 ==> gap_of(tables) is None,
        tables.len() > 0 && (forall|j: int|
            0 <= j < tables.len() ==> (#[trigger] tables[j]).data_root_page is None
                || tables[j].data_root_page->0 == 0) ==> gap_of(tables) == Some(
            AttributionGap::AllRootsZeroed,
        ),
{
    if 0 <= i < tables.len() && tables[i].data_root_page is Some && tables[i].data_root_page->0
        != 0 {
        assert(has_root(tables[i]));
    }
}

/// The warnings about gaps.
pub proof fn lemma_gap_text()
    ensures
        gap_text(AttributionGap::NoCatalogRows)
            == "warning: no SYSTABLE rows found; page-to-table attribution is unavailable\n"@,
        gap_text(AttributionGap::AllRootsZeroed)
            == "warning: SYSTABLE rows were found, but every data_root_page is zero, so page-to-table attribution has no B-tree root to anchor on (seen on some QuickBooks Enterprise 24.0 files - see openqbw#16). Attribution-dependent output below will be empty; the table listing itself is unaffected.\n"@,
{
}

/// An index is that of a foreign key exactly if its name begins with `fkey_`.
pub proof fn lemma_foreign_key(e: SysIndexEntry)
    ensures
        e.is_fk() <==> e.name@.len() >= 5 && e.name@[0] == 'f' && e.name@[1] == 'k' && e.name@[2]
            == 'e' && e.name@[3] == 'y' && e.name@[4] == '_',
{
    reveal_strlit("fkey_");
    let p = "fkey_"@;
    if e.name@.len() >= 5 {
        let s = e.name@.subrange(0, 5);
        assert(s[0] == e.name@[0] && s[1] == e.name@[1] && s[2] == e.name@[2] && s[3] == e.name@[3]
            && s[4] == e.name@[4]);
        assert(s =~= p <==> s[0] == p[0] && s[1] == p[1] && s[2] == p[2] && s[3] == p[3] && s[4]
            == p[4]);
    }
}

/// One more index counts exactly if it is that of a foreign key. It is listed, at the end
/// and with the table that it belongs to, unless only foreign keys are and it is none.
pub proof fn lemma_one_more_index(
    entries: Seq<SysIndexEntry>,
    e: SysIndexEntry,
    tables: Seq<SysTableEntry>,
    fk_only: bool,
)
    ensures
        fk_count(entries.push(e)) == fk_count(entries) + if e.is_fk() {
            1nat
        } else {
            0
        },
        fk_count(Seq::empty()) == 0,
        index_lines(entries.push(e), tables, fk_only) == if e.is_fk() || !fk_only {
            index_lines(entries, tables, fk_only) + (layout::right_aligned(
                layout::decimal(e.table_id as int),
                8,
            ) + "  "@ + layout::right_aligned(layout::decimal(e.root_page as int), 8) + "  "@
                + layout::left_aligned(owner_name(tables, e.table_id), 40) + "  "@ + e.name@
                + "\n"@)
        } else {
            index_lines(entries, tables, fk_only)
        },
        index_lines(Seq::empty(), tables, fk_only) == layout::right_aligned("tid"@, 8) + "  "@
            + layout::right_aligned("root"@, 8) + "  "@ + layout::left_aligned("owner"@, 40)
            + "  "@ + "index_name"@ + "\n"@,
{
    assert(entries.push(e).drop_last() =~= entries);
}

/// The table of an index is the first one that has its id, and an orphan's where none has.
pub proof fn lemma_owner_name(tables: Seq<SysTableEntry>, id: u32, i: int)
    ensures
        0 <= i < tables.len() && tables[i].table_id == id && (forall|j: int|
            0 <= j < i ==> (#[trigger] tables[j]).table_id != id) ==> owner_name(tables, id)
            == tables[i].name@,
        (forall|j: int| 0 <= j < tables.len() ==> (#[trigger] tables[j]).table_id != id)
            ==> owner_name(tables, id) == "<orphan>"@,
    decreases tables.len(),
{
    if tables.len() > 0 {
        let rest = tables.skip(1);
        assert(forall|j: int| 0 <= j < rest.len() ==> #[trigger] rest[j] == tables[j + 1]);
        lemma_owner_name(rest, id, i - 1);
        if tables[0].table_id != id {
            if 0 <= i < tables.len() && tables[i].table_id == id && (forall|j: int|
                0 <= j < i ==> (#[trigger] tables[j]).table_id != id) {
                assert(i > 0);
                assert(rest[i - 1] == tables[i]);
                assert forall|j: int| 0 <= j < i - 1 implies (#[trigger] rest[j]).table_id != id by {
                    assert(tables[j + 1].table_id != id);
                }
            }
            if forall|j: int| 0 <= j < tables.len() ==> (#[trigger] tables[j]).table_id != id {
                assert forall|j: int| 0 <= j < rest.len() implies (
                #[trigger] rest[j]).table_id != id by {
                    assert(tables[j + 1].table_id != id);
                }
            }
        }
    }
}

/// The summary of indexes: how many there are, how many are of foreign keys, and how many
/// pairs of table and root page.
pub proof fn lemma_index_summary(entries: Seq<SysIndexEntry>, distinct_roots: int)
    ensures
        index_summary_text(entries, distinct_roots) == "sysindex entries: "@ + layout::decimal(
            entries.len() as int,
        ) + " (fk: "@ + layout::decimal(fk_count(entries) as int)
            + ")  distinct (table_id,root_page) pairs: "@ + layout::decimal(distinct_roots)
            + "\n"@,
{
}

/// The summary of the audit gives each count behind its label, and then the samples, where
/// there are any, each in its line.
pub proof fn lemma_audit(
    audit: CrossValidation,
    percent: Seq<char>,
    samples: Seq<DisagreeSample>,
    s: DisagreeSample,
)
    ensures
        audit_text(audit, percent) == "cross-validation: agree="@ + layout::decimal(
            audit.agree as int,
        ) + " disagree="@ + layout::decimal(audit.disagree as int) + " missing="@
            + layout::decimal(audit.missing as int) + " orphan="@ + layout::decimal(
            audit.orphan_index as int,
        ) + "  agreement_rate="@ + percent + "%\n"@ + if audit.disagree_samples@.len() > 0 {
            sample_lines(audit.disagree_samples@)
        } else {
            ""@
        },
        sample_lines(samples.push(s)) == sample_lines(samples) + ("    tid="@
            + layout::left_aligned(layout::decimal(s.table_id as int), 6) + " "@
            + layout::left_aligned(s.index_table@, 32) + " -> "@ + layout::left_aligned(
            s.position_table@,
            32,
        ) + " @ root="@ + layout::left_aligned(layout::decimal(s.root_page as int), 8) + " : "@
            + s.index_name@ + "\n"@),
        sample_lines(Seq::empty())
            == "  disagreement samples (sysindex_table -> position_table @ root_page : index):\n"@,
{
    assert(samples.push(s).drop_last() =~= samples);
}

/// One more edge is listed, at the end, unless only resolved edges are and it has no
/// target; a missing target is shown as a dash.
pub proof fn lemma_one_more_edge(edges: Seq<FkEdge>, e: FkEdge, resolved_only: bool)
    ensures
        edge_lines(edges.push(e), resolved_only) == if e.target_table is Some || !resolved_only {
            edge_lines(edges, resolved_only) + (layout::left_aligned(e.source_table@, 40) + "  "@
                + layout::right_aligned(layout::decimal(e.source_column_id as int), 4) + "  "@
                + layout::left_aligned(e.source_column@, 28) + "  "@ + layout::left_aligned(
                match e.target_table {
                    Some(t) => t@,
                    None => "-"@,
                },
                40,
            ) + "  "@ + layout::right_aligned(layout::decimal(e.score as int), 5) + "\n"@)
        } else {
            edge_lines(edges, resolved_only)
        },
        edge_lines(Seq::empty(), resolved_only) == layout::left_aligned("source_table"@, 40)
            + "  "@ + layout::right_aligned("col"@, 4) + "  "@ + layout::left_aligned(
            "source_column"@,
            28,
        ) + "  "@ + layout::left_aligned("target_table"@, 40) + "  "@ + layout::right_aligned(
            "score"@,
            5,
        ) + "\n"@,
{
    assert(edges.push(e).drop_last() =~= edges);
}

/// One more bucket adds its count to the total and its line to the listing: the flag in
/// two hexadecimal digits, the count, and the sample columns with commas between them.
pub proof fn lemma_one_more_bucket(
    buckets: Seq<NullsFlagBucket>,
    b: NullsFlagBucket,
    samples: Seq<String>,
    s: String,
)
    ensures
        bucket_total(buckets.push(b)) == bucket_total(buckets) + b.count,
        bucket_total(Seq::empty()) == 0,
        bucket_lines(buckets.push(b)) == bucket_lines(buckets) + ("0x"@ + layout::hex_byte(b.flag)
            + "    "@ + layout::right_aligned(layout::decimal(b.count as int), 8) + "  "@ + joined(
            b.sample_columns@,
        ) + "\n"@),
        bucket_lines(Seq::empty()) == "  byte     count  sample_columns\n"@,
        nulls_text(buckets) == "total syscolumn rows: "@ + layout::decimal(
            bucket_total(buckets) as int,
        ) + "  distinct nulls_flag values: "@ + layout::decimal(buckets.len() as int) + "\n"@
            + bucket_lines(buckets),
        samples.len() > 0 ==> joined(samples.push(s)) == joined(samples) + ", "@ + s@,
        joined(seq![s]) == s@,
        joined(Seq::empty()).len() == 0,
{
    assert(buckets.push(b).drop_last() =~= buckets);
    assert(samples.push(s).drop_last() =~= samples);
    assert(seq![s][0] == s);
}

/// The table of a validation: the numbers of pages that pass, fail, have no band and are
/// not measured, and their sum, each in a column ten wide.
pub proof fn lemma_validation(
    stats: ValidationStats,
    a: Seq<char>,
    b: Seq<char>,
    c: Seq<char>,
    d: Seq<char>,
    e: Seq<char>,
)
    ensures
        stats.sum() == stats.pass + stats.fail + stats.no_band + stats.unmeasured,
        five_cells(a, b, c, d, e) == layout::right_aligned(a, 10) + "  "@ + layout::right_aligned(
            b,
            10,
        ) + "  "@ + layout::right_aligned(c, 10) + "  "@ + layout::right_aligned(d, 10) + "  "@
            + layout::right_aligned(e, 10) + "\n"@,
{
}

} // verus!
