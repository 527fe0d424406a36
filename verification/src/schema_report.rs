//! Reports on the columns of a table.

use vstd::prelude::*;
use vstd::string::*;

use crate::layout;
use crate::layout::{push_left, push_right, unsigned_text};
use crate::owner_bridge::BridgeSource;
use crate::report::right_text;
use crate::schema;
use crate::schema::SchemaRecovery;
use crate::syscolumn::SysColumn;
use crate::text;

verus! {

/// A text in double quotes, with what does not print escaped.
pub uninterp spec fn debug_quoted(s: Seq<char>) -> Seq<char>;

/// `format!("{:?}")` on a text: the text in double quotes, with what does not
/// print escaped. Which characters are escaped, and how, is not stated.
#[verifier::external_body]
fn quote(s: &str) -> (quoted: String)
    ensures
        quoted@ == debug_quoted(s@),
{
    format!("{:?}", s)
}

/// The lines that explain why no columns were found, in terms of the stage that
/// came up empty. `quoted` is the name of the table, in quotes.
pub open spec fn miss_text(found: SchemaRecovery, quoted: Seq<char>) -> Seq<char> {
    "no columns recovered for table "@ + quoted + "\n"@ + catalog_stage(found) + syscolumn_stage(
        found,
    ) + bridge_stage(found)
        + "  this table:   no SYSCOLUMN owner could be bridged to it, so its columns cannot be attributed yet"@
}

/// Whether the catalog lists the table.
pub open spec fn catalog_stage(found: SchemaRecovery) -> Seq<char> {
    match found.catalog_table_id {
        Some(tid) => "  catalog:      listed in SYSTABLE (table_id "@ + layout::decimal(tid as int)
            + ")\n"@,
        None => "  catalog:      no SYSTABLE row with this name - check `openqbw catalog`\n"@,
    }
}

/// What came of the columns.
pub open spec fn syscolumn_stage(found: SchemaRecovery) -> Seq<char> {
    "  SYSCOLUMN:    "@ + layout::decimal(found.syscolumn_rows as int) + " rows recovered, "@
        + layout::decimal(found.distinct_owners as int) + " distinct owners\n"@
}

/// What came of the bridge.
pub open spec fn bridge_stage(found: SchemaRecovery) -> Seq<char> {
    match found.backref_distance {
        Some(d) => "  owner bridge: "@ + layout::decimal(found.bridged_tables as int) + " tables ("@
            + layout::decimal(found.from_backref as int) + " via SYSTABLE back-reference at -"@
            + layout::decimal(d as int) + ", "@ + layout::decimal(found.from_sysobject as int)
            + " via SYSOBJECT scan)\n"@,
        None => "  owner bridge: "@ + layout::decimal(found.bridged_tables as int) + " tables ("@
            + layout::decimal(found.from_sysobject as int)
            + " via SYSOBJECT scan; no SYSTABLE back-reference distance could be calibrated on this file)\n"@,
    }
}

fn catalog_stage_text(found: &SchemaRecovery) -> (out: String)
    ensures
        out@ == catalog_stage(*found),
{
    match found.catalog_table_id {
        Some(tid) => {
            let mut out: String = "  catalog:      listed in SYSTABLE (table_id ".to_owned();
            out.append(unsigned_text(tid as u64).as_str());
            out.append(")\n");
            out
        },
        None => {
            "  catalog:      no SYSTABLE row with this name - check `openqbw catalog`\n".to_owned()
        },
    }
}

fn syscolumn_stage_text(found: &SchemaRecovery) -> (out: String)
    ensures
        out@ == syscolumn_stage(*found),
{
    let mut out: String = "  SYSCOLUMN:    ".to_owned();
    out.append(unsigned_text(found.syscolumn_rows as u64).as_str());
    out.append(" rows recovered, ");
    out.append(unsigned_text(found.distinct_owners as u64).as_str());
    out.append(" distinct owners\n");
    out
}

fn bridge_stage_text(found: &SchemaRecovery) -> (out: String)
    ensures
        out@ == bridge_stage(*found),
{
    let mut out: String = "  owner bridge: ".to_owned();
    out.append(unsigned_text(found.bridged_tables as u64).as_str());
    out.append(" tables (");
    match found.backref_distance {
        Some(d) => {
            out.append(unsigned_text(found.from_backref as u64).as_str());
            out.append(" via SYSTABLE back-reference at -");
            out.append(unsigned_text(d as u64).as_str());
            out.append(", ");
            out.append(unsigned_text(found.from_sysobject as u64).as_str());
            out.append(" via SYSOBJECT scan)\n");
        },
        None => {
            out.append(unsigned_text(found.from_sysobject as u64).as_str());
            out.append(
                " via SYSOBJECT scan; no SYSTABLE back-reference distance could be calibrated on this file)\n",
            );
        },
    }
    out
}

/// Explains why no columns were found. `quoted` is the name of the table, in
/// quotes.
pub fn miss_report(found: &SchemaRecovery, quoted: &str) -> (out: String)
    ensures
        out@ == miss_text(*found, quoted@),
{
    let mut out: String = "no columns recovered for table ".to_owned();
    out.append(quoted);
    out.append("\n");
    out.append(catalog_stage_text(found).as_str());
    out.append(syscolumn_stage_text(found).as_str());
    out.append(bridge_stage_text(found).as_str());
    out.append(
        "  this table:   no SYSCOLUMN owner could be bridged to it, so its columns cannot be attributed yet",
    );
    out
}

/// Explains why no columns were found, in terms of the stage that came up empty:
/// the catalog lookup, the recovery of `SYSCOLUMN` rows, or the bridge from owners
/// to tables.
pub fn schema_miss_report(found: &SchemaRecovery) -> (out: String)
    ensures
        out@ == miss_text(*found, debug_quoted(found.table@)),
{
    let quoted = quote(found.table.as_str());
    miss_report(found, quoted.as_str())
}

/// Where the columns come from.
pub open spec fn provenance(found: SchemaRecovery) -> Seq<char> {
    match (found.owner, found.source) {
        (Some(owner), Some(source)) => "  (SYSCOLUMN owner "@ + layout::decimal(owner as int)
            + ", via "@ + source.label_text() + ")"@,
        _ => ""@,
    }
}

/// The line above the columns of a table.
pub open spec fn head_text(found: SchemaRecovery) -> Seq<char> {
    "table: "@ + found.table@ + "  columns: "@ + layout::decimal(found.columns@.len() as int)
        + provenance(found) + "\n"@
}

fn provenance_text(found: &SchemaRecovery) -> (out: String)
    ensures
        out@ == provenance(*found),
{
    match (found.owner, found.source) {
        (Some(owner), Some(source)) => {
            let mut out: String = "  (SYSCOLUMN owner ".to_owned();
            out.append(unsigned_text(owner as u64).as_str());
            out.append(", via ");
            out.append(source.label());
            out.append(")");
            out
        },
        _ => "".to_owned(),
    }
}

/// The line above the columns of a table: it names the owner, and the bridge that
/// resolved it.
pub fn schema_head(found: &SchemaRecovery) -> (out: String)
    ensures
        out@ == head_text(*found),
{
    let mut out: String = "table: ".to_owned();
    out.append(found.table.as_str());
    out.append("  columns: ");
    out.append(unsigned_text(found.columns.len() as u64).as_str());
    out.append(provenance_text(found).as_str());
    out.append("\n");
    out
}

/// The warning about holes in the column ids, if there are any.
pub open spec fn is_gap_warning(found: SchemaRecovery, warning: Option<Seq<char>>) -> bool {
    let missing = schema::missing_ids(found.columns@);
    match warning {
        Some(text) => missing.len() > 0 && exists|lo: u32, hi: u32| #[trigger]
            schema::is_id_range(found.columns@, lo, hi) && text == "warning: "@ + layout::decimal(
                missing.len() as int,
            ) + " of the "@ + layout::decimal(hi - lo + 1) + " column_ids in "@ + layout::decimal(
                lo as int,
            ) + "..="@ + layout::decimal(hi as int)
                + " have no recovered SYSCOLUMN row, so the listing below is incomplete (openqbw#19)\n"@,
        None => missing.len() == 0,
    }
}

/// The view of an optional text.
pub open spec fn text_view(s: Option<String>) -> Option<Seq<char>> {
    match s {
        Some(t) => Some(t@),
        None => None,
    }
}

/// The warning about holes in the column ids, if there are any.
pub fn gap_warning(found: &SchemaRecovery) -> (warning: Option<String>)
    ensures
        is_gap_warning(*found, text_view(warning)),
{
    let missing: usize = found.missing_column_ids();
    match found.column_id_range() {
        Some((lo, hi)) => {
            if missing == 0 {
                return None;
            }
            assert(schema::plausible_ids(found.columns@).contains(lo as int));
            assert(schema::is_id_range(found.columns@, lo, hi));
            let mut out: String = "warning: ".to_owned();
            out.append(unsigned_text(missing as u64).as_str());
            out.append(" of the ");
            out.append(unsigned_text((hi - lo) as u64 + 1).as_str());
            out.append(" column_ids in ");
            out.append(unsigned_text(lo as u64).as_str());
            out.append("..=");
            out.append(unsigned_text(hi as u64).as_str());
            out.append(
                " have no recovered SYSCOLUMN row, so the listing below is incomplete (openqbw#19)\n",
            );
            Some(out)
        },
        None => {
            assert(schema::missing_ids(found.columns@) =~= Set::<int>::empty());
            None
        },
    }
}

/// The warning about rows with a wild column id, if there are any.
pub open spec fn implausible_text(found: SchemaRecovery) -> Option<Seq<char>> {
    let n = found.columns@.len() - schema::plausible(found.columns@).len();
    if n > 0 {
        Some(
            "warning: "@ + layout::decimal(n)
                + " row(s) below carry an implausible column_id and are likely mis-parsed\n"@,
        )
    } else {
        None
    }
}

/// The warning about rows with a wild column id, if there are any.
pub fn implausible_warning(found: &SchemaRecovery) -> (warning: Option<String>)
    ensures
        text_view(warning) == implausible_text(*found),
{
    let n: usize = found.implausible_column_ids();
    if n > 0 {
        let mut out: String = "warning: ".to_owned();
        out.append(unsigned_text(n as u64).as_str());
        out.append(" row(s) below carry an implausible column_id and are likely mis-parsed\n");
        Some(out)
    } else {
        None
    }
}

/// A line with five columns: id, name, domain, width and nulls.
pub open spec fn column_cells(
    id: Seq<char>,
    name: Seq<char>,
    domain: Seq<char>,
    width: Seq<char>,
    nulls: Seq<char>,
) -> Seq<char> {
    layout::right_aligned(id, 5) + "  "@ + layout::left_aligned(name, 32) + "  "@
        + layout::right_aligned(domain, 6) + "  "@ + layout::right_aligned(width, 5) + "  "@
        + layout::right_aligned(nulls, 5) + "\n"@
}

/// The line of a column.
pub open spec fn column_line(c: SysColumn) -> Seq<char> {
    column_cells(
        layout::decimal(c.column_id as int),
        c.name@,
        seq![c.domain_char as char],
        layout::decimal(c.width as int),
        layout::decimal(c.nulls_flag as int),
    )
}

/// The lines of columns.
pub open spec fn column_lines(columns: Seq<SysColumn>) -> Seq<char>
    decreases columns.len(),
{
    if columns.len() == 0 {
        column_cells("id"@, "name"@, "domain"@, "width"@, "nulls"@)
    } else {
        column_lines(columns.drop_last()) + column_line(columns.last())
    }
}

fn push_cells(out: &mut String, id: &str, name: &str, domain: &str, width: &str, nulls: &str)
    ensures
        final(out)@ == old(out)@ + column_cells(id@, name@, domain@, width@, nulls@),
{
    let mut line = right_text(id, 5);
    line.append("  ");
    push_left(&mut line, name, 32);
    line.append("  ");
    push_right(&mut line, domain, 6);
    line.append("  ");
    push_right(&mut line, width, 5);
    line.append("  ");
    push_right(&mut line, nulls, 5);
    line.append("\n");
    out.append(line.as_str());
}

/// The columns of a table, one line each, under a line of headings.
pub fn schema_columns(found: &SchemaRecovery) -> (out: String)
    ensures
        out@ == column_lines(found.columns@),
{
    let mut out = String::new();
    push_cells(&mut out, "id", "name", "domain", "width", "nulls");
    assert(out@ =~= column_lines(found.columns@.take(0)));
    for k in 0..found.columns.len()
        invariant
            out@ == column_lines(found.columns@.take(k as int)),
    {
        let c = &found.columns[k];
        let mut domain = String::new();
        domain.push(c.domain_char as char);
        assert(domain@ =~= seq![c.domain_char as char]);
        push_cells(
            &mut out,
            unsigned_text(c.column_id as u64).as_str(),
            c.name.as_str(),
            domain.as_str(),
            unsigned_text(c.width as u64).as_str(),
            unsigned_text(c.nulls_flag as u64).as_str(),
        );
        assert(found.columns@.take(k + 1).drop_last() =~= found.columns@.take(k as int));
    }
    assert(found.columns@.take(found.columns@.len() as int) =~= found.columns@);
    out
}

/// The report on a miss says, stage by stage, what was found: whether the catalog lists
/// the table and under which id, how many rows and owners there are, and how many tables
/// are bridged, through which source and at which distance.
pub proof fn lemma_miss(found: SchemaRecovery, quoted: Seq<char>)
    ensures
        miss_text(found, quoted) == "no columns recovered for table "@ + quoted + "\n"@ + (
        match found.catalog_table_id {
            Some(tid) => "  catalog:      listed in SYSTABLE (table_id "@ + layout::decimal(
                tid as int,
            ) + ")\n"@,
            None => "  catalog:      no SYSTABLE row with this name - check `openqbw catalog`\n"@,
        }) + ("  SYSCOLUMN:    "@ + layout::decimal(found.syscolumn_rows as int)
            + " rows recovered, "@ + layout::decimal(found.distinct_owners as int)
            + " distinct owners\n"@) + (match found.backref_distance {
            Some(d) => "  owner bridge: "@ + layout::decimal(found.bridged_tables as int)
                + " tables ("@ + layout::decimal(found.from_backref as int)
                + " via SYSTABLE back-reference at -"@ + layout::decimal(d as int) + ", "@
                + layout::decimal(found.from_sysobject as int) + " via SYSOBJECT scan)\n"@,
            None => "  owner bridge: "@ + layout::decimal(found.bridged_tables as int)
                + " tables ("@ + layout::decimal(found.from_sysobject as int)
                + " via SYSOBJECT scan; no SYSTABLE back-reference distance could be calibrated on this file)\n"@,
        })
            + "  this table:   no SYSCOLUMN owner could be bridged to it, so its columns cannot be attributed yet"@,
{
}

/// The head of a schema names the table, how many columns it has, and, where the table
/// was resolved, its owner and the source.
pub proof fn lemma_head(found: SchemaRecovery)
    ensures
        found.owner is Some && found.source is Some ==> head_text(found) == "table: "@
            + found.table@ + "  columns: "@ + layout::decimal(found.columns@.len() as int) + (
        "  (SYSCOLUMN owner "@ + layout::decimal(found.owner->0 as int) + ", via "@
            + match found.source->0 {
            BridgeSource::SysTableBackref => "SYSTABLE back-reference"@,
            BridgeSource::SysObjectScan => "SYSOBJECT scan"@,
        } + ")"@) + "\n"@,
        found.owner is None || found.source is None ==> head_text(found) == "table: "@
            + found.table@ + "  columns: "@ + layout::decimal(found.columns@.len() as int) + ""@
            + "\n"@,
{
}

/// There is a warning of gaps exactly if column ids are missing; it says how many, out of
/// how many from the smallest to the largest.
pub proof fn lemma_gap_warning(
    found: SchemaRecovery,
    warning: Option<Seq<char>>,
    lo: u32,
    hi: u32,
)
    requires
        is_gap_warning(found, warning),
        schema::is_id_range(found.columns@, lo, hi),
    ensures
        warning is Some <==> schema::missing_ids(found.columns@).len() > 0,
        warning is Some ==> warning->0 == "warning: "@ + layout::decimal(
            schema::missing_ids(found.columns@).len() as int,
        ) + " of the "@ + layout::decimal(hi - lo + 1) + " column_ids in "@ + layout::decimal(
            lo as int,
        ) + "..="@ + layout::decimal(hi as int)
            + " have no recovered SYSCOLUMN row, so the listing below is incomplete (openqbw#19)\n"@,
{
    if warning is Some {
        let (a, b) = choose|a: u32, b: u32| #[trigger]
            schema::is_id_range(found.columns@, a, b) && warning->0 == "warning: "@
                + layout::decimal(schema::missing_ids(found.columns@).len() as int) + " of the "@
                + layout::decimal(b - a + 1) + " column_ids in "@ + layout::decimal(a as int)
                + "..="@ + layout::decimal(b as int)
                + " have no recovered SYSCOLUMN row, so the listing below is incomplete (openqbw#19)\n"@;
        assert(schema::plausible_ids(found.columns@).contains(lo as int));
        assert(schema::plausible_ids(found.columns@).contains(hi as int));
        assert(schema::plausible_ids(found.columns@).contains(a as int));
        assert(schema::plausible_ids(found.columns@).contains(b as int));
        assert(a == lo && b == hi);
    }
}

/// There is a warning of implausible ids exactly if there are any; it says how many.
pub proof fn lemma_implausible_warning(found: SchemaRecovery)
    ensures
        implausible_text(found) is Some <==> schema::plausible(found.columns@).len()
            < found.columns@.len(),
        implausible_text(found) is Some ==> implausible_text(found)->0 == "warning: "@
            + layout::decimal(found.columns@.len() - schema::plausible(found.columns@).len())
            + " row(s) below carry an implausible column_id and are likely mis-parsed\n"@,
{
}

/// Every column has its line, in order, under the titles: its id, its name, its domain as
/// a character, its width and its nulls flag.
pub proof fn lemma_one_more_column_line(columns: Seq<SysColumn>, c: SysColumn)
    ensures
        column_lines(columns.push(c)) == column_lines(columns) + (layout::right_aligned(
            layout::decimal(c.column_id as int),
            5,
        ) + "  "@ + layout::left_aligned(c.name@, 32) + "  "@ + layout::right_aligned(
            seq![c.domain_char as char],
            6,
        ) + "  "@ + layout::right_aligned(layout::decimal(c.width as int), 5) + "  "@
            + layout::right_aligned(layout::decimal(c.nulls_flag as int), 5) + "\n"@),
        column_lines(Seq::empty()) == layout::right_aligned("id"@, 5) + "  "@
            + layout::left_aligned("name"@, 32) + "  "@ + layout::right_aligned("domain"@, 6)
            + "  "@ + layout::right_aligned("width"@, 5) + "  "@ + layout::right_aligned(
            "nulls"@,
            5,
        ) + "\n"@,
{
    assert(columns.push(c).drop_last() =~= columns);
}

} // verus!
