//! Reports: what the command-line tool prints, as text.

use vstd::prelude::*;
use vstd::set_lib::*;
use vstd::string::*;

use crate::csv;
use crate::csv::order_by_table_id;
use crate::export;
use crate::iif;
use crate::layout;
use crate::layout::{push_left, push_right, signed_text, unsigned_text};
use crate::money;
use crate::money::{dollars_of, push_dollars};
use crate::order;
use crate::order::count_distinct;
use crate::records;
use crate::records::{LineItem, TransactionHeader};
use crate::systable::SysTableEntry;
use crate::text;
use crate::text::starts_with;

verus! {

/// The name looks like that of a system table.
pub open spec fn is_system(name: Seq<char>) -> bool {
    "SYS"@.is_prefix_of(name) || "ISYS"@.is_prefix_of(name) || "RS_"@.is_prefix_of(name)
        || "dbo"@.is_prefix_of(name)
}

/// Whether a name looks like that of a system table.
pub fn is_system_name(name: &str) -> (r: bool)
    ensures
        r == is_system(name@),
{
    starts_with(name, "SYS") || starts_with(name, "ISYS") || starts_with(name, "RS_")
        || starts_with(name, "dbo")
}

/// The tables that do not look like system tables.
pub open spec fn user_tables(tables: Seq<SysTableEntry>) -> Seq<SysTableEntry> {
    tables.filter(|t: SysTableEntry| !is_system(t.name@))
}

/// Counts the tables that do not look like system tables.
pub fn count_user_tables(tables: &[SysTableEntry]) -> (n: usize)
    ensures
        n == user_tables(tables@).len(),
{
    let mut n: usize = 0;
    assert(user_tables(tables@.take(0)).len() == 0) by {
        reveal(Seq::filter);
    }
    for k in 0..tables.len()
        invariant
            n <= k,
            n == user_tables(tables@.take(k as int)).len(),
    {
        proof {
            lemma_user_push(tables@, k as int);
        }
        if !is_system_name(tables[k].name.as_str()) {
            n = n + 1;
        }
    }
    assert(tables@.take(tables@.len() as int) =~= tables@);
    n
}

proof fn lemma_user_push(tables: Seq<SysTableEntry>, k: int)
    requires
        0 <= k < tables.len(),
    ensures
        user_tables(tables.take(k + 1)) == if is_system(tables[k].name@) {
            user_tables(tables.take(k))
        } else {
            user_tables(tables.take(k)).push(tables[k])
        },
{
    reveal(Seq::filter);
    assert(tables.take(k + 1).drop_last() =~= tables.take(k));
    assert(tables.take(k + 1).last() == tables[k]);
}

/// A number in decimal, a dash where there is none.
pub open spec fn number_or_dash(n: Option<u32>) -> Seq<char> {
    match n {
        Some(v) => layout::decimal(v as int),
        None => "-"@,
    }
}

fn dash_text(n: Option<u32>) -> (s: String)
    ensures
        s@ == number_or_dash(n),
{
    match n {
        Some(v) => unsigned_text(v as u64),
        None => "-".to_owned(),
    }
}

/// The line of a catalog entry in a listing.
pub open spec fn catalog_entry_line(t: SysTableEntry) -> Seq<char> {
    layout::right_aligned(layout::decimal(t.table_id as int), 6) + "  "@ + layout::right_aligned(
        number_or_dash(t.col_count),
        5,
    ) + "  "@ + layout::right_aligned(number_or_dash(t.data_root_page), 6) + "  "@
        + layout::right_aligned(number_or_dash(t.last_page), 6) + "  "@ + t.name@ + "\n"@
}

/// The lines of catalog entries in a listing.
pub open spec fn catalog_entry_lines(tables: Seq<SysTableEntry>) -> Seq<char>
    decreases tables.len(),
{
    if tables.len() == 0 {
        seq![]
    } else {
        catalog_entry_lines(tables.drop_last()) + catalog_entry_line(tables.last())
    }
}

/// The head of a catalog listing.
pub open spec fn catalog_head(file: Seq<char>, pages: int, tables: Seq<SysTableEntry>) -> Seq<char> {
    "file: "@ + file + "  pages="@ + layout::decimal(pages) + "  unique_tables="@ + layout::decimal(
        tables.len() as int,
    ) + "  user_tables="@ + layout::decimal(user_tables(tables).len() as int)
        + "\n   tid   cols    root    last  name\n"@
}

/// The listing of a catalog, by ascending table id; only tables that do not look
/// like system tables if `user_only`.
pub open spec fn catalog_text(
    file: Seq<char>,
    pages: int,
    tables: Seq<SysTableEntry>,
    user_only: bool,
) -> Seq<char> {
    let sorted = csv::tables_by_id(tables);
    catalog_head(file, pages, tables) + catalog_entry_lines(
        if user_only {
            user_tables(sorted)
        } else {
            sorted
        },
    )
}

fn push_catalog_entry_line(out: &mut String, t: &SysTableEntry)
    ensures
        final(out)@ == old(out)@ + catalog_entry_line(*t),
{
    let mut line = right_text(unsigned_text(t.table_id as u64).as_str(), 6);
    line.append("  ");
    push_right(&mut line, dash_text(t.col_count).as_str(), 5);
    line.append("  ");
    push_right(&mut line, dash_text(t.data_root_page).as_str(), 6);
    line.append("  ");
    push_right(&mut line, dash_text(t.last_page).as_str(), 6);
    line.append("  ");
    line.append(t.name.as_str());
    line.append("\n");
    out.append(line.as_str());
}

pub(crate) fn right_text(s: &str, width: usize) -> (out: String)
    ensures
        out@ == layout::right_aligned(s@, width as int),
{
    let mut out = String::new();
    push_right(&mut out, s, width);
    assert(out@ =~= layout::right_aligned(s@, width as int));
    out
}

pub(crate) fn left_text(s: &str, width: usize) -> (out: String)
    ensures
        out@ == layout::left_aligned(s@, width as int),
{
    let mut out = String::new();
    push_left(&mut out, s, width);
    assert(out@ =~= layout::left_aligned(s@, width as int));
    out
}

/// The listing of a catalog.
pub fn catalog_listing(
    file: &str,
    pages: u64,
    tables: &[SysTableEntry],
    user_only: bool,
) -> (out: String)
    ensures
        out@ == catalog_text(file@, pages as int, tables@, user_only),
{
    let positions = order_by_table_id(tables);
    let ghost sorted = csv::tables_by_id(tables@);
    let mut out: String = "file: ".to_owned();
    out.append(file);
    out.append("  pages=");
    out.append(unsigned_text(pages).as_str());
    out.append("  unique_tables=");
    out.append(unsigned_text(tables.len() as u64).as_str());
    out.append("  user_tables=");
    out.append(unsigned_text(count_user_tables(tables) as u64).as_str());
    out.append("\n   tid   cols    root    last  name\n");
    let ghost head = out@;
    let ghost listed = sorted.take(0);
    assert(head == catalog_head(file@, pages as int, tables@));
    assert(user_tables(sorted.take(0)) =~= Seq::<SysTableEntry>::empty()) by {
        reveal(Seq::filter);
    }
    assert(head + catalog_entry_lines(sorted.take(0)) =~= head);
    assert(head + catalog_entry_lines(user_tables(sorted.take(0))) =~= head);
    for k in 0..positions.len()
        invariant
            sorted == csv::tables_by_id(tables@),
            positions@ == order::stable_order::<u32>(csv::table_ids(tables@)),
            order::is_order_of::<u32>(csv::table_ids(tables@), 0, tables@.len() as int, positions@),
            out@ == head + catalog_entry_lines(
                if user_only {
                    user_tables(sorted.take(k as int))
                } else {
                    sorted.take(k as int)
                },
            ),
    {
        let t = &tables[positions[k]];
        proof {
            assert(sorted[k as int] == *t);
            lemma_user_push(sorted, k as int);
            assert(sorted.take(k + 1).drop_last() =~= sorted.take(k as int));
            assert(sorted.take(k + 1).last() == *t);
            let before = user_tables(sorted.take(k as int));
            assert(before.push(*t).drop_last() =~= before);
            text::lemma_join(head, catalog_entry_lines(sorted.take(k as int)), catalog_entry_line(*t));
            text::lemma_join(head, catalog_entry_lines(before), catalog_entry_line(*t));
        }
        if !user_only || !is_system_name(t.name.as_str()) {
            push_catalog_entry_line(&mut out, t);
        }
    }
    assert(sorted.take(positions@.len() as int) =~= sorted);
    out
}

/// How the records of a file hang together.
#[derive(Debug, Clone, PartialEq, Eq)]
pub struct RecordCounts {
    /// Transaction headers.
    pub headers: usize,
    /// Line items.
    pub line_items: usize,
    /// Distinct parent ids among the line items.
    pub parents: usize,
    /// Parents that have no header.
    pub orphan_parents: usize,
    /// Header ids that have no line item.
    pub childless_headers: usize,
    /// Sum of the line items, in cents.
    pub grand_total_cents: i64,
}

/// The set of parent ids.
pub open spec fn parent_set(items: Seq<LineItem>) -> Set<Seq<char>> {
    iif::invoice_ids(items).to_set()
}

/// The set of header ids.
pub open spec fn header_set(headers: Seq<TransactionHeader>) -> Set<Seq<char>> {
    export::header_ids(headers).to_set()
}

/// `counts` says how line items and headers hang together.
pub open spec fn are_record_counts(
    items: Seq<LineItem>,
    headers: Seq<TransactionHeader>,
    counts: RecordCounts,
) -> bool {
    &&& counts.headers == headers.len()
    &&& counts.line_items == items.len()
    &&& counts.parents == parent_set(items).len()
    &&& counts.orphan_parents == parent_set(items).difference(header_set(headers)).len()
    &&& counts.childless_headers == header_set(headers).difference(parent_set(items)).len()
    &&& counts.grand_total_cents == records::total_cents(items)
}

fn ids_of_items<'a>(items: &'a [LineItem]) -> (ids: Vec<&'a str>)
    ensures
        order::key_views(ids@) == iif::invoice_ids(items@),
{
    let mut ids: Vec<&'a str> = Vec::new();
    for k in 0..items.len()
        invariant
            ids@.len() == k,
            forall|i: int| 0 <= i < k ==> (#[trigger] ids@[i])@ == items@[i].invoice_id@,
    {
        ids.push(items[k].invoice_id.as_str());
    }
    assert(order::key_views(ids@) =~= iif::invoice_ids(items@));
    ids
}

/// The size of a union: the elements of one set, and those of the other that are
/// new.
proof fn lemma_union_size(a: Set<Seq<char>>, b: Set<Seq<char>>)
    requires
        a.finite(),
        b.finite(),
    ensures
        a.union(b).len() == a.len() + b.difference(a).len(),
        a.union(b).len() == b.len() + a.difference(b).len(),
{
    assert(a.disjoint(b.difference(a)));
    assert(b.disjoint(a.difference(b)));
    lemma_set_disjoint_lens(a, b.difference(a));
    lemma_set_disjoint_lens(b, a.difference(b));
    assert(a + b.difference(a) =~= a.union(b));
    assert(b + a.difference(b) =~= a.union(b));
}

/// Counts the records, and how they hang together.
pub fn count_records(items: &[LineItem], headers: &[TransactionHeader]) -> (counts: RecordCounts)
    requires
        records::total_cents(items@) <= i64::MAX,
    ensures
        are_record_counts(items@, headers@, counts),
{
    let mut ids = ids_of_items(items);
    let parents: usize = count_distinct(&ids);
    let ghost keys = iif::invoice_ids(items@);
    let mut own: Vec<&str> = Vec::new();
    for k in 0..headers.len()
        invariant
            own@.len() == k,
            forall|i: int| 0 <= i < k ==> (#[trigger] own@[i])@ == headers@[i].qb_id@,
            order::key_views(ids@) == keys + export::header_ids(headers@).take(k as int),
    {
        let ghost before = order::key_views(ids@);
        own.push(headers[k].qb_id.as_str());
        ids.push(headers[k].qb_id.as_str());
        assert(order::key_views(ids@) =~= before.push(headers@[k as int].qb_id@));
        assert(export::header_ids(headers@).take(k + 1) =~= export::header_ids(headers@).take(
            k as int,
        ).push(headers@[k as int].qb_id@));
        assert(order::key_views(ids@) =~= keys + export::header_ids(headers@).take(k + 1));
    }
    assert(order::key_views(own@) =~= export::header_ids(headers@));
    assert(export::header_ids(headers@).take(headers@.len() as int) =~= export::header_ids(
        headers@,
    ));
    let with_header: usize = count_distinct(&own);
    let either: usize = count_distinct(&ids);
    proof {
        let a = parent_set(items@);
        let b = header_set(headers@);
        let both = keys + export::header_ids(headers@);
        assert forall|x: Seq<char>| both.to_set().contains(x) <==> a.union(b).contains(x) by {
            if both.to_set().contains(x) {
                let i = choose|i: int| 0 <= i < both.len() && both[i] == x;
                if i < keys.len() {
                    assert(keys[i] == x);
                } else {
                    assert(export::header_ids(headers@)[i - keys.len()] == x);
                }
            }
            if a.contains(x) {
                let i = choose|i: int| 0 <= i < keys.len() && keys[i] == x;
                assert(both[i] == x);
            }
            if b.contains(x) {
                let i = choose|i: int|
                    0 <= i < headers@.len() && export::header_ids(headers@)[i] == x;
                assert(both[keys.len() + i] == x);
            }
        }
        assert(both.to_set() =~= a.union(b));
        lemma_union_size(a, b);
    }
    let mut cents: i64 = 0;
    for k in 0..items.len()
        invariant
            records::total_cents(items@) <= i64::MAX,
            cents == records::total_cents(items@.take(k as int)),
    {
        proof {
            assert(items@.take(k + 1).drop_last() =~= items@.take(k as int));
            records::lemma_total_cents(items@, k + 1);
            records::lemma_total_cents(items@, k as int);
        }
        if let Some(c) = items[k].amount_cents {
            cents = cents + c as i64;
        }
    }
    assert(items@.take(items@.len() as int) =~= items@);
    RecordCounts {
        headers: headers.len(),
        line_items: items.len(),
        parents,
        orphan_parents: either - with_header,
        childless_headers: either - parents,
        grand_total_cents: cents,
    }
}

/// The lines on the records of a file.
pub open spec fn records_text(counts: RecordCounts) -> Seq<char> {
    "=== business records ===\ntransaction headers : "@ + layout::decimal(counts.headers as int)
        + "\nline items          : "@ + layout::decimal(counts.line_items as int)
        + "\ndistinct parent invoice ids : "@ + layout::decimal(counts.parents as int)
        + "\norphan parents (no header)  : "@ + layout::decimal(counts.orphan_parents as int)
        + "\nchildless headers           : "@ + layout::decimal(counts.childless_headers as int)
        + "\nlineitem grand total        : $"@ + money::dollars(counts.grand_total_cents as int)
        + "\n"@ + if counts.orphan_parents > 0 || counts.childless_headers > 0 {
        "\nnote: a non-zero orphan count is a discovery signal -- the file \n      may contain partially-purged records or a parent table this \n      build does not parse yet.\n"@
    } else {
        ""@
    }
}

/// The lines on the records of a file. A count that hints at records that are
/// missing comes with a note.
pub fn records_report(counts: &RecordCounts) -> (out: String)
    ensures
        out@ == records_text(*counts),
{
    let mut out: String = "=== business records ===\ntransaction headers : ".to_owned();
    out.append(unsigned_text(counts.headers as u64).as_str());
    out.append("\nline items          : ");
    out.append(unsigned_text(counts.line_items as u64).as_str());
    out.append("\ndistinct parent invoice ids : ");
    out.append(unsigned_text(counts.parents as u64).as_str());
    out.append("\norphan parents (no header)  : ");
    out.append(unsigned_text(counts.orphan_parents as u64).as_str());
    out.append("\nchildless headers           : ");
    out.append(unsigned_text(counts.childless_headers as u64).as_str());
    out.append("\nlineitem grand total        : $");
    push_dollars(&mut out, counts.grand_total_cents);
    out.append("\n");
    if counts.orphan_parents > 0 || counts.childless_headers > 0 {
        out.append(
            "\nnote: a non-zero orphan count is a discovery signal -- the file \n      may contain partially-purged records or a parent table this \n      build does not parse yet.\n",
        );
    } else {
        out.append("");
    }
    out
}

/// The lines on the catalog of a file.
pub open spec fn inventory_text(tables: Seq<SysTableEntry>) -> Seq<char> {
    "=== catalog ===\ntables total: "@ + layout::decimal(tables.len() as int)
        + "\ntables user : "@ + layout::decimal(user_tables(tables).len() as int) + "\n"@
}

/// The lines on the catalog of a file.
pub fn inventory_report(tables: &[SysTableEntry]) -> (out: String)
    ensures
        out@ == inventory_text(tables@),
{
    let mut out: String = "=== catalog ===\ntables total: ".to_owned();
    out.append(unsigned_text(tables.len() as u64).as_str());
    out.append("\ntables user : ");
    out.append(unsigned_text(count_user_tables(tables) as u64).as_str());
    out.append("\n");
    out
}

/// Pages that share one block of what is learned about the fill.
pub const PAGES_PER_BLOCK: u64 = 16;

/// The number of blocks that some pages make, the last one perhaps not full.
pub fn block_count(pages: u64) -> (n: u64)
    ensures
        PAGES_PER_BLOCK * n >= pages,
        n > 0 ==> PAGES_PER_BLOCK * (n - 1) < pages,
        16 * n >= pages,
        n > 0 ==> 16 * (n - 1) < pages,
{
    if pages % PAGES_PER_BLOCK == 0 {
        pages / PAGES_PER_BLOCK
    } else {
        pages / PAGES_PER_BLOCK + 1
    }
}

/// Sum of all line items that a full export of the reference file has, in cents.
pub const PHASE5_INVOICE_TOTAL_CENTS: i64 = 39_991_479_278;

/// Number of parents that a full export of the reference file has.
pub const PHASE5_INVOICE_COUNT: i64 = 13_375;

/// The export is that of the reference file.
pub open spec fn is_regression_ok(parents: int, grand_total_cents: int) -> bool {
    grand_total_cents == PHASE5_INVOICE_TOTAL_CENTS && parents == PHASE5_INVOICE_COUNT
}

/// Whether the export is that of the reference file.
pub fn regression_ok(parents: i64, grand_total_cents: i64) -> (ok: bool)
    ensures
        ok == is_regression_ok(parents as int, grand_total_cents as int),
{
    grand_total_cents == PHASE5_INVOICE_TOTAL_CENTS && parents == PHASE5_INVOICE_COUNT
}

/// How a comparison came out.
pub open spec fn verdict(ok: bool) -> Seq<char> {
    if ok {
        "PASS"@
    } else {
        "DIFF"@
    }
}

fn verdict_text(ok: bool) -> (s: &'static str)
    ensures
        s@ == verdict(ok),
{
    if ok {
        "PASS"
    } else {
        "DIFF"
    }
}

/// The line on the comparison with the reference file.
pub open spec fn regression_text(parents: int, grand_total_cents: int) -> Seq<char> {
    "Phase 5 regression (universal anchor):  parents="@ + layout::decimal(parents) + "/"@
        + layout::decimal(PHASE5_INVOICE_COUNT as int) + "  grand_total=$"@ + money::dollars(
        grand_total_cents,
    ) + "/$"@ + money::dollars(PHASE5_INVOICE_TOTAL_CENTS as int) + "  "@ + verdict(
        is_regression_ok(parents, grand_total_cents),
    ) + "\n"@
}

/// The line on the comparison with the reference file.
pub fn regression_line(parents: i64, grand_total_cents: i64) -> (out: String)
    ensures
        out@ == regression_text(parents as int, grand_total_cents as int),
{
    let mut out: String = "Phase 5 regression (universal anchor):  parents=".to_owned();
    out.append(signed_text(parents).as_str());
    out.append("/");
    out.append(signed_text(PHASE5_INVOICE_COUNT).as_str());
    out.append("  grand_total=$");
    push_dollars(&mut out, grand_total_cents);
    out.append("/$");
    push_dollars(&mut out, PHASE5_INVOICE_TOTAL_CENTS);
    out.append("  ");
    out.append(verdict_text(regression_ok(parents, grand_total_cents)));
    out.append("\n");
    out
}

/// The journal pairs pass: all of them balance.
pub open spec fn is_journal_ok(pairs: int, balanced: int) -> bool {
    pairs == 0 || balanced == pairs
}

/// The line on the journal pairs. `percent` is the share of those that balance.
pub open spec fn journal_text(pairs: int, balanced: int, percent: Seq<char>) -> Seq<char> {
    if pairs == 0 {
        "  no same-type 2-line journal pairs found\n"@
    } else {
        "  same-type 2-line journal pairs: "@ + layout::decimal(balanced) + "/"@ + layout::decimal(
            pairs,
        ) + " balance ("@ + percent + "%) "@ + verdict(balanced == pairs) + "\n"@
    }
}

/// The line on the journal pairs. `percent` is the share of those that balance.
pub fn journal_line(pairs: i64, balanced: i64, percent: &str) -> (out: String)
    ensures
        out@ == journal_text(pairs as int, balanced as int, percent@),
{
    if pairs == 0 {
        "  no same-type 2-line journal pairs found\n".to_owned()
    } else {
        let mut out: String = "  same-type 2-line journal pairs: ".to_owned();
        out.append(signed_text(balanced).as_str());
        out.append("/");
        out.append(signed_text(pairs).as_str());
        out.append(" balance (");
        out.append(percent);
        out.append("%) ");
        out.append(verdict_text(balanced == pairs));
        out.append("\n");
        out
    }
}

/// Whether all invariants of an export hold: it is that of the reference file, and
/// all journal pairs balance.
pub fn verification_ok(
    parents: i64,
    grand_total_cents: i64,
    pairs: i64,
    balanced: i64,
) -> (ok: bool)
    ensures
        ok == (is_regression_ok(parents as int, grand_total_cents as int) && is_journal_ok(
            pairs as int,
            balanced as int,
        )),
        ok <==> parents == 13_375 && grand_total_cents == 39_991_479_278 && (pairs == 0 || balanced
            == pairs),
{
    regression_ok(parents, grand_total_cents) && (pairs == 0 || balanced == pairs)
}

/// A line with a name, a count and an amount.
pub open spec fn totals_text(name: Seq<char>, count: int, cents: int) -> Seq<char> {
    "  "@ + layout::left_aligned(name, 44) + "  "@ + layout::right_aligned(
        layout::decimal(count),
        8,
    ) + "  $"@ + layout::right_aligned(money::dollars(cents), 15) + "\n"@
}

/// A line with a name, a count and an amount.
pub fn totals_line(name: &str, count: i64, cents: i64) -> (out: String)
    ensures
        out@ == totals_text(name@, count as int, cents as int),
{
    let mut out: String = "  ".to_owned();
    push_left(&mut out, name, 44);
    out.append("  ");
    push_right(&mut out, signed_text(count).as_str(), 8);
    out.append("  $");
    push_right(&mut out, dollars_of(cents).as_str(), 15);
    out.append("\n");
    out
}

/// A line with a name and a count.
pub open spec fn count_text(name: Seq<char>, count: int) -> Seq<char> {
    "  "@ + layout::left_aligned(name, 44) + "  "@ + layout::right_aligned(
        layout::decimal(count),
        8,
    ) + "\n"@
}

/// A line with a name and a count.
pub fn count_line(name: &str, count: i64) -> (out: String)
    ensures
        out@ == count_text(name@, count as int),
{
    let mut out: String = "  ".to_owned();
    push_left(&mut out, name, 44);
    out.append("  ");
    push_right(&mut out, signed_text(count).as_str(), 8);
    out.append("\n");
    out
}

/// No orphan parents and no childless headers means that parents and headers are
/// the same ids.
pub proof fn lemma_no_gaps(items: Seq<LineItem>, headers: Seq<TransactionHeader>)
    ensures
        parent_set(items).difference(header_set(headers)) == Set::<Seq<char>>::empty()
            && header_set(headers).difference(parent_set(items)) == Set::<Seq<char>>::empty()
            <==> parent_set(items) == header_set(headers),
{
    let a = parent_set(items);
    let b = header_set(headers);
    if a.difference(b) == Set::<Seq<char>>::empty() && b.difference(a)
        == Set::<Seq<char>>::empty() {
        assert forall|x: Seq<char>| a.contains(x) <==> b.contains(x) by {
            assert(!a.difference(b).contains(x));
            assert(!b.difference(a).contains(x));
        }
        assert(a =~= b);
    }
    if a == b {
        assert(a.difference(b) =~= Set::<Seq<char>>::empty());
        assert(b.difference(a) =~= Set::<Seq<char>>::empty());
    }
}

/// A name is a system name exactly if it begins with `SYS`, `ISYS`, `RS_` or `dbo`, in
/// just these letters.
pub proof fn lemma_system_name(name: Seq<char>)
    ensures
        is_system(name) <==> {
            ||| name.len() >= 3 && name[0] == 'S' && name[1] == 'Y' && name[2] == 'S'
            ||| name.len() >= 4 && name[0] == 'I' && name[1] == 'S' && name[2] == 'Y' && name[3]
                == 'S'
            ||| name.len() >= 3 && name[0] == 'R' && name[1] == 'S' && name[2] == '_'
            ||| name.len() >= 3 && name[0] == 'd' && name[1] == 'b' && name[2] == 'o'
        },
{
    reveal_strlit("SYS");
    reveal_strlit("ISYS");
    reveal_strlit("RS_");
    reveal_strlit("dbo");
    let sys = "SYS"@;
    let isys = "ISYS"@;
    let rs = "RS_"@;
    let dbo = "dbo"@;
    if name.len() >= 3 {
        let s = name.subrange(0, 3);
        assert(s[0] == name[0] && s[1] == name[1] && s[2] == name[2]);
        assert(s =~= sys <==> s[0] == sys[0] && s[1] == sys[1] && s[2] == sys[2]);
        assert(s =~= rs <==> s[0] == rs[0] && s[1] == rs[1] && s[2] == rs[2]);
        assert(s =~= dbo <==> s[0] == dbo[0] && s[1] == dbo[1] && s[2] == dbo[2]);
    }
    if name.len() >= 4 {
        let s = name.subrange(0, 4);
        assert(s[0] == name[0] && s[1] == name[1] && s[2] == name[2] && s[3] == name[3]);
        assert(s =~= isys <==> s[0] == isys[0] && s[1] == isys[1] && s[2] == isys[2] && s[3]
            == isys[3]);
    }
}

/// One more table joins the user tables, at their end, exactly if its name is no system
/// name.
pub proof fn lemma_one_more_user_table(tables: Seq<SysTableEntry>, t: SysTableEntry)
    ensures
        user_tables(tables.push(t)) == if is_system(t.name@) {
            user_tables(tables)
        } else {
            user_tables(tables).push(t)
        },
        user_tables(Seq::empty()).len() == 0,
{
    let all = tables.push(t);
    let n = tables.len() as int;
    lemma_user_push(all, n);
    assert(all.take(n) =~= tables);
    assert(all.take(n + 1) =~= all);
    reveal(Seq::filter);
}

/// The line of a table in the catalog: its id, its number of columns, the first and the
/// last page of its data, a dash for what is not known, and its name.
pub proof fn lemma_catalog_entry(t: SysTableEntry)
    ensures
        catalog_entry_line(t) == layout::right_aligned(layout::decimal(t.table_id as int), 6)
            + "  "@ + layout::right_aligned(
            match t.col_count {
                Some(n) => layout::decimal(n as int),
                None => "-"@,
            },
            5,
        ) + "  "@ + layout::right_aligned(
            match t.data_root_page {
                Some(n) => layout::decimal(n as int),
                None => "-"@,
            },
            6,
        ) + "  "@ + layout::right_aligned(
            match t.last_page {
                Some(n) => layout::decimal(n as int),
                None => "-"@,
            },
            6,
        ) + "  "@ + t.name@ + "\n"@,
{
}

/// Every table that is listed has its line, in order.
pub proof fn lemma_one_more_catalog_entry(tables: Seq<SysTableEntry>, t: SysTableEntry)
    ensures
        catalog_entry_lines(tables.push(t)) == catalog_entry_lines(tables) + catalog_entry_line(t),
        catalog_entry_lines(Seq::empty()).len() == 0,
{
    assert(tables.push(t).drop_last() =~= tables);
}

/// The listing of a catalog: the file, its pages, how many tables it has, how many of
/// them are user tables; then the tables by id, all of them or the user tables alone.
pub proof fn lemma_catalog_listing(
    file: Seq<char>,
    pages: int,
    tables: Seq<SysTableEntry>,
    user_only: bool,
)
    ensures
        catalog_text(file, pages, tables, user_only) == "file: "@ + file + "  pages="@
            + layout::decimal(pages) + "  unique_tables="@ + layout::decimal(tables.len() as int)
            + "  user_tables="@ + layout::decimal(
            tables.filter(|t: SysTableEntry| !is_system(t.name@)).len() as int,
        ) + "\n   tid   cols    root    last  name\n"@ + catalog_entry_lines(
            if user_only {
                csv::tables_by_id(tables).filter(|t: SysTableEntry| !is_system(t.name@))
            } else {
                csv::tables_by_id(tables)
            },
        ),
{
}

/// The counts of records: headers, line items, distinct parents among the line items,
/// parents that no header has, headers' ids that no line item has, and the sum of the
/// amounts.
pub proof fn lemma_record_counts(
    items: Seq<LineItem>,
    headers: Seq<TransactionHeader>,
    counts: RecordCounts,
)
    requires
        are_record_counts(items, headers, counts),
    ensures
        counts.headers == headers.len(),
        counts.line_items == items.len(),
        counts.parents == Set::new(|id: Seq<char>| is_parent(items, id)).len(),
        counts.orphan_parents == Set::new(
            |id: Seq<char>| is_parent(items, id) && !is_header(headers, id),
        ).len(),
        counts.childless_headers == Set::new(
            |id: Seq<char>| is_header(headers, id) && !is_parent(items, id),
        ).len(),
        counts.grand_total_cents == records::total_cents(items),
{
    let p = parent_set(items);
    let h = header_set(headers);
    assert forall|id: Seq<char>| p.contains(id) <==> is_parent(items, id) by {
        if p.contains(id) {
            let i = choose|i: int|
                0 <= i < iif::invoice_ids(items).len() && iif::invoice_ids(items)[i] == id;
            assert(items[i].invoice_id@ == id);
        }
        if is_parent(items, id) {
            let i = choose|i: int| 0 <= i < items.len() && (#[trigger] items[i]).invoice_id@ == id;
            assert(iif::invoice_ids(items)[i] == id);
        }
    }
    assert forall|id: Seq<char>| h.contains(id) <==> is_header(headers, id) by {
        if h.contains(id) {
            let i = choose|i: int|
                0 <= i < export::header_ids(headers).len() && export::header_ids(headers)[i] == id;
            assert(headers[i].qb_id@ == id);
        }
        if is_header(headers, id) {
            let i = choose|i: int| 0 <= i < headers.len() && (#[trigger] headers[i]).qb_id@ == id;
            assert(export::header_ids(headers)[i] == id);
        }
    }
    assert(p =~= Set::new(|id: Seq<char>| is_parent(items, id)));
    assert(p.difference(h) =~= Set::new(
        |id: Seq<char>| is_parent(items, id) && !is_header(headers, id),
    ));
    assert(h.difference(p) =~= Set::new(
        |id: Seq<char>| is_header(headers, id) && !is_parent(items, id),
    ));
}

/// One of the line items has the id as that of its parent.
pub open spec fn is_parent(items: Seq<LineItem>, id: Seq<char>) -> bool {
    exists|i: int| 0 <= i < items.len() && (#[trigger] items[i]).invoice_id@ == id
}

/// One of the headers has the id.
pub open spec fn is_header(headers: Seq<TransactionHeader>, id: Seq<char>) -> bool {
    exists|i: int| 0 <= i < headers.len() && (#[trigger] headers[i]).qb_id@ == id
}

/// The report on records gives each count behind its label; the note on gaps comes
/// exactly if a parent lacks its header or a header its line items.
pub proof fn lemma_records_report(counts: RecordCounts)
    ensures
        records_text(counts) == "=== business records ===\ntransaction headers : "@
            + layout::decimal(counts.headers as int) + "\nline items          : "@
            + layout::decimal(counts.line_items as int) + "\ndistinct parent invoice ids : "@
            + layout::decimal(counts.parents as int) + "\norphan parents (no header)  : "@
            + layout::decimal(counts.orphan_parents as int) + "\nchildless headers           : "@
            + layout::decimal(counts.childless_headers as int)
            + "\nlineitem grand total        : $"@ + money::dollars(
            counts.grand_total_cents as int,
        ) + "\n"@ + if counts.orphan_parents == 0 && counts.childless_headers == 0 {
            ""@
        } else {
            "\nnote: a non-zero orphan count is a discovery signal -- the file \n      may contain partially-purged records or a parent table this \n      build does not parse yet.\n"@
        },
{
}

/// The inventory gives the number of all tables and that of the user tables.
pub proof fn lemma_inventory(tables: Seq<SysTableEntry>)
    ensures
        inventory_text(tables) == "=== catalog ===\ntables total: "@ + layout::decimal(
            tables.len() as int,
        ) + "\ntables user : "@ + layout::decimal(
            tables.filter(|t: SysTableEntry| !is_system(t.name@)).len() as int,
        ) + "\n"@,
{
}

/// The regression check compares with 13375 parents and 399,914,792.78 dollars, says both
/// numbers, and passes exactly if both are met.
pub proof fn lemma_regression(parents: int, cents: int)
    ensures
        is_regression_ok(parents, cents) <==> parents == 13_375 && cents == 39_991_479_278,
        regression_text(parents, cents) == "Phase 5 regression (universal anchor):  parents="@
            + layout::decimal(parents) + "/"@ + layout::decimal(13_375) + "  grand_total=$"@
            + money::dollars(cents) + "/$"@ + money::dollars(39_991_479_278) + "  "@ + if parents
            == 13_375 && cents == 39_991_479_278 {
            "PASS"@
        } else {
            "DIFF"@
        } + "\n"@,
{
}

/// The check of journals passes exactly if all pairs balance, and says so where there are
/// none.
pub proof fn lemma_journal_line(pairs: int, balanced: int, percent: Seq<char>)
    ensures
        is_journal_ok(pairs, balanced) <==> pairs == 0 || balanced == pairs,
        pairs == 0 ==> journal_text(pairs, balanced, percent)
            == "  no same-type 2-line journal pairs found\n"@,
        pairs != 0 ==> journal_text(pairs, balanced, percent)
            == "  same-type 2-line journal pairs: "@ + layout::decimal(balanced) + "/"@
            + layout::decimal(pairs) + " balance ("@ + percent + "%) "@ + if balanced == pairs {
            "PASS"@
        } else {
            "DIFF"@
        } + "\n"@,
{
}

/// The lines of totals and of counts: the name, the count, and the amount.
pub proof fn lemma_total_lines(name: Seq<char>, count: int, cents: int)
    ensures
        totals_text(name, count, cents) == "  "@ + layout::left_aligned(name, 44) + "  "@
            + layout::right_aligned(layout::decimal(count), 8) + "  $"@ + layout::right_aligned(
            money::dollars(cents),
            15,
        ) + "\n"@,
        count_text(name, count) == "  "@ + layout::left_aligned(name, 44) + "  "@
            + layout::right_aligned(layout::decimal(count), 8) + "\n"@,
{
}

} // verus!
