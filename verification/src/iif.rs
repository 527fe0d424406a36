//! Intuit Interchange Format: tab-separated text with CRLF line endings.
//!
//! Line items are grouped by their parent invoice id. Each group becomes one
//! `TRNS` line, followed by one `SPL` line per item and an `ENDTRNS` line. The
//! amounts of the `SPL` lines are negated.

use vstd::prelude::*;
use vstd::string::*;

use crate::date;
use crate::layout;
use crate::layout::unsigned_text;
use crate::money;
use crate::money::push_dollars;
use crate::order;
use crate::order::group_positions;
use crate::records;
use crate::records::{date_text, or_empty, LineItem, TransactionHeader};
use crate::text;
use crate::text::same_text;

verus! {

/// The upper-case form of a text.
pub uninterp spec fn uppercase(s: Seq<char>) -> Seq<char>;

/// `str::to_uppercase`: the upper-case form of a text. How characters are mapped
/// is not stated.
#[verifier::external_body]
fn to_uppercase(s: &str) -> (upper: String)
    ensures
        upper@ == uppercase(s@),
{
    s.to_uppercase()
}

/// A finished document, and what it holds.
#[derive(Debug, Clone)]
pub struct IifDocument {
    /// The text.
    pub text: String,
    /// Number of transactions written.
    pub transactions: usize,
    /// Number of line items written.
    pub line_items: usize,
}

/// The parent ids of line items.
pub open spec fn invoice_ids(items: Seq<LineItem>) -> Seq<Seq<char>> {
    items.map_values(|li: LineItem| li.invoice_id@)
}

/// The test for the line items of one parent.
pub open spec fn is_of_parent(id: Seq<char>) -> spec_fn(LineItem) -> bool {
    |li: LineItem| li.invoice_id@ == id
}

/// The line items of one parent, in order.
pub open spec fn group(items: Seq<LineItem>, id: Seq<char>) -> Seq<LineItem> {
    items.filter(is_of_parent(id))
}

/// The line items at the positions of a parent are those of the parent.
pub(crate) proof fn lemma_group_positions(items: Seq<LineItem>, id: Seq<char>)
    requires
        items.len() <= usize::MAX,
    ensures
        order::arranged(items, order::positions_of::<&str>(invoice_ids(items), id)) == group(
            items,
            id,
        ),
{
    order::lemma_positions_filter::<&str, LineItem>(
        items,
        invoice_ids(items),
        id,
        is_of_parent(id),
        items.len() as int,
    );
    assert(items.take(items.len() as int) =~= items);
}

/// The parent ids, each once, in order.
pub open spec fn parents(items: Seq<LineItem>) -> Seq<Seq<char>> {
    order::first_positions::<&str>(invoice_ids(items)).map_values(
        |p: usize| invoice_ids(items)[p as int],
    )
}

/// Transaction types by transaction id.
pub open spec fn type_views(types: Seq<(String, String)>) -> Seq<(Seq<char>, Seq<char>)> {
    types.map_values(|t: (String, String)| (t.0@, t.1@))
}

/// The type of a transaction: the last one listed for its id, and a general
/// journal where none is.
pub open spec fn type_of(types: Seq<(Seq<char>, Seq<char>)>, id: Seq<char>) -> Seq<char>
    decreases types.len(),
{
    if types.len() == 0 {
        "GENERAL JOURNAL"@
    } else if types.last().0 == id {
        types.last().1
    } else {
        type_of(types.drop_last(), id)
    }
}

/// The first day that is known among line items.
pub open spec fn first_day(items: Seq<LineItem>) -> Option<i64>
    decreases items.len(),
{
    if items.len() == 0 {
        None
    } else {
        match first_day(items.drop_last()) {
            Some(d) => Some(d),
            None => items.last().txn_unix_day,
        }
    }
}

/// The line that opens a transaction.
pub open spec fn trns_line(
    number: int,
    ttype: Seq<char>,
    id: Seq<char>,
    items: Seq<LineItem>,
) -> Seq<char> {
    "TRNS\t"@ + layout::decimal(number) + "\t"@ + ttype + "\t"@ + records::date_of(first_day(items))
        + "\tAccounts Receivable\t\t"@ + money::dollars(records::total_cents(items)) + "\tqb_id="@
        + id + "\r\n"@
}

/// The line of a line item.
pub open spec fn spl_line(number: int, ttype: Seq<char>, li: LineItem) -> Seq<char> {
    "SPL\t"@ + layout::decimal(number) + "\t"@ + ttype + "\t"@ + records::date_of(li.txn_unix_day)
        + "\t"@ + records::text_or_empty(li.source_table) + "\t\t"@ + money::dollars(
        -records::cents_of(li),
    ) + "\t"@ + records::text_or_empty(li.item_qb_id) + "\r\n"@
}

/// The lines of line items, numbered from `first` on.
pub open spec fn spl_lines(first: int, ttype: Seq<char>, items: Seq<LineItem>) -> Seq<char>
    decreases items.len(),
{
    if items.len() == 0 {
        seq![]
    } else {
        spl_lines(first, ttype, items.drop_last()) + spl_line(
            first + items.len() - 1,
            ttype,
            items.last(),
        )
    }
}

/// One transaction: number `number`, its line items numbered from `first` on.
pub open spec fn transaction(
    number: int,
    first: int,
    ttype: Seq<char>,
    id: Seq<char>,
    items: Seq<LineItem>,
) -> Seq<char> {
    trns_line(number, ttype, id, items) + spl_lines(first, ttype, items) + "ENDTRNS\r\n"@
}

/// The number of line items of the first `n` parents.
pub open spec fn lines_before(items: Seq<LineItem>, n: int) -> int
    decreases n,
{
    if n <= 0 {
        0
    } else {
        lines_before(items, n - 1) + group(items, parents(items)[n - 1]).len()
    }
}

/// The transactions of the first `n` parents. Transactions and line items are both
/// numbered from 1 on.
pub open spec fn transactions(
    items: Seq<LineItem>,
    types: Seq<(Seq<char>, Seq<char>)>,
    n: int,
) -> Seq<char>
    decreases n,
{
    if n <= 0 {
        seq![]
    } else {
        let id = parents(items)[n - 1];
        transactions(items, types, n - 1) + transaction(
            n,
            1 + lines_before(items, n - 1),
            type_of(types, id),
            id,
            group(items, id),
        )
    }
}

/// The lines that open a document.
pub open spec fn preamble() -> Seq<char> {
    "!TRNS\tTRNSID\tTRNSTYPE\tDATE\tACCNT\tNAME\tAMOUNT\tMEMO\r\n"@
        + "!SPL\tSPLID\tTRNSTYPE\tDATE\tACCNT\tNAME\tAMOUNT\tMEMO\r\n"@ + "!ENDTRNS\r\n"@
}

/// The document of line items.
pub open spec fn document(items: Seq<LineItem>, types: Seq<(Seq<char>, Seq<char>)>) -> Seq<char> {
    preamble() + transactions(items, types, parents(items).len() as int)
}

/// The types of the transactions that have headers.
pub open spec fn header_types(headers: Seq<TransactionHeader>) -> Seq<(Seq<char>, Seq<char>)> {
    headers.map_values(|h: TransactionHeader| (h.qb_id@, uppercase(h.txn_type@)))
}

/// Every date can be shown, and no parent's amounts add up to more than fits.
pub open spec fn fits(items: Seq<LineItem>) -> bool {
    &&& forall|i: int|
        0 <= i < items.len() ==> records::day_fits((#[trigger] items[i]).txn_unix_day)
    &&& forall|id: Seq<char>| #[trigger] records::total_cents(group(items, id)) <= i64::MAX
}

fn find_type<'a>(types: &'a [(String, String)], id: &str) -> (ttype: &'a str)
    ensures
        ttype@ == type_of(type_views(types@), id@),
{
    let ghost views = type_views(types@);
    let mut n: usize = types.len();
    assert(views.take(n as int) =~= views);
    while n > 0
        invariant
            n <= types@.len(),
            views == type_views(types@),
            type_of(views, id@) == type_of(views.take(n as int), id@),
        decreases n,
    {
        assert(views.take(n as int).last() == views[n - 1]);
        assert(views.take(n as int).drop_last() =~= views.take(n - 1));
        if same_text(types[n - 1].0.as_str(), id) {
            return types[n - 1].1.as_str();
        }
        n = n - 1;
    }
    "GENERAL JOURNAL"
}

fn push_spl_line(out: &mut String, number: u64, ttype: &str, li: &LineItem)
    requires
        records::day_fits(li.txn_unix_day),
    ensures
        final(out)@ == old(out)@ + spl_line(number as int, ttype@, *li),
{
    let cents: i64 = match li.amount_cents {
        Some(c) => c as i64,
        None => 0,
    };
    let mut line: String = "SPL\t".to_owned();
    line.append(unsigned_text(number).as_str());
    line.append("\t");
    line.append(ttype);
    line.append("\t");
    line.append(date_text(li.txn_date_days_since_unix()).as_str());
    line.append("\t");
    line.append(or_empty(&li.source_table));
    line.append("\t\t");
    push_dollars(&mut line, -cents);
    line.append("\t");
    line.append(or_empty(&li.item_qb_id));
    line.append("\r\n");
    out.append(line.as_str());
}

fn push_trns_line(
    out: &mut String,
    number: u64,
    ttype: &str,
    id: &str,
    day: Option<i64>,
    cents: i64,
    Ghost(items): Ghost<Seq<LineItem>>,
)
    requires
        records::day_fits(day),
        day == first_day(items),
        cents == records::total_cents(items),
    ensures
        final(out)@ == old(out)@ + trns_line(number as int, ttype@, id@, items),
{
    let mut line: String = "TRNS\t".to_owned();
    line.append(unsigned_text(number).as_str());
    line.append("\t");
    line.append(ttype);
    line.append("\t");
    line.append(date_text(day).as_str());
    line.append("\tAccounts Receivable\t\t");
    push_dollars(&mut line, cents);
    line.append("\tqb_id=");
    line.append(id);
    line.append("\r\n");
    out.append(line.as_str());
}

/// The sum of the amounts at some positions, and the first day known there.
fn sum_up(items: &[LineItem], positions: &Vec<usize>) -> (r: (i64, Option<i64>))
    requires
        forall|i: int| 0 <= i < positions@.len() ==> (#[trigger] positions@[i]) < items@.len(),
        records::total_cents(order::arranged(items@, positions@)) <= i64::MAX,
    ensures
        r.0 == records::total_cents(order::arranged(items@, positions@)),
        r.1 == first_day(order::arranged(items@, positions@)),
{
    let ghost mine = order::arranged(items@, positions@);
    let mut cents: i64 = 0;
    let mut day: Option<i64> = None;
    for k in 0..positions.len()
        invariant
            mine == order::arranged(items@, positions@),
            forall|i: int| 0 <= i < positions@.len() ==> (#[trigger] positions@[i]) < items@.len(),
            records::total_cents(mine) <= i64::MAX,
            cents == records::total_cents(mine.take(k as int)),
            day == first_day(mine.take(k as int)),
    {
        let li = &items[positions[k]];
        proof {
            assert(mine.take(k + 1).drop_last() =~= mine.take(k as int));
            assert(mine.take(k + 1).last() == *li);
            records::lemma_total_cents(mine, k + 1);
            records::lemma_total_cents(mine, k as int);
        }
        if let Some(c) = li.amount_cents {
            cents = cents + c as i64;
        }
        if day.is_none() {
            day = li.txn_date_days_since_unix();
        }
    }
    assert(mine.take(positions@.len() as int) =~= mine);
    (cents, day)
}

proof fn lemma_first_day_fits(items: Seq<LineItem>)
    requires
        forall|i: int|
            0 <= i < items.len() ==> records::day_fits((#[trigger] items[i]).txn_unix_day),
    ensures
        records::day_fits(first_day(items)),
    decreases items.len(),
{
    if items.len() > 0 {
        assert(records::day_fits(items[items.len() - 1].txn_unix_day));
        let rest = items.drop_last();
        assert forall|i: int| 0 <= i < rest.len() implies records::day_fits(
            (#[trigger] rest[i]).txn_unix_day,
        ) by {
            assert(rest[i] == items[i]);
        }
        lemma_first_day_fits(rest);
    }
}

/// Appends the transaction of the line items at some positions.
fn push_transaction(
    out: &mut String,
    number: u64,
    first: u64,
    ttype: &str,
    id: &str,
    items: &[LineItem],
    positions: &Vec<usize>,
)
    requires
        forall|i: int| 0 <= i < positions@.len() ==> (#[trigger] positions@[i]) < items@.len(),
        records::total_cents(order::arranged(items@, positions@)) <= i64::MAX,
        forall|i: int|
            0 <= i < items@.len() ==> records::day_fits((#[trigger] items@[i]).txn_unix_day),
        first + positions@.len() <= u64::MAX + 1,
    ensures
        final(out)@ == old(out)@ + transaction(
            number as int,
            first as int,
            ttype@,
            id@,
            order::arranged(items@, positions@),
        ),
{
    let ghost mine = order::arranged(items@, positions@);
    let ghost before = out@;
    assert forall|i: int| 0 <= i < mine.len() implies records::day_fits(
        (#[trigger] mine[i]).txn_unix_day,
    ) by {
        assert(mine[i] == items@[positions@[i] as int]);
    }
    proof {
        lemma_first_day_fits(mine);
    }
    let (cents, day) = sum_up(items, positions);
    push_trns_line(out, number, ttype, id, day, cents, Ghost(mine));
    let ghost opened = out@;
    assert(opened + spl_lines(first as int, ttype@, mine.take(0)) =~= opened);
    for k in 0..positions.len()
        invariant
            mine == order::arranged(items@, positions@),
            forall|i: int| 0 <= i < positions@.len() ==> (#[trigger] positions@[i]) < items@.len(),
            forall|i: int|
                0 <= i < items@.len() ==> records::day_fits((#[trigger] items@[i]).txn_unix_day),
            first + positions@.len() <= u64::MAX + 1,
            out@ == opened + spl_lines(first as int, ttype@, mine.take(k as int)),
    {
        let number: u64 = first + k as u64;
        push_spl_line(out, number, ttype, &items[positions[k]]);
        assert(mine.take(k + 1).drop_last() =~= mine.take(k as int));
        assert(mine.take(k + 1).last() == items@[positions@[k as int] as int]);
        assert(out@ =~= opened + spl_lines(first as int, ttype@, mine.take(k + 1)));
    }
    assert(mine.take(positions@.len() as int) =~= mine);
    out.append("ENDTRNS\r\n");
    assert(out@ =~= before + transaction(number as int, first as int, ttype@, id@, mine));
}

/// What is known of the `k`-th group of line items.
proof fn lemma_group(items: Seq<LineItem>, groups: Seq<Vec<usize>>, k: int)
    requires
        items.len() <= usize::MAX,
        order::is_grouping::<&str>(invoice_ids(items), groups),
        0 <= k < groups.len(),
    ensures
        parents(items).len() == groups.len(),
        groups[k]@.len() > 0,
        forall|i: int| 0 <= i < groups[k]@.len() ==> (#[trigger] groups[k]@[i]) < items.len(),
        items[groups[k]@[0] as int].invoice_id@ == parents(items)[k],
        order::arranged(items, groups[k]@) == group(items, parents(items)[k]),
        order::group_sizes(groups.take(k + 1)) == order::group_sizes(groups.take(k))
            + groups[k]@.len(),
        order::group_sizes(groups.take(k + 1)) <= order::group_sizes(groups),
{
    let keys = invoice_ids(items);
    let firsts = order::first_positions::<&str>(keys);
    order::lemma_first_positions::<&str>(keys);
    let first = firsts[k];
    let id = keys[first as int];
    assert(parents(items)[k] == id);
    order::lemma_positions::<&str>(keys, id, keys.len() as int);
    let positions = order::positions_of::<&str>(keys, id);
    assert(groups[k]@ == positions);
    assert(positions.contains(first));
    assert(keys[positions[0] as int] == id);
    lemma_group_positions(items, id);
    order::lemma_group_sizes(groups, k + 1);
    assert(groups.take(k + 1).drop_last() =~= groups.take(k));
    assert(groups.take(k + 1).last() == groups[k]);
}

/// The document of line items. `types` lists the types of transactions by their
/// ids.
pub fn iif_document(items: &[LineItem], types: &[(String, String)]) -> (doc: IifDocument)
    requires
        fits(items@),
    ensures
        doc.text@ == document(items@, type_views(types@)),
        doc.transactions == invoice_ids(items@).to_set().len(),
        doc.line_items == items@.len(),
{
    let mut ids: Vec<&str> = Vec::new();
    for k in 0..items.len()
        invariant
            ids@.len() == k,
            forall|i: int| 0 <= i < k ==> (#[trigger] ids@[i])@ == items@[i].invoice_id@,
    {
        ids.push(items[k].invoice_id.as_str());
    }
    let ghost keys = invoice_ids(items@);
    assert(order::key_views(ids@) =~= keys);
    let groups = group_positions(&ids);
    let ghost views = type_views(types@);
    let mut text = String::new();
    text.append("!TRNS\tTRNSID\tTRNSTYPE\tDATE\tACCNT\tNAME\tAMOUNT\tMEMO\r\n");
    text.append("!SPL\tSPLID\tTRNSTYPE\tDATE\tACCNT\tNAME\tAMOUNT\tMEMO\r\n");
    text.append("!ENDTRNS\r\n");
    assert(text@ =~= preamble() + transactions(items@, views, 0));
    let mut written: u64 = 0;
    assert(items.len() == items@.len());
    for k in 0..groups.len()
        invariant
            fits(items@),
            items@.len() <= usize::MAX,
            order::is_grouping::<&str>(invoice_ids(items@), groups@),
            order::group_sizes(groups@) == items@.len(),
            views == type_views(types@),
            written == lines_before(items@, k as int),
            written == order::group_sizes(groups@.take(k as int)),
            text@ == preamble() + transactions(items@, views, k as int),
    {
        let positions = &groups[k];
        let ghost id = parents(items@)[k as int];
        proof {
            lemma_group(items@, groups@, k as int);
            assert(records::total_cents(group(items@, id)) <= i64::MAX);
        }
        let parent = items[positions[0]].invoice_id.as_str();
        let ttype = find_type(types, parent);
        push_transaction(&mut text, k as u64 + 1, written + 1, ttype, parent, items, positions);
        proof {
            text::lemma_join(
                preamble(),
                transactions(items@, views, k as int),
                transaction(
                    k + 1,
                    written + 1,
                    type_of(views, id),
                    id,
                    group(items@, id),
                ),
            );
        }
        written = written + positions.len() as u64;
    }
    proof {
        order::lemma_first_positions::<&str>(keys);
        order::lemma_distinct_count::<&str>(keys, order::first_positions::<&str>(keys));
    }
    IifDocument { text, transactions: groups.len(), line_items: items.len() }
}

/// The document of line items, each transaction with the type of its header.
pub fn iif_from_headers(items: &[LineItem], headers: &[TransactionHeader]) -> (doc: IifDocument)
    requires
        fits(items@),
    ensures
        doc.text@ == document(items@, header_types(headers@)),
        doc.transactions == invoice_ids(items@).to_set().len(),
        doc.line_items == items@.len(),
{
    let mut types: Vec<(String, String)> = Vec::new();
    for k in 0..headers.len()
        invariant
            types@.len() == k,
            forall|i: int|
                0 <= i < k ==> (#[trigger] types@[i]).0@ == headers@[i].qb_id@ && types@[i].1@
                    == uppercase(headers@[i].txn_type@),
    {
        types.push((headers[k].qb_id.clone(), to_uppercase(headers[k].txn_type())));
    }
    assert(type_views(types@) =~= header_types(headers@));
    iif_document(items, types.as_slice())
}

/// The sum of the amounts of the `SPL` lines of line items, in cents.
pub open spec fn spl_cents(items: Seq<LineItem>) -> int
    decreases items.len(),
{
    if items.len() == 0 {
        0
    } else {
        spl_cents(items.drop_last()) - records::cents_of(items.last())
    }
}

/// Every transaction balances: the amount of its `TRNS` line and those of its
/// `SPL` lines add up to nothing.
pub proof fn lemma_balanced(items: Seq<LineItem>)
    ensures
        records::total_cents(items) + spl_cents(items) == 0,
    decreases items.len(),
{
    if items.len() > 0 {
        lemma_balanced(items.drop_last());
    }
}

/// The parents come in strictly ascending order, so that none has two
/// transactions.
pub proof fn lemma_parents_ascend(items: Seq<LineItem>, i: int, j: int)
    requires
        items.len() <= usize::MAX,
        0 <= i < j < parents(items).len(),
    ensures
        text::text_le(parents(items)[i], parents(items)[j]),
        parents(items)[i] != parents(items)[j],
{
    let keys = invoice_ids(items);
    order::lemma_first_positions::<&str>(keys);
    let firsts = order::first_positions::<&str>(keys);
    assert(<&str as order::SortKey>::key_le(
        keys[firsts[i] as int],
        keys[firsts[j] as int],
    ));
}

/// Every line item is written in the transaction of its parent, and the line items
/// of a transaction are all its parent's.
pub proof fn lemma_items_grouped(items: Seq<LineItem>, p: int)
    requires
        items.len() <= usize::MAX,
        0 <= p < items.len(),
    ensures
        parents(items).contains(items[p].invoice_id@),
        group(items, items[p].invoice_id@).contains(items[p]),
        forall|id: Seq<char>, i: int|
            0 <= i < group(items, id).len() ==> (#[trigger] group(items, id)[i]).invoice_id@ == id,
{
    let keys = invoice_ids(items);
    let firsts = order::first_positions::<&str>(keys);
    order::lemma_first_positions::<&str>(keys);
    assert(keys.len() == items.len() && keys[p] == items[p].invoice_id@);
    order::lemma_listed::<&str>(keys, firsts, p);
    let g = choose|g: int| 0 <= g < firsts.len() && keys[#[trigger] firsts[g] as int] == keys[p];
    assert(parents(items)[g] == keys[p]);
    items.filter_lemma(is_of_parent(keys[p]));
    assert forall|id: Seq<char>, i: int| 0 <= i < group(items, id).len() implies (
    #[trigger] group(items, id)[i]).invoice_id@ == id by {
        items.filter_lemma(is_of_parent(id));
        assert(is_of_parent(id)(group(items, id)[i]));
    }
}

/// A tab.
pub open spec fn tab() -> Seq<char> {
    seq!['\t']
}

/// The cells of a line: what stands between its tabs.
pub open spec fn cells(line: Seq<char>) -> Seq<Seq<char>>
    decreases line.len(),
{
    if line.len() == 0 {
        seq![seq![]]
    } else {
        let rest = cells(line.drop_last());
        if line.last() == '\t' {
            rest.push(seq![])
        } else {
            rest.drop_last().push(rest.last().push(line.last()))
        }
    }
}

/// The text has no tab in it.
pub open spec fn is_one_cell(s: Seq<char>) -> bool {
    forall|i: int| 0 <= i < s.len() ==> #[trigger] s[i] != '\t'
}

/// Text without a tab, put behind a line, goes into its last cell.
proof fn lemma_last_cell(line: Seq<char>, s: Seq<char>)
    requires
        is_one_cell(s),
    ensures
        cells(line).len() > 0,
        cells(line + s) == cells(line).drop_last().push(cells(line).last() + s),
    decreases line.len() + s.len(),
{
    if s.len() == 0 {
        assert(line + s =~= line);
        if line.len() > 0 {
            lemma_last_cell(line.drop_last(), s);
        }
        assert(cells(line).last() + s =~= cells(line).last());
        assert(cells(line).drop_last().push(cells(line).last()) =~= cells(line));
    } else {
        let t = s.drop_last();
        assert forall|i: int| 0 <= i < t.len() implies #[trigger] t[i] != '\t' by {
            assert(s[i] != '\t');
        }
        lemma_last_cell(line, t);
        assert((line + s).drop_last() =~= line + t);
        assert((line + s).last() == s.last() && s[s.len() - 1] != '\t');
        let before = cells(line);
        let rest = cells(line + t);
        assert(rest.drop_last() =~= before.drop_last());
        assert((before.last() + t).push(s.last()) =~= before.last() + s);
    }
}

/// A tab, and text without one behind it, make one more cell.
proof fn lemma_next_cell(line: Seq<char>, s: Seq<char>)
    requires
        is_one_cell(s),
    ensures
        cells(line + tab() + s) == cells(line).push(s),
{
    let l = line + tab();
    assert(l.drop_last() =~= line);
    assert(cells(l) == cells(line).push(seq![]));
    lemma_last_cell(l, s);
    assert(cells(l).drop_last() =~= cells(line));
    assert(Seq::<char>::empty() + s =~= s);
}

proof fn lemma_one_cell(s: Seq<char>)
    requires
        is_one_cell(s),
    ensures
        cells(s) == seq![s],
{
    let none = Seq::<char>::empty();
    lemma_last_cell(none, s);
    assert(none + s =~= s);
    assert(cells(none) =~= seq![none]);
    assert(cells(none).drop_last().push(none + s) =~= seq![s]);
}

proof fn lemma_plain_cells(number: int, day: Option<i64>, cents: int)
    ensures
        is_one_cell(layout::decimal(number)),
        is_one_cell(records::date_of(day)),
        is_one_cell(money::dollars(cents)),
{
    layout::lemma_decimal_reads_back(number);
    assert forall|i: int| 0 <= i < layout::decimal(number).len() implies #[trigger] layout::decimal(
        number,
    )[i] != '\t' by {
        if i > 0 {
            assert('0' <= layout::decimal(number)[i] <= '9');
        }
    }
    if day is Some {
        let d = day->0 as int;
        assert forall|i: int| 0 <= i < records::date_of(day).len() implies #[trigger] records::date_of(
            day,
        )[i] != '\t' by {
            date::lemma_date_chars(d, i);
        }
    }
    assert forall|i: int| 0 <= i < money::dollars(cents).len() implies #[trigger] money::dollars(
        cents,
    )[i] != '\t' by {
        money::lemma_dollars_chars(cents, i);
    }
}

/// The amount of a line item, where it has one.
pub open spec fn amount_or_zero(li: LineItem) -> int {
    if li.amount_cents is Some {
        li.amount_cents->0 as int
    } else {
        0
    }
}

/// The line of a line item, cell by cell: its number, the type of the transaction, its
/// date, its table, nothing, the amount with its sign turned round, and the item. The
/// amount is that of `amount_cents` alone, whatever else the item holds.
pub proof fn lemma_spl_cells(number: int, ttype: Seq<char>, li: LineItem)
    requires
        is_one_cell(ttype),
        li.source_table is Some ==> is_one_cell(li.source_table->0@),
        li.item_qb_id is Some ==> is_one_cell(li.item_qb_id->0@),
    ensures
        cells(spl_line(number, ttype, li)) == seq![
            "SPL"@,
            layout::decimal(number),
            ttype,
            records::date_of(li.txn_unix_day),
            records::text_or_empty(li.source_table),
            Seq::<char>::empty(),
            money::dollars(-amount_or_zero(li)),
            records::text_or_empty(li.item_qb_id) + "\r\n"@,
        ],
        money::cents_said(cells(spl_line(number, ttype, li))[6]) == -amount_or_zero(li),
{
    reveal_strlit("SPL");
    reveal_strlit("SPL\t");
    reveal_strlit("\t");
    reveal_strlit("\t\t");
    reveal_strlit("\r\n");
    let amount = -amount_or_zero(li);
    let dec = layout::decimal(number);
    let day = records::date_of(li.txn_unix_day);
    let source = records::text_or_empty(li.source_table);
    let item = records::text_or_empty(li.item_qb_id);
    let none = Seq::<char>::empty();
    let money = money::dollars(amount);
    lemma_plain_cells(number, li.txn_unix_day, amount);
    assert("\t"@ =~= tab());
    assert("SPL\t"@ =~= "SPL"@ + tab());
    let l1 = "SPL"@ + tab() + dec;
    let l2 = l1 + tab() + ttype;
    let l3 = l2 + tab() + day;
    let l4 = l3 + tab() + source;
    let l5 = l4 + tab() + none;
    let l6 = l5 + tab() + money;
    let last = item + "\r\n"@;
    let l7 = l6 + tab() + last;
    assert(l4 + "\t\t"@ =~= l5 + tab());
    assert(l6 + "\t"@ + item + "\r\n"@ =~= l7);
    assert(spl_line(number, ttype, li) == l7);
    assert(is_one_cell(last)) by {
        assert forall|i: int| 0 <= i < last.len() implies #[trigger] last[i] != '\t' by {
            if i < item.len() {
                assert(item[i] != '\t');
            }
        }
    }
    lemma_one_cell("SPL"@);
    lemma_next_cell("SPL"@, dec);
    lemma_next_cell(l1, ttype);
    lemma_next_cell(l2, day);
    lemma_next_cell(l3, source);
    lemma_next_cell(l4, none);
    lemma_next_cell(l5, money);
    lemma_next_cell(l6, last);
    assert(cells(l7) =~= seq!["SPL"@, dec, ttype, day, source, none, money, last]);
    money::lemma_dollars_read_back(amount);
}

/// The line that opens a transaction, cell by cell: its number, its type, the first date
/// of its line items, the account, nothing, the sum of the amounts, and its id.
pub proof fn lemma_trns_cells(
    number: int,
    ttype: Seq<char>,
    id: Seq<char>,
    items: Seq<LineItem>,
)
    requires
        is_one_cell(ttype),
        is_one_cell(id),
    ensures
        cells(trns_line(number, ttype, id, items)) == seq![
            "TRNS"@,
            layout::decimal(number),
            ttype,
            records::date_of(first_day(items)),
            "Accounts Receivable"@,
            Seq::<char>::empty(),
            money::dollars(records::total_cents(items)),
            "qb_id="@ + id + "\r\n"@,
        ],
{
    reveal_strlit("TRNS");
    reveal_strlit("TRNS\t");
    reveal_strlit("\t");
    reveal_strlit("Accounts Receivable");
    reveal_strlit("\tAccounts Receivable\t\t");
    reveal_strlit("qb_id=");
    reveal_strlit("\tqb_id=");
    reveal_strlit("\r\n");
    let dec = layout::decimal(number);
    let day = records::date_of(first_day(items));
    let account = "Accounts Receivable"@;
    let none = Seq::<char>::empty();
    let money = money::dollars(records::total_cents(items));
    lemma_plain_cells(number, first_day(items), records::total_cents(items));
    assert("\t"@ =~= tab());
    assert("TRNS\t"@ =~= "TRNS"@ + tab());
    assert("\tqb_id="@ =~= tab() + "qb_id="@);
    let l1 = "TRNS"@ + tab() + dec;
    let l2 = l1 + tab() + ttype;
    let l3 = l2 + tab() + day;
    let l4 = l3 + tab() + account;
    let l5 = l4 + tab() + none;
    let l6 = l5 + tab() + money;
    let last = "qb_id="@ + id + "\r\n"@;
    let l7 = l6 + tab() + last;
    assert("\tAccounts Receivable\t\t"@ =~= tab() + account + tab() + tab());
    assert(l3 + "\tAccounts Receivable\t\t"@ =~= l5 + tab());
    assert(l6 + "\tqb_id="@ + id + "\r\n"@ =~= l7);
    assert(trns_line(number, ttype, id, items) == l7);
    assert(is_one_cell(last)) by {
        assert forall|i: int| 0 <= i < last.len() implies #[trigger] last[i] != '\t' by {
            if 6 <= i < 6 + id.len() {
                assert(last[i] == id[i - 6]);
            }
        }
    }
    assert(is_one_cell(account));
    lemma_one_cell("TRNS"@);
    lemma_next_cell("TRNS"@, dec);
    lemma_next_cell(l1, ttype);
    lemma_next_cell(l2, day);
    lemma_next_cell(l3, account);
    lemma_next_cell(l4, none);
    lemma_next_cell(l5, money);
    lemma_next_cell(l6, last);
    assert(cells(l7) =~= seq!["TRNS"@, dec, ttype, day, account, none, money, last]);
}

/// The cents that the `SPL` lines of line items say, read back from the written lines.
pub open spec fn cents_written(first: int, ttype: Seq<char>, items: Seq<LineItem>) -> int
    decreases items.len(),
{
    if items.len() == 0 {
        0
    } else {
        cents_written(first, ttype, items.drop_last()) + money::cents_said(
            cells(spl_line(first + items.len() - 1, ttype, items.last()))[6],
        )
    }
}

/// No cell of the lines of line items has a tab in it.
pub open spec fn are_cells(items: Seq<LineItem>) -> bool {
    forall|i: int|
        0 <= i < items.len() ==> ((#[trigger] items[i]).source_table is Some ==> is_one_cell(
            items[i].source_table->0@,
        )) && (items[i].item_qb_id is Some ==> is_one_cell(items[i].item_qb_id->0@))
}

/// What is written balances: the amount in the `TRNS` line of a transaction and the
/// amounts in its `SPL` lines, read back from the lines, add up to nothing.
pub proof fn lemma_written_balances(
    number: int,
    first: int,
    ttype: Seq<char>,
    id: Seq<char>,
    items: Seq<LineItem>,
)
    requires
        is_one_cell(ttype),
        is_one_cell(id),
        are_cells(items),
        records::total_cents(items) < 7_036_874_417_766_400,
    ensures
        money::cents_said(cells(trns_line(number, ttype, id, items))[6]) + cents_written(
            first,
            ttype,
            items,
        ) == 0,
{
    lemma_trns_cells(number, ttype, id, items);
    records::lemma_total_cents(items, 0);
    assert(items.take(0).len() == 0);
    money::lemma_dollars_read_back(records::total_cents(items));
    lemma_cents_written(first, ttype, items);
}

proof fn lemma_cents_written(first: int, ttype: Seq<char>, items: Seq<LineItem>)
    requires
        is_one_cell(ttype),
        are_cells(items),
    ensures
        cents_written(first, ttype, items) == -records::total_cents(items),
    decreases items.len(),
{
    if items.len() > 0 {
        let rest = items.drop_last();
        assert(items.last() == items[items.len() - 1]);
        assert forall|i: int| 0 <= i < rest.len() implies ((
        #[trigger] rest[i]).source_table is Some ==> is_one_cell(rest[i].source_table->0@)) && (
        rest[i].item_qb_id is Some ==> is_one_cell(rest[i].item_qb_id->0@)) by {
            assert(rest[i] == items[i]);
        }
        lemma_cents_written(first, ttype, rest);
        lemma_spl_cells(first + items.len() - 1, ttype, items.last());
        records::lemma_one_more_item(rest, items.last());
        assert(rest.push(items.last()) =~= items);
    }
}

/// The line of a line item, whatever its texts hold.
pub proof fn lemma_spl_line(number: int, ttype: Seq<char>, li: LineItem)
    ensures
        spl_line(number, ttype, li) == "SPL\t"@ + layout::decimal(number) + "\t"@ + ttype + "\t"@
            + records::date_of(li.txn_unix_day) + "\t"@ + records::text_or_empty(li.source_table)
            + "\t\t"@ + money::dollars(-amount_or_zero(li)) + "\t"@ + records::text_or_empty(
            li.item_qb_id,
        ) + "\r\n"@,
{
}

/// Every line item of a transaction has its line, in order, numbered one by one.
pub proof fn lemma_one_more_spl_line(
    first: int,
    ttype: Seq<char>,
    items: Seq<LineItem>,
    li: LineItem,
)
    ensures
        spl_lines(first, ttype, items.push(li)) == spl_lines(first, ttype, items) + spl_line(
            first + items.len(),
            ttype,
            li,
        ),
        spl_lines(first, ttype, Seq::empty()).len() == 0,
{
    assert(items.push(li).drop_last() =~= items);
}

/// The document goes on transaction by transaction, one for every parent, numbered one
/// by one: the line that opens it, the lines of all line items of the parent, and the
/// line that ends it. Line items are numbered on from one transaction to the next.
pub proof fn lemma_next_transaction(
    items: Seq<LineItem>,
    types: Seq<(Seq<char>, Seq<char>)>,
    n: int,
)
    requires
        0 <= n < parents(items).len(),
    ensures
        transactions(items, types, n + 1) == transactions(items, types, n) + (trns_line(
            n + 1,
            type_of(types, parents(items)[n]),
            parents(items)[n],
            items.filter(|li: LineItem| li.invoice_id@ == parents(items)[n]),
        ) + spl_lines(
            1 + lines_before(items, n),
            type_of(types, parents(items)[n]),
            items.filter(|li: LineItem| li.invoice_id@ == parents(items)[n]),
        ) + "ENDTRNS\r\n"@),
        lines_before(items, n + 1) == lines_before(items, n) + items.filter(
            |li: LineItem| li.invoice_id@ == parents(items)[n],
        ).len(),
        transactions(items, types, 0).len() == 0,
        lines_before(items, 0) == 0,
        document(items, types)
            == "!TRNS\tTRNSID\tTRNSTYPE\tDATE\tACCNT\tNAME\tAMOUNT\tMEMO\r\n"@
            + "!SPL\tSPLID\tTRNSTYPE\tDATE\tACCNT\tNAME\tAMOUNT\tMEMO\r\n"@ + "!ENDTRNS\r\n"@
            + transactions(items, types, parents(items).len() as int),
{
    let id = parents(items)[n];
    assert(is_of_parent(id) =~= (|li: LineItem| li.invoice_id@ == id));
}

/// The parents are the ids of the line items.
pub proof fn lemma_parents(items: Seq<LineItem>, id: Seq<char>)
    requires
        items.len() <= usize::MAX,
    ensures
        parents(items).contains(id) <==> exists|p: int|
            0 <= p < items.len() && (#[trigger] items[p]).invoice_id@ == id,
        parents(items).no_duplicates(),
{
    let keys = invoice_ids(items);
    let firsts = order::first_positions::<&str>(keys);
    order::lemma_first_positions::<&str>(keys);
    if parents(items).contains(id) {
        let g = choose|g: int| 0 <= g < parents(items).len() && parents(items)[g] == id;
        assert(firsts[g] < keys.len());
        assert(items[firsts[g] as int].invoice_id@ == id);
    }
    if exists|p: int| 0 <= p < items.len() && (#[trigger] items[p]).invoice_id@ == id {
        let p = choose|p: int| 0 <= p < items.len() && (#[trigger] items[p]).invoice_id@ == id;
        lemma_items_grouped(items, p);
    }
    assert forall|i: int, j: int|
        0 <= i < parents(items).len() && 0 <= j < parents(items).len() && i != j implies parents(
        items,
    )[i] != parents(items)[j] by {
        if i < j {
            lemma_parents_ascend(items, i, j);
        } else {
            lemma_parents_ascend(items, j, i);
        }
    }
}

/// The type of a transaction is the one listed last for its id; a transaction that none
/// is listed for is a general journal.
pub proof fn lemma_one_more_type(
    types: Seq<(Seq<char>, Seq<char>)>,
    listed: (Seq<char>, Seq<char>),
    id: Seq<char>,
)
    ensures
        type_of(types.push(listed), id) == if listed.0 == id {
            listed.1
        } else {
            type_of(types, id)
        },
        type_of(Seq::empty(), id) == "GENERAL JOURNAL"@,
{
    assert(types.push(listed).drop_last() =~= types);
}

/// Every header lists the type of its transaction, in capitals.
pub proof fn lemma_header_types(headers: Seq<TransactionHeader>, i: int)
    requires
        0 <= i < headers.len(),
    ensures
        header_types(headers).len() == headers.len(),
        header_types(headers)[i].0 == headers[i].qb_id@,
        header_types(headers)[i].1 == uppercase(headers[i].txn_type@),
{
}

/// The date of a transaction is that of the first line item that has one.
pub proof fn lemma_first_day(items: Seq<LineItem>, i: int)
    requires
        0 <= i < items.len(),
    ensures
        items[i].txn_unix_day is Some && (forall|j: int|
            0 <= j < i ==> (#[trigger] items[j]).txn_unix_day is None) ==> first_day(items)
            == items[i].txn_unix_day,
        (forall|j: int| 0 <= j < items.len() ==> (#[trigger] items[j]).txn_unix_day is None)
            ==> first_day(items) is None,
    decreases items.len(),
{
    let rest = items.drop_last();
    assert(items.last() == items[items.len() - 1]);
    assert(forall|j: int| 0 <= j < rest.len() ==> #[trigger] rest[j] == items[j]);
    if rest.len() > 0 {
        lemma_first_day(
            rest,
            if i < rest.len() {
                i
            } else {
                0
            },
        );
    }
}

} // verus!
