//! What an export writes: transactions, and the line items under them.

use vstd::prelude::*;
use vstd::string::*;

use crate::iif;
use crate::layout;
use crate::layout::{hex_text, signed_text, unsigned_text};
use crate::money;
use crate::money::push_dollars;
use crate::order;
use crate::order::{group_by_appearance, group_positions, sort_order};
use crate::records;
use crate::records::{or_empty, AmountType, LineItem, TransactionHeader};
use crate::text;

verus! {

/// The ids of transaction headers.
pub open spec fn header_ids(headers: Seq<TransactionHeader>) -> Seq<Seq<char>> {
    headers.map_values(|h: TransactionHeader| h.qb_id@)
}

/// The first header of every transaction.
pub open spec fn first_headers(headers: Seq<TransactionHeader>) -> Seq<TransactionHeader> {
    order::arranged(headers, order::appearances::<&str>(header_ids(headers)))
}

/// The header at one of the positions has the id of `h`.
pub open spec fn has_first(
    headers: Seq<TransactionHeader>,
    positions: Seq<usize>,
    h: TransactionHeader,
) -> bool {
    exists|i: int|
        0 <= i < positions.len() && headers[#[trigger] positions[i] as int].qb_id@ == h.qb_id@
}

/// The headers to write, by position: the first one of every transaction, in the
/// order of the places where they were found.
pub fn headers_to_write(headers: &[TransactionHeader]) -> (positions: Vec<usize>)
    ensures
        forall|i: int| 0 <= i < positions@.len() ==> (#[trigger] positions@[i]) < headers@.len(),
        order::arranged(headers@, positions@) == records::headers_in_order(first_headers(headers@)),
        forall|i: int, q: int|
            0 <= i < positions@.len() && 0 <= q < (#[trigger] positions@[i]) ==> (
            #[trigger] headers@[q]).qb_id@ != headers@[positions@[i] as int].qb_id@,
        forall|p: int| 0 <= p < headers@.len() ==> has_first(headers@, positions@, #[trigger] headers@[p]),
        forall|i: int, j: int|
            0 <= i < j < positions@.len() ==> {
                let a = headers@[#[trigger] positions@[i] as int];
                let b = headers@[#[trigger] positions@[j] as int];
                a.qb_id@ != b.qb_id@ && (a.page_number < b.page_number || (a.page_number
                    == b.page_number && a.page_offset <= b.page_offset))
            },
{
    let mut ids: Vec<&str> = Vec::new();
    for k in 0..headers.len()
        invariant
            ids@.len() == k,
            forall|i: int| 0 <= i < k ==> (#[trigger] ids@[i])@ == headers@[i].qb_id@,
    {
        ids.push(headers[k].qb_id.as_str());
    }
    let ghost keys = header_ids(headers@);
    assert(order::key_views(ids@) =~= keys);
    assert(headers.len() == headers@.len());
    let groups = group_by_appearance(&ids);
    let ghost seen = order::appearances::<&str>(keys);
    let ghost kept = first_headers(headers@);
    let mut firsts: Vec<usize> = Vec::new();
    let mut places: Vec<(u64, usize)> = Vec::new();
    for g in 0..groups.len()
        invariant
            headers@.len() <= usize::MAX,
            keys == header_ids(headers@),
            seen == order::appearances::<&str>(keys),
            kept == first_headers(headers@),
            order::is_grouping_by_appearance::<&str>(keys, groups@),
            firsts@ == seen.take(g as int),
            places@.len() == g,
            forall|i: int|
                0 <= i < g ==> #[trigger] places@[i] == (kept[i].page_number, kept[i].page_offset),
    {
        proof {
            order::lemma_appearance_first::<&str>(keys, groups@, g as int);
        }
        let p: usize = groups[g][0];
        firsts.push(p);
        places.push((headers[p].page_number, headers[p].page_offset));
        assert(kept[g as int] == headers@[p as int]);
        assert(seen.take(g + 1) =~= seen.take(g as int).push(seen[g as int]));
    }
    assert(seen.take(groups@.len() as int) =~= seen);
    assert(order::key_views(places@) =~= records::header_places(kept));
    let sorted = sort_order(&places);
    let mut positions: Vec<usize> = Vec::new();
    for k in 0..sorted.len()
        invariant
            firsts@ == seen,
            kept == first_headers(headers@),
            seen == order::appearances::<&str>(header_ids(headers@)),
            headers@.len() <= usize::MAX,
            order::is_order_of::<(u64, usize)>(
                records::header_places(kept),
                0,
                kept.len() as int,
                sorted@,
            ),
            positions@.len() == k,
            forall|i: int| 0 <= i < k ==> #[trigger] positions@[i] == seen[sorted@[i] as int],
            forall|i: int|
                0 <= i < k ==> (#[trigger] positions@[i]) < headers@.len() && headers@[positions@[i]
                    as int] == kept[sorted@[i] as int],
    {
        proof {
            order::lemma_appearances::<&str>(header_ids(headers@), headers@.len() as int);
            assert(seen[sorted@[k as int] as int] < headers@.len());
        }
        positions.push(firsts[sorted[k]]);
    }
    assert(order::arranged(headers@, positions@) =~= records::headers_in_order(kept));
    assert(sorted.len() == sorted@.len());
    proof {
        lemma_headers_to_write(headers@, positions@, sorted@);
    }
    positions
}

proof fn lemma_headers_to_write(
    headers: Seq<TransactionHeader>,
    positions: Seq<usize>,
    sorted: Seq<usize>,
)
    requires
        headers.len() <= usize::MAX,
        order::is_order_of::<(u64, usize)>(
            records::header_places(first_headers(headers)),
            0,
            first_headers(headers).len() as int,
            sorted,
        ),
        positions.len() == sorted.len() <= usize::MAX,
        forall|i: int|
            0 <= i < positions.len() ==> #[trigger] positions[i] == order::appearances::<&str>(
                header_ids(headers),
            )[sorted[i] as int],
    ensures
        forall|i: int, q: int|
            0 <= i < positions.len() && 0 <= q < (#[trigger] positions[i]) ==> (
            #[trigger] headers[q]).qb_id@ != headers[positions[i] as int].qb_id@,
        forall|p: int| 0 <= p < headers.len() ==> has_first(headers, positions, #[trigger] headers[p]),
        forall|i: int, j: int|
            0 <= i < j < positions.len() ==> {
                let a = headers[#[trigger] positions[i] as int];
                let b = headers[#[trigger] positions[j] as int];
                a.qb_id@ != b.qb_id@ && (a.page_number < b.page_number || (a.page_number
                    == b.page_number && a.page_offset <= b.page_offset))
            },
{
    let keys = header_ids(headers);
    let seen = order::appearances::<&str>(keys);
    let kept = first_headers(headers);
    let places = records::header_places(kept);
    order::lemma_appearances::<&str>(keys, keys.len() as int);
    assert forall|i: int| 0 <= i < positions.len() implies (#[trigger] positions[i]) < headers.len()
        && order::is_first::<&str>(keys, positions[i] as int) by {
        assert(0 <= sorted[i] < kept.len());
        assert(order::is_first::<&str>(keys, seen[sorted[i] as int] as int));
    }
    assert forall|i: int, q: int|
        0 <= i < positions.len() && 0 <= q < (#[trigger] positions[i]) implies (
    #[trigger] headers[q]).qb_id@ != headers[positions[i] as int].qb_id@ by {
        assert(order::is_first::<&str>(keys, positions[i] as int));
        assert(keys[q] == headers[q].qb_id@);
        assert(keys[q] != keys[positions[i] as int]);
    }
    assert forall|p: int| 0 <= p < headers.len() implies has_first(
        headers,
        positions,
        #[trigger] headers[p],
    ) by {
        let f = lemma_first_of_id(keys, p);
        assert(seen.contains(f as usize));
        let g = choose|g: int| 0 <= g < seen.len() && seen[g] == f as usize;
        order::lemma_order_complete::<(u64, usize)>(places, 0, kept.len() as int, sorted, g);
        let i = choose|i: int| 0 <= i < sorted.len() && sorted[i] == g as usize;
        assert(positions[i] == f as usize);
        assert(headers[positions[i] as int].qb_id@ == headers[p].qb_id@);
    }
    assert forall|i: int, j: int| 0 <= i < j < positions.len() implies {
        let a = headers[#[trigger] positions[i] as int];
        let b = headers[#[trigger] positions[j] as int];
        a.qb_id@ != b.qb_id@ && (a.page_number < b.page_number || (a.page_number == b.page_number
            && a.page_offset <= b.page_offset))
    } by {
        let x = sorted[i] as int;
        let y = sorted[j] as int;
        assert(order::comes_before::<(u64, usize)>(places, sorted[i] as int, sorted[j] as int));
        assert(kept[x] == headers[seen[x] as int] && kept[y] == headers[seen[y] as int]);
        assert(places[x] == (kept[x].page_number, kept[x].page_offset));
        assert(places[y] == (kept[y].page_number, kept[y].page_offset));
        order::lemma_order_distinct::<(u64, usize)>(places, 0, kept.len() as int, sorted);
        assert(x != y);
        assert(positions[i] == seen[x] && positions[j] == seen[y]);
        if x < y {
            assert(seen[x] < seen[y]);
        } else {
            assert(seen[y] < seen[x]);
        }
        assert(order::is_first::<&str>(keys, positions[i] as int));
        assert(order::is_first::<&str>(keys, positions[j] as int));
        assert(keys[positions[i] as int] != keys[positions[j] as int]);
    }
}

/// The first position that has the key of position `p`.
proof fn lemma_first_of_id(keys: Seq<Seq<char>>, p: int) -> (f: int)
    requires
        0 <= p < keys.len(),
    ensures
        0 <= f <= p,
        keys[f] == keys[p],
        order::is_first::<&str>(keys, f),
    decreases p,
{
    if order::is_first::<&str>(keys, p) {
        p
    } else {
        let q = choose|q: int| 0 <= q < p && #[trigger] keys[q] == keys[p];
        lemma_first_of_id(keys, q)
    }
}

/// What is known of all line items of one transaction together.
#[derive(Debug, Clone)]
pub struct Aggregate {
    /// Id of the transaction.
    pub qb_id: String,
    /// Number of line items.
    pub line_count: usize,
    /// Sum of the amounts, in cents.
    pub total_cents: i64,
    /// Whether any amount is a deferred one.
    pub has_deferred: bool,
}

/// What is to be written for a transaction that has line items.
#[derive(Debug, Clone)]
pub enum TransactionWrite {
    /// The transaction has a header: add what its line items say.
    Update(Aggregate),
    /// The transaction has none: write one of unknown type.
    Insert {
        /// What its line items say.
        lines: Aggregate,
        /// Table of the first line item that is attributed to one.
        source_table: String,
        /// First date among the line items, as stored.
        txn_date_raw: Option<u32>,
        /// First counter among the line items.
        counter: Option<u32>,
        /// Page of the first line item.
        source_page: u64,
    },
}

/// One of the amounts is a deferred one.
pub open spec fn any_deferred(items: Seq<LineItem>) -> bool {
    exists|i: int| 0 <= i < items.len() && (#[trigger] items[i]).amount_type == AmountType::Deferred
}

/// The first table that line items are attributed to, nothing where there is none.
pub open spec fn first_source(items: Seq<LineItem>) -> Option<String>
    decreases items.len(),
{
    if items.len() == 0 {
        None
    } else {
        match first_source(items.drop_last()) {
            Some(s) => Some(s),
            None => items.last().source_table,
        }
    }
}

/// The first date among line items, as stored.
pub open spec fn first_date_raw(items: Seq<LineItem>) -> Option<u32>
    decreases items.len(),
{
    if items.len() == 0 {
        None
    } else {
        match first_date_raw(items.drop_last()) {
            Some(d) => Some(d),
            None => items.last().txn_date_raw,
        }
    }
}

/// The first counter among line items.
pub open spec fn first_counter(items: Seq<LineItem>) -> Option<u32>
    decreases items.len(),
{
    if items.len() == 0 {
        None
    } else {
        match first_counter(items.drop_last()) {
            Some(c) => Some(c),
            None => items.last().counter,
        }
    }
}

/// The line items of one transaction, taken together.
pub open spec fn is_aggregate(a: Aggregate, id: Seq<char>, items: Seq<LineItem>) -> bool {
    &&& a.qb_id@ == id
    &&& a.line_count == items.len()
    &&& a.total_cents == records::total_cents(items)
    &&& a.has_deferred == any_deferred(items)
}

/// `w` is what is to be written for the transaction `id` with the line items
/// `items`.
pub open spec fn is_write(
    headers: Seq<TransactionHeader>,
    id: Seq<char>,
    items: Seq<LineItem>,
    w: TransactionWrite,
) -> bool {
    match w {
        TransactionWrite::Update(lines) => header_ids(headers).contains(id) && is_aggregate(
            lines,
            id,
            items,
        ),
        TransactionWrite::Insert { lines, source_table, txn_date_raw, counter, source_page } => {
            &&& !header_ids(headers).contains(id)
            &&& is_aggregate(lines, id, items)
            &&& source_table@ == records::text_or_empty(first_source(items))
            &&& txn_date_raw == first_date_raw(items)
            &&& counter == first_counter(items)
            &&& source_page == items[0].page_number
        },
    }
}

/// The ids of the transactions that line items belong to, in the order in which
/// they appear.
pub open spec fn seen_ids(items: Seq<LineItem>) -> Seq<Seq<char>> {
    order::appearances::<&str>(iif::invoice_ids(items)).map_values(
        |p: usize| iif::invoice_ids(items)[p as int],
    )
}

/// No transaction's amounts add up to more than fits.
pub open spec fn sums_fit(items: Seq<LineItem>) -> bool {
    forall|id: Seq<char>| #[trigger] records::total_cents(iif::group(items, id)) <= i64::MAX
}

/// What the line items at some positions say together.
struct Facts {
    total_cents: i64,
    has_deferred: bool,
    source: Option<usize>,
    txn_date_raw: Option<u32>,
    counter: Option<u32>,
}

fn gather(items: &[LineItem], positions: &Vec<usize>) -> (facts: Facts)
    requires
        forall|i: int| 0 <= i < positions@.len() ==> (#[trigger] positions@[i]) < items@.len(),
        records::total_cents(order::arranged(items@, positions@)) <= i64::MAX,
    ensures
        ({
            let mine = order::arranged(items@, positions@);
            &&& facts.total_cents == records::total_cents(mine)
            &&& facts.has_deferred == any_deferred(mine)
            &&& facts.txn_date_raw == first_date_raw(mine)
            &&& facts.counter == first_counter(mine)
            &&& match facts.source {
                Some(p) => p < items@.len() && items@[p as int].source_table is Some && first_source(
                    mine,
                ) == items@[p as int].source_table,
                None => first_source(mine) is None,
            }
        }),
{
    let ghost mine = order::arranged(items@, positions@);
    let mut facts = Facts {
        total_cents: 0,
        has_deferred: false,
        source: None,
        txn_date_raw: None,
        counter: None,
    };
    for k in 0..positions.len()
        invariant
            mine == order::arranged(items@, positions@),
            forall|i: int| 0 <= i < positions@.len() ==> (#[trigger] positions@[i]) < items@.len(),
            records::total_cents(mine) <= i64::MAX,
            facts.total_cents == records::total_cents(mine.take(k as int)),
            facts.has_deferred == any_deferred(mine.take(k as int)),
            facts.txn_date_raw == first_date_raw(mine.take(k as int)),
            facts.counter == first_counter(mine.take(k as int)),
            match facts.source {
                Some(p) => p < items@.len() && items@[p as int].source_table is Some && first_source(
                    mine.take(k as int),
                ) == items@[p as int].source_table,
                None => first_source(mine.take(k as int)) is None,
            },
    {
        let p: usize = positions[k];
        let li = &items[p];
        proof {
            assert(mine.take(k + 1).drop_last() =~= mine.take(k as int));
            assert(mine.take(k + 1).last() == *li);
            records::lemma_total_cents(mine, k + 1);
            records::lemma_total_cents(mine, k as int);
            lemma_any_deferred(mine, k as int);
        }
        if let Some(c) = li.amount_cents {
            facts.total_cents = facts.total_cents + c as i64;
        }
        if li.amount_type == AmountType::Deferred {
            facts.has_deferred = true;
        }
        if facts.source.is_none() && li.source_table.is_some() {
            facts.source = Some(p);
        }
        if facts.txn_date_raw.is_none() {
            facts.txn_date_raw = li.txn_date_raw;
        }
        if facts.counter.is_none() {
            facts.counter = li.counter;
        }
    }
    assert(mine.take(positions@.len() as int) =~= mine);
    facts
}

proof fn lemma_any_deferred(items: Seq<LineItem>, k: int)
    requires
        0 <= k < items.len(),
    ensures
        any_deferred(items.take(k + 1)) == (any_deferred(items.take(k)) || items[k].amount_type
            == AmountType::Deferred),
{
    let before = items.take(k);
    let after = items.take(k + 1);
    if any_deferred(before) {
        let i = choose|i: int|
            0 <= i < before.len() && (#[trigger] before[i]).amount_type == AmountType::Deferred;
        assert(after[i].amount_type == AmountType::Deferred);
    }
    if items[k].amount_type == AmountType::Deferred {
        assert(after[k].amount_type == AmountType::Deferred);
    }
    if any_deferred(after) {
        let i = choose|i: int|
            0 <= i < after.len() && (#[trigger] after[i]).amount_type == AmountType::Deferred;
        if i < k {
            assert(before[i].amount_type == AmountType::Deferred);
        }
    }
}

fn has_header(headers: &[TransactionHeader], id: &str) -> (r: bool)
    ensures
        r == header_ids(headers@).contains(id@),
{
    for k in 0..headers.len()
        invariant
            forall|i: int| 0 <= i < k ==> (#[trigger] headers@[i]).qb_id@ != id@,
    {
        if text::same_text(headers[k].qb_id.as_str(), id) {
            assert(header_ids(headers@)[k as int] == id@);
            return true;
        }
    }
    proof {
        if header_ids(headers@).contains(id@) {
            let i = choose|i: int|
                0 <= i < headers@.len() && header_ids(headers@)[i] == id@;
            assert(headers@[i].qb_id@ == id@);
        }
    }
    false
}

/// What is to be written for the transaction of the line items at some positions.
fn write_for(
    items: &[LineItem],
    headers: &[TransactionHeader],
    positions: &Vec<usize>,
) -> (w: TransactionWrite)
    requires
        positions@.len() > 0,
        forall|i: int| 0 <= i < positions@.len() ==> (#[trigger] positions@[i]) < items@.len(),
        records::total_cents(order::arranged(items@, positions@)) <= i64::MAX,
    ensures
        is_write(
            headers@,
            items@[positions@[0] as int].invoice_id@,
            order::arranged(items@, positions@),
            w,
        ),
{
    let first = &items[positions[0]];
    let facts = gather(items, positions);
    let lines = Aggregate {
        qb_id: first.invoice_id.clone(),
        line_count: positions.len(),
        total_cents: facts.total_cents,
        has_deferred: facts.has_deferred,
    };
    if has_header(headers, first.invoice_id.as_str()) {
        TransactionWrite::Update(lines)
    } else {
        let source_table: String = match facts.source {
            Some(p) => or_empty(&items[p].source_table).to_owned(),
            None => String::new(),
        };
        TransactionWrite::Insert {
            lines,
            source_table,
            txn_date_raw: facts.txn_date_raw,
            counter: facts.counter,
            source_page: first.page_number,
        }
    }
}

/// What is to be written for every transaction that has line items, in the order
/// in which the transactions appear among them.
pub fn synthesize_transactions(
    items: &[LineItem],
    headers: &[TransactionHeader],
) -> (writes: Vec<TransactionWrite>)
    requires
        sums_fit(items@),
    ensures
        writes@.len() == seen_ids(items@).len(),
        forall|g: int|
            0 <= g < writes@.len() ==> is_write(
                headers@,
                seen_ids(items@)[g],
                iif::group(items@, seen_ids(items@)[g]),
                #[trigger] writes@[g],
            ),
{
    let mut ids: Vec<&str> = Vec::new();
    for k in 0..items.len()
        invariant
            ids@.len() == k,
            forall|i: int| 0 <= i < k ==> (#[trigger] ids@[i])@ == items@[i].invoice_id@,
    {
        ids.push(items[k].invoice_id.as_str());
    }
    let ghost keys = iif::invoice_ids(items@);
    assert(order::key_views(ids@) =~= keys);
    assert(items.len() == items@.len());
    let groups = group_by_appearance(&ids);
    let mut writes: Vec<TransactionWrite> = Vec::new();
    for g in 0..groups.len()
        invariant
            sums_fit(items@),
            items@.len() <= usize::MAX,
            keys == iif::invoice_ids(items@),
            order::is_grouping_by_appearance::<&str>(keys, groups@),
            writes@.len() == g,
            forall|h: int|
                0 <= h < g ==> is_write(
                    headers@,
                    seen_ids(items@)[h],
                    iif::group(items@, seen_ids(items@)[h]),
                    #[trigger] writes@[h],
                ),
    {
        proof {
            order::lemma_appearance_first::<&str>(keys, groups@, g as int);
            let id = seen_ids(items@)[g as int];
            assert(keys[groups@[g as int]@[0] as int] == id);
            iif::lemma_group_positions(items@, id);
            assert(order::arranged(items@, groups@[g as int]@) == iif::group(items@, id));
            assert(records::total_cents(iif::group(items@, id)) <= i64::MAX);
        }
        writes.push(write_for(items, headers, &groups[g]));
    }
    writes
}

/// The number that stands for an amount type.
pub open spec fn amount_type_number(t: AmountType) -> int {
    match t {
        AmountType::Absent => 0,
        AmountType::OneByteOne => 1,
        AmountType::Standard => 2,
        AmountType::Deferred => 3,
        AmountType::Other(b) => b as int,
    }
}

/// The number that stands for an amount type.
pub fn amount_type_byte(t: AmountType) -> (n: i64)
    ensures
        n == amount_type_number(t),
{
    match t {
        AmountType::Absent => 0,
        AmountType::OneByteOne => 1,
        AmountType::Standard => 2,
        AmountType::Deferred => 3,
        AmountType::Other(b) => b as i64,
    }
}

/// What is to be written for one line item, besides what the item itself holds.
#[derive(Debug, Clone)]
pub struct LineRow {
    /// Number of the line among those of the same transaction and table, from 1
    /// on.
    pub line_number: usize,
    /// Number that stands for the amount type.
    pub amount_type: i64,
    /// Bytes of the amount, as stored, in hexadecimal.
    pub amount_raw_hex: String,
    /// Table that the item is attributed to, empty where there is none.
    pub source_table: String,
}

/// Transactions and tables of line items.
pub open spec fn line_keys(items: Seq<LineItem>) -> Seq<(Seq<char>, Seq<char>)> {
    items.map_values(
        |li: LineItem| (li.invoice_id@, records::text_or_empty(li.source_table)),
    )
}

/// The number of line item `k` among those of its transaction and table.
pub open spec fn line_number(items: Seq<LineItem>, k: int) -> int {
    order::positions_before::<(&str, &str)>(
        line_keys(items),
        line_keys(items)[k],
        k + 1,
    ).len() as int
}

/// `row` is what is to be written for line item `k`.
pub open spec fn is_line_row(items: Seq<LineItem>, k: int, row: LineRow) -> bool {
    &&& row.line_number == line_number(items, k)
    &&& row.amount_type == amount_type_number(items[k].amount_type)
    &&& row.amount_raw_hex@ == layout::hex(items[k].amount_raw@)
    &&& row.source_table@ == records::text_or_empty(items[k].source_table)
}

/// The number of every line among those of the same transaction and table.
fn line_numbers(items: &[LineItem]) -> (numbers: Vec<usize>)
    ensures
        numbers@.len() == items@.len(),
        forall|k: int|
            0 <= k < items@.len() ==> #[trigger] numbers@[k] == line_number(items@, k),
{
    let mut keys: Vec<(&str, &str)> = Vec::new();
    let mut numbers: Vec<usize> = Vec::new();
    for k in 0..items.len()
        invariant
            keys@.len() == k,
            numbers@.len() == k,
            forall|i: int|
                0 <= i < k ==> (#[trigger] keys@[i])@ == (
                    items@[i].invoice_id@,
                    records::text_or_empty(items@[i].source_table),
                ),
    {
        keys.push((items[k].invoice_id.as_str(), or_empty(&items[k].source_table)));
        numbers.push(0);
    }
    let ghost kv = line_keys(items@);
    assert(order::key_views(keys@) =~= kv);
    assert(items.len() == items@.len());
    let groups = group_positions(&keys);
    proof {
        order::lemma_first_positions::<(&str, &str)>(kv);
    }
    let ghost picked = order::first_positions::<(&str, &str)>(kv);
    for g in 0..groups.len()
        invariant
            kv == line_keys(items@),
            kv.len() <= usize::MAX,
            numbers@.len() == items@.len(),
            picked == order::first_positions::<(&str, &str)>(kv),
            order::is_distinct_order::<(&str, &str)>(kv, picked),
            order::is_grouping::<(&str, &str)>(kv, groups@),
            forall|h: int, p: int|
                0 <= h < g && 0 <= p < kv.len() && #[trigger] kv[p] == kv[#[trigger] picked[h] as int]
                    ==> numbers@[p] == line_number(items@, p),
    {
        let positions = &groups[g];
        let ghost key = kv[picked[g as int] as int];
        let ghost before = numbers@;
        proof {
            order::lemma_positions::<(&str, &str)>(kv, key, kv.len() as int);
        }
        for i in 0..positions.len()
            invariant
                kv == line_keys(items@),
                kv.len() <= usize::MAX,
                numbers@.len() == items@.len(),
                before.len() == items@.len(),
                positions@ == order::positions_of::<(&str, &str)>(kv, key),
                order::is_increasing(positions@),
                forall|j: int|
                    0 <= j < positions@.len() ==> (#[trigger] positions@[j]) < kv.len()
                        && kv[positions@[j] as int] == key,
                forall|j: int|
                    0 <= j < i ==> numbers@[#[trigger] positions@[j] as int] == line_number(
                        items@,
                        positions@[j] as int,
                    ),
                forall|p: int|
                    0 <= p < kv.len() && kv[p] != key ==> #[trigger] numbers@[p] == before[p],
        {
            let p: usize = positions[i];
            proof {
                order::lemma_rank::<(&str, &str)>(kv, key, i as int);
            }
            numbers.set(p, i + 1);
            assert forall|j: int| 0 <= j < i + 1 implies numbers@[#[trigger] positions@[j] as int]
                == line_number(items@, positions@[j] as int) by {
                if j < i {
                    assert(positions@[j] < positions@[i as int]);
                }
            }
        }
        proof {
            assert forall|h: int, p: int|
                0 <= h < g + 1 && 0 <= p < kv.len() && #[trigger] kv[p]
                    == kv[#[trigger] picked[h] as int] implies numbers@[p] == line_number(
                items@,
                p,
            ) by {
                if h == g {
                    assert(positions@.contains(p as usize));
                    let j = choose|j: int| 0 <= j < positions@.len() && positions@[j] == p as usize;
                    assert(numbers@[positions@[j] as int] == line_number(
                        items@,
                        positions@[j] as int,
                    ));
                } else {
                    assert(kv[picked[h] as int] != kv[picked[g as int] as int]);
                    assert(numbers@[p] == before[p]);
                }
            }
        }
    }
    proof {
        assert forall|k: int| 0 <= k < items@.len() implies #[trigger] numbers@[k] == line_number(
            items@,
            k,
        ) by {
            assert(order::is_listed::<(&str, &str)>(kv, picked, kv[k]));
            let h = choose|h: int|
                0 <= h < picked.len() && kv[#[trigger] picked[h] as int] == kv[k];
            assert(kv[k] == kv[picked[h] as int]);
        }
    }
    numbers
}

/// What is to be written for every line item.
pub fn line_rows(items: &[LineItem]) -> (rows: Vec<LineRow>)
    ensures
        rows@.len() == items@.len(),
        forall|k: int| 0 <= k < rows@.len() ==> is_line_row(items@, k, #[trigger] rows@[k]),
{
    let numbers = line_numbers(items);
    let mut rows: Vec<LineRow> = Vec::new();
    for k in 0..items.len()
        invariant
            numbers@.len() == items@.len(),
            forall|i: int|
                0 <= i < items@.len() ==> #[trigger] numbers@[i] == line_number(items@, i),
            rows@.len() == k,
            forall|i: int| 0 <= i < k ==> is_line_row(items@, i, #[trigger] rows@[i]),
    {
        assert(numbers@[k as int] == line_number(items@, k as int));
        rows.push(
            LineRow {
                line_number: numbers[k],
                amount_type: amount_type_byte(items[k].amount_type),
                amount_raw_hex: hex_text(items[k].amount_raw.as_slice()),
                source_table: or_empty(&items[k].source_table).to_owned(),
            },
        );
    }
    rows
}

/// No two line items have the same transaction, table and line number: what is
/// written for one never stands in the way of another.
pub proof fn lemma_line_keys_unique(items: Seq<LineItem>, j: int, k: int)
    requires
        0 <= j < k < items.len(),
    ensures
        line_keys(items)[j] == line_keys(items)[k] ==> line_number(items, j) < line_number(items, k),
{
    let keys = line_keys(items);
    if keys[j] == keys[k] {
        lemma_count_grows(keys, keys[k], j + 1, k);
    }
}

proof fn lemma_count_grows(
    keys: Seq<(Seq<char>, Seq<char>)>,
    key: (Seq<char>, Seq<char>),
    a: int,
    b: int,
)
    requires
        0 <= a <= b,
    ensures
        order::positions_before::<(&str, &str)>(keys, key, a).len()
            <= order::positions_before::<(&str, &str)>(keys, key, b).len(),
    decreases b - a,
{
    if a < b {
        lemma_count_grows(keys, key, a, b - 1);
    }
}

/// The sum of the amounts of several transactions, in cents.
pub open spec fn sum_of_groups(items: Seq<LineItem>, ids: Seq<Seq<char>>) -> int
    decreases ids.len(),
{
    if ids.len() == 0 {
        0
    } else {
        sum_of_groups(items, ids.drop_last()) + records::total_cents(iif::group(items, ids.last()))
    }
}

/// One more line item joins the group of its own transaction, at its end, and no other;
/// without line items every group is empty.
pub proof fn lemma_group_push(items: Seq<LineItem>, li: LineItem, id: Seq<char>)
    ensures
        iif::group(Seq::empty(), id).len() == 0,
        iif::group(items.push(li), id) == if li.invoice_id@ == id {
            iif::group(items, id).push(li)
        } else {
            iif::group(items, id)
        },
{
    reveal(Seq::filter);
    assert(items.push(li).drop_last() =~= items);
}

/// One more line item adds its amount to the sum, if its transaction is among
/// those that are summed.
proof fn lemma_sum_push(items: Seq<LineItem>, li: LineItem, ids: Seq<Seq<char>>)
    requires
        items.len() < usize::MAX,
        ids.no_duplicates(),
    ensures
        sum_of_groups(items.push(li), ids) == sum_of_groups(items, ids) + if ids.contains(
            li.invoice_id@,
        ) {
            records::cents_of(li)
        } else {
            0
        },
    decreases ids.len(),
{
    if ids.len() > 0 {
        let rest = ids.drop_last();
        let id = ids.last();
        lemma_sum_push(items, li, rest);
        lemma_group_push(items, li, id);
        assert(iif::group(items, id).push(li).drop_last() =~= iif::group(items, id));
        if ids.contains(li.invoice_id@) && li.invoice_id@ != id {
            let i = choose|i: int| 0 <= i < ids.len() && ids[i] == li.invoice_id@;
            assert(rest[i] == li.invoice_id@);
        }
        if rest.contains(li.invoice_id@) {
            let i = choose|i: int| 0 <= i < rest.len() && rest[i] == li.invoice_id@;
            assert(ids[i] == li.invoice_id@);
            assert(ids[i] != ids[ids.len() - 1]);
        }
        if li.invoice_id@ == id {
            assert(ids[ids.len() - 1] == id);
        }
    }
}

/// The ids that appear, when one more line item comes: its id comes last, unless it is
/// there already. Each id is there once.
pub proof fn lemma_seen_push(items: Seq<LineItem>, li: LineItem)
    requires
        items.len() < usize::MAX,
    ensures
        seen_ids(Seq::empty()).len() == 0,
        seen_ids(items.push(li)) == if seen_ids(items).contains(li.invoice_id@) {
            seen_ids(items)
        } else {
            seen_ids(items).push(li.invoice_id@)
        },
        seen_ids(items).no_duplicates(),
{
    let keys = iif::invoice_ids(items);
    let longer = iif::invoice_ids(items.push(li));
    let n = items.len() as int;
    assert(longer =~= keys.push(li.invoice_id@));
    order::lemma_firsts_prefix::<&str>(keys, li.invoice_id@, n);
    order::lemma_appearances::<&str>(keys, n);
    let before = order::appearances::<&str>(keys);
    let after = order::appearances::<&str>(longer);
    let seen = seen_ids(items);
    assert(seen.no_duplicates()) by {
        assert forall|i: int, j: int|
            0 <= i < seen.len() && 0 <= j < seen.len() && i != j implies seen[i] != seen[j] by {
            let a = before[i] as int;
            let b = before[j] as int;
            assert(order::is_first::<&str>(keys, a) && order::is_first::<&str>(keys, b));
            if i < j {
                assert(before[i] < before[j]);
                assert(keys[a] != keys[b]);
            } else {
                assert(before[j] < before[i]);
                assert(keys[b] != keys[a]);
            }
        }
    }
    assert(longer[n] == li.invoice_id@);
    assert(order::is_first::<&str>(longer, n) <==> !seen.contains(li.invoice_id@)) by {
        if seen.contains(li.invoice_id@) {
            let i = choose|i: int| 0 <= i < seen.len() && seen[i] == li.invoice_id@;
            assert(before[i] < n);
            assert(longer[before[i] as int] == longer[n]);
        } else {
            assert forall|q: int| 0 <= q < n implies #[trigger] longer[q] != longer[n] by {
                if longer[q] == longer[n] {
                    lemma_seen(items, q);
                }
            }
        }
    }
    assert forall|i: int| 0 <= i < before.len() implies longer[before[i] as int]
        == keys[before[i] as int] by {
        assert(before[i] < n);
    }
    if seen.contains(li.invoice_id@) {
        assert(after == before);
        assert(seen_ids(items.push(li)) =~= seen);
    } else {
        assert(after == before.push(n as usize));
        assert(seen_ids(items.push(li)) =~= seen.push(li.invoice_id@));
    }
}

/// The id of every line item is among those that appear.
pub proof fn lemma_seen(items: Seq<LineItem>, p: int)
    requires
        items.len() <= usize::MAX,
        0 <= p < items.len(),
    ensures
        seen_ids(items).contains(items[p].invoice_id@),
    decreases p,
{
    let keys = iif::invoice_ids(items);
    assert(keys[p] == items[p].invoice_id@);
    if order::is_first::<&str>(keys, p) {
        order::lemma_appearances::<&str>(keys, keys.len() as int);
        let seen = order::appearances::<&str>(keys);
        assert(seen.contains(p as usize));
        let i = choose|i: int| 0 <= i < seen.len() && seen[i] == p as usize;
        assert(seen_ids(items)[i] == items[p].invoice_id@);
    } else {
        let q = choose|q: int| 0 <= q < p && #[trigger] keys[q] == keys[p];
        lemma_seen(items, q);
        assert(keys[q] == items[q].invoice_id@);
    }
}

/// A group that is not empty holds a line item of the list.
proof fn lemma_member(items: Seq<LineItem>, id: Seq<char>) -> (p: int)
    requires
        iif::group(items, id).len() > 0,
    ensures
        0 <= p < items.len(),
        items[p].invoice_id@ == id,
    decreases items.len(),
{
    reveal(Seq::filter);
    if items.last().invoice_id@ == id {
        items.len() - 1
    } else {
        lemma_member(items.drop_last(), id)
    }
}

/// The sums of all transactions add up to the sum of all line items.
pub proof fn lemma_totals_add_up(items: Seq<LineItem>)
    requires
        items.len() <= usize::MAX,
    ensures
        sum_of_groups(items, seen_ids(items)) == records::total_cents(items),
    decreases items.len(),
{
    if items.len() == 0 {
        assert(seen_ids(items).len() == 0);
    } else {
        let rest = items.drop_last();
        let li = items.last();
        let seen = seen_ids(rest);
        assert(rest.push(li) =~= items);
        lemma_totals_add_up(rest);
        lemma_seen_push(rest, li);
        lemma_sum_push(rest, li, seen);
        if !seen.contains(li.invoice_id@) {
            let all = seen.push(li.invoice_id@);
            assert(all.drop_last() =~= seen);
            lemma_group_push(rest, li, li.invoice_id@);
            assert(iif::group(rest, li.invoice_id@).len() == 0) by {
                if iif::group(rest, li.invoice_id@).len() > 0 {
                    let p = lemma_member(rest, li.invoice_id@);
                    lemma_seen(rest, p);
                }
            }
            assert(iif::group(items, li.invoice_id@) =~= seq![li]);
            assert(seq![li].drop_last() =~= Seq::<LineItem>::empty());
            assert(records::total_cents(seq![li]) == records::cents_of(li)) by {
                assert(records::total_cents(seq![li].drop_last()) == 0);
            }
        }
    }
}

/// Totals of an export.
#[derive(Debug, Clone)]
pub struct ExportStats {
    /// Pages of the file.
    pub pages: u64,
    /// Transactions written.
    pub transactions: i64,
    /// Transaction headers found.
    pub headers: i64,
    /// Line items found.
    pub line_items: i64,
    /// Sum of all transactions, in cents.
    pub grand_total_cents: i64,
}

impl ExportStats {
    /// The line that sums an export up.
    pub open spec fn summary_text(&self) -> Seq<char> {
        "openqbw: pages="@ + layout::decimal(self.pages as int) + " transactions="@
            + layout::decimal(self.transactions as int) + " headers="@ + layout::decimal(
            self.headers as int,
        ) + " lineitems="@ + layout::decimal(self.line_items as int) + " grand_total=$"@
            + money::dollars(self.grand_total_cents as int)
    }

    /// The line that sums an export up.
    pub fn summary(&self) -> (line: String)
        ensures
            line@ == self.summary_text(),
    {
        let mut line: String = "openqbw: pages=".to_owned();
        line.append(unsigned_text(self.pages).as_str());
        line.append(" transactions=");
        line.append(signed_text(self.transactions).as_str());
        line.append(" headers=");
        line.append(signed_text(self.headers).as_str());
        line.append(" lineitems=");
        line.append(signed_text(self.line_items).as_str());
        line.append(" grand_total=$");
        push_dollars(&mut line, self.grand_total_cents);
        line
    }
}

/// What the line items of a transaction say together, in either kind of write.
pub open spec fn lines_of(w: TransactionWrite) -> Aggregate {
    match w {
        TransactionWrite::Update(lines) => lines,
        TransactionWrite::Insert { lines, .. } => lines,
    }
}

/// One more line item of a transaction raises its number of lines by one, adds exactly
/// its amount in cents to the total (nothing where it has none), whatever else it
/// holds, and marks the transaction as deferred exactly if its own amount is deferred.
pub proof fn lemma_one_more_line(
    headers: Seq<TransactionHeader>,
    id: Seq<char>,
    items: Seq<LineItem>,
    li: LineItem,
    before: TransactionWrite,
    after: TransactionWrite,
)
    requires
        is_write(headers, id, items, before),
        is_write(headers, id, items.push(li), after),
    ensures
        lines_of(after).qb_id@ == id,
        lines_of(after).line_count == lines_of(before).line_count + 1,
        li.amount_cents is Some ==> lines_of(after).total_cents == lines_of(before).total_cents
            + li.amount_cents->0,
        li.amount_cents is None ==> lines_of(after).total_cents == lines_of(before).total_cents,
        lines_of(after).has_deferred == (lines_of(before).has_deferred || li.amount_type
            == AmountType::Deferred),
{
    records::lemma_one_more_item(items, li);
    let all = items.push(li);
    lemma_any_deferred(all, items.len() as int);
    assert(all.take(items.len() as int) =~= items);
    assert(all.take(items.len() as int + 1) =~= all);
}

/// What is written for a transaction with a single line item.
pub proof fn lemma_single_line(
    headers: Seq<TransactionHeader>,
    id: Seq<char>,
    li: LineItem,
    w: TransactionWrite,
)
    requires
        is_write(headers, id, seq![li], w),
    ensures
        lines_of(w).qb_id@ == id,
        lines_of(w).line_count == 1,
        lines_of(w).total_cents == match li.amount_cents {
            Some(c) => c as int,
            None => 0,
        },
        lines_of(w).has_deferred == (li.amount_type == AmountType::Deferred),
{
    let none = Seq::<LineItem>::empty();
    records::lemma_one_more_item(none, li);
    assert(none.push(li) =~= seq![li]);
    lemma_any_deferred(seq![li], 0);
    assert(seq![li].take(0) =~= none);
    assert(seq![li].take(1) =~= seq![li]);
}

/// A transaction with a header is updated, one without is written anew; then its table,
/// date and counter are those of the first line item that has one, and its page is that
/// of the first line item.
pub proof fn lemma_write_kind(
    headers: Seq<TransactionHeader>,
    id: Seq<char>,
    items: Seq<LineItem>,
    w: TransactionWrite,
    i: int,
)
    requires
        is_write(headers, id, items, w),
        0 <= i < items.len(),
    ensures
        w is Update <==> exists|h: int| 0 <= h < headers.len() && (#[trigger] headers[h]).qb_id@ == id,
        w matches TransactionWrite::Insert {
            source_table,
            txn_date_raw,
            counter,
            source_page,
            ..
        } ==> {
            &&& items[i].source_table is Some && (forall|j: int|
                0 <= j < i ==> (#[trigger] items[j]).source_table is None) ==> source_table@
                == items[i].source_table->0@
            &&& (forall|j: int| 0 <= j < items.len() ==> (#[trigger] items[j]).source_table is None)
                ==> source_table@.len() == 0
            &&& items[i].txn_date_raw is Some && (forall|j: int|
                0 <= j < i ==> (#[trigger] items[j]).txn_date_raw is None) ==> txn_date_raw
                == items[i].txn_date_raw
            &&& (forall|j: int| 0 <= j < items.len() ==> (#[trigger] items[j]).txn_date_raw is None)
                ==> txn_date_raw is None
            &&& items[i].counter is Some && (forall|j: int|
                0 <= j < i ==> (#[trigger] items[j]).counter is None) ==> counter
                == items[i].counter
            &&& (forall|j: int| 0 <= j < items.len() ==> (#[trigger] items[j]).counter is None)
                ==> counter is None
            &&& source_page == items[0].page_number
        },
{
    let ids = header_ids(headers);
    if ids.contains(id) {
        let h = choose|h: int| 0 <= h < ids.len() && ids[h] == id;
        assert(headers[h].qb_id@ == id);
    }
    if exists|h: int| 0 <= h < headers.len() && (#[trigger] headers[h]).qb_id@ == id {
        let h = choose|h: int| 0 <= h < headers.len() && (#[trigger] headers[h]).qb_id@ == id;
        assert(ids[h] == id);
    }
    lemma_firsts(items, i);
}

/// The first table, date and counter that are there.
proof fn lemma_firsts(items: Seq<LineItem>, i: int)
    requires
        0 <= i < items.len(),
    ensures
        items[i].source_table is Some && (forall|j: int|
            0 <= j < i ==> (#[trigger] items[j]).source_table is None) ==> first_source(items)
            == items[i].source_table,
        (forall|j: int| 0 <= j < items.len() ==> (#[trigger] items[j]).source_table is None)
            ==> first_source(items) is None,
        items[i].txn_date_raw is Some && (forall|j: int|
            0 <= j < i ==> (#[trigger] items[j]).txn_date_raw is None) ==> first_date_raw(items)
            == items[i].txn_date_raw,
        (forall|j: int| 0 <= j < items.len() ==> (#[trigger] items[j]).txn_date_raw is None)
            ==> first_date_raw(items) is None,
        items[i].counter is Some && (forall|j: int|
            0 <= j < i ==> (#[trigger] items[j]).counter is None) ==> first_counter(items)
            == items[i].counter,
        (forall|j: int| 0 <= j < items.len() ==> (#[trigger] items[j]).counter is None)
            ==> first_counter(items) is None,
    decreases items.len(),
{
    let rest = items.drop_last();
    assert(items.last() == items[items.len() - 1]);
    assert(forall|j: int| 0 <= j < rest.len() ==> #[trigger] rest[j] == items[j]);
    if rest.len() > 0 {
        lemma_firsts(
            rest,
            if i < rest.len() {
                i
            } else {
                0
            },
        );
    }
}

/// The numbers that stand for the kinds of amounts.
pub proof fn lemma_amount_type_numbers(b: u8)
    ensures
        amount_type_number(AmountType::Absent) == 0,
        amount_type_number(AmountType::OneByteOne) == 1,
        amount_type_number(AmountType::Standard) == 2,
        amount_type_number(AmountType::Deferred) == 3,
        amount_type_number(AmountType::Other(b)) == b,
{
}

/// Two line items are of the same transaction and table.
pub open spec fn same_line_key(a: LineItem, b: LineItem) -> bool {
    a.invoice_id@ == b.invoice_id@ && records::text_or_empty(a.source_table)
        == records::text_or_empty(b.source_table)
}

/// Lines are numbered from 1 on within their transaction and table, without gaps: a line
/// with none of its kind before it is number 1, and a line is numbered one higher than
/// the last one of its kind before it.
pub proof fn lemma_line_numbers(items: Seq<LineItem>, j: int, k: int)
    requires
        0 <= k < items.len(),
    ensures
        (forall|i: int| 0 <= i < k ==> !same_line_key(#[trigger] items[i], items[k])) ==> line_number(
            items,
            k,
        ) == 1,
        0 <= j < k && same_line_key(items[j], items[k]) && (forall|i: int|
            j < i < k ==> !same_line_key(#[trigger] items[i], items[k])) ==> line_number(items, k)
            == line_number(items, j) + 1,
{
    let keys = line_keys(items);
    let key = keys[k];
    assert forall|i: int| 0 <= i < items.len() implies (keys[i] == key) == same_line_key(
        #[trigger] items[i],
        items[k],
    ) by {
    }
    if forall|i: int| 0 <= i < k ==> !same_line_key(#[trigger] items[i], items[k]) {
        assert forall|i: int| 0 <= i < k implies #[trigger] keys[i] != key by {
            assert(!same_line_key(items[i], items[k]));
        }
        lemma_none_between(keys, key, 0, k);
    }
    if 0 <= j < k && same_line_key(items[j], items[k]) && (forall|i: int|
        j < i < k ==> !same_line_key(#[trigger] items[i], items[k])) {
        assert(keys[j] == key);
        assert forall|i: int| j < i < k implies #[trigger] keys[i] != key by {
            assert(!same_line_key(items[i], items[k]));
        }
        lemma_none_between(keys, key, j + 1, k);
    }
}

proof fn lemma_none_between(
    keys: Seq<(Seq<char>, Seq<char>)>,
    key: (Seq<char>, Seq<char>),
    a: int,
    b: int,
)
    requires
        0 <= a <= b <= keys.len(),
        forall|i: int| a <= i < b ==> #[trigger] keys[i] != key,
    ensures
        order::positions_before::<(&str, &str)>(keys, key, b) == order::positions_before::<
            (&str, &str),
        >(keys, key, a),
    decreases b - a,
{
    if a < b {
        lemma_none_between(keys, key, a, b - 1);
    }
}

/// What is written for a line item besides: the number of its kind of amount, the two
/// hexadecimal digits of every byte of the amount, and its table.
pub proof fn lemma_line_row(items: Seq<LineItem>, k: int, row: LineRow, i: int)
    requires
        0 <= k < items.len(),
        is_line_row(items, k, row),
        0 <= i < items[k].amount_raw@.len(),
    ensures
        row.line_number == line_number(items, k),
        row.amount_type == amount_type_number(items[k].amount_type),
        row.amount_raw_hex@.len() == 2 * items[k].amount_raw@.len(),
        layout::hex_value(row.amount_raw_hex@[2 * i]) * 16 + layout::hex_value(
            row.amount_raw_hex@[2 * i + 1],
        ) == items[k].amount_raw@[i],
        items[k].source_table is Some ==> row.source_table@ == items[k].source_table->0@,
        items[k].source_table is None ==> row.source_table@.len() == 0,
{
    layout::lemma_hex_reads_back(items[k].amount_raw@, i);
}

/// The summary names the pages, the transactions, the headers, the line items and the
/// total, in this order, each after its label.
pub proof fn lemma_summary(stats: ExportStats)
    ensures
        stats.summary_text() == "openqbw: pages="@ + layout::decimal(stats.pages as int)
            + " transactions="@ + layout::decimal(stats.transactions as int) + " headers="@
            + layout::decimal(stats.headers as int) + " lineitems="@ + layout::decimal(
            stats.line_items as int,
        ) + " grand_total=$"@ + money::dollars(stats.grand_total_cents as int),
{
}

} // verus!
