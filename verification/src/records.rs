//! Business records: line items and transaction headers.

use vstd::prelude::*;

use crate::date;
use crate::date::iso_date_from_unix_days;
use crate::order;
use crate::order::{arrange, sort_order};

verus! {

/// How the amount of a line item is stored.
#[derive(Debug, Clone, Copy, PartialEq, Eq, Structural)]
pub enum AmountType {
    /// No amount.
    Absent,
    /// An amount of type one.
    OneByteOne,
    /// An amount of the standard type.
    Standard,
    /// A deferred amount.
    Deferred,
    /// Any other type byte.
    Other(u8),
}

/// One invoice line item.
#[derive(Debug, Clone, PartialEq, Eq)]
pub struct LineItem {
    /// Id of the parent invoice.
    pub invoice_id: String,
    /// Id of the item, where there is one.
    pub item_qb_id: Option<String>,
    /// How the amount is stored.
    pub amount_type: AmountType,
    /// Amount in cents, without sign.
    pub amount_cents: Option<u32>,
    /// Amount in cents, with sign.
    pub amount_cents_signed: Option<i64>,
    /// Bytes of the amount, as stored.
    pub amount_raw: Vec<u8>,
    /// Transaction date, as stored.
    pub txn_date_raw: Option<u32>,
    /// Transaction date in days since 1970-01-01.
    pub txn_unix_day: Option<i64>,
    /// Counter of the record.
    pub counter: Option<u32>,
    /// Table that the page of the record is attributed to.
    pub source_table: Option<String>,
    /// Page on which the record was found.
    pub page_number: u64,
    /// Offset of the record within the page.
    pub page_offset: usize,
}

/// One transaction header.
#[derive(Debug, Clone, PartialEq, Eq)]
pub struct TransactionHeader {
    /// Id of the transaction.
    pub qb_id: String,
    /// Type of the transaction.
    pub txn_type: String,
    /// Table that the page of the record is attributed to.
    pub source_table: String,
    /// Transaction date, as stored.
    pub txn_date_raw: Option<u32>,
    /// Counter of the record.
    pub counter: Option<u32>,
    /// Page on which the record was found.
    pub page_number: u64,
    /// Offset of the record within the page.
    pub page_offset: usize,
}

/// The text of an optional text, empty where there is none.
pub open spec fn text_or_empty(s: Option<String>) -> Seq<char> {
    match s {
        Some(t) => t@,
        None => seq![],
    }
}

/// The text of an optional text, empty where there is none.
pub fn or_empty(s: &Option<String>) -> (text: &str)
    ensures
        text@ == text_or_empty(*s),
{
    match s {
        Some(t) => t.as_str(),
        None => {
            proof {
                reveal_strlit("");
            }
            assert(""@ =~= Seq::<char>::empty());
            ""
        },
    }
}

/// The amount of a line item in cents, zero where it has none.
pub open spec fn cents_of(li: LineItem) -> int {
    match li.amount_cents {
        Some(c) => c as int,
        None => 0,
    }
}

/// The sum of the amounts of line items, in cents.
pub open spec fn total_cents(items: Seq<LineItem>) -> int
    decreases items.len(),
{
    if items.len() == 0 {
        0
    } else {
        total_cents(items.drop_last()) + cents_of(items.last())
    }
}

/// A sum of amounts is not negative, and no smaller than that of a prefix.
pub proof fn lemma_total_cents(items: Seq<LineItem>, k: int)
    requires
        0 <= k <= items.len(),
    ensures
        0 <= total_cents(items.take(k)) <= total_cents(items),
        total_cents(items) <= items.len() * 0xFFFF_FFFF,
    decreases items.len(),
{
    if items.len() > 0 {
        if k < items.len() {
            lemma_total_cents(items.drop_last(), k);
            assert(items.drop_last().take(k) =~= items.take(k));
        } else {
            lemma_total_cents(items.drop_last(), k - 1);
            assert(items.take(k) =~= items);
            assert(items.drop_last().take(k - 1) =~= items.drop_last());
        }
    }
}

/// The ISO date of a day, empty where there is none.
pub open spec fn date_of(day: Option<i64>) -> Seq<char> {
    match day {
        Some(d) => date::iso_date(d as int),
        None => seq![],
    }
}

/// The day can be turned into a date.
pub open spec fn day_fits(day: Option<i64>) -> bool {
    match day {
        Some(d) => d <= i64::MAX - 719_468,
        None => true,
    }
}

/// The ISO date of a day, empty where there is none.
pub fn date_text(day: Option<i64>) -> (text: String)
    requires
        day_fits(day),
    ensures
        text@ == date_of(day),
{
    match day {
        Some(d) => iso_date_from_unix_days(d),
        None => String::new(),
    }
}

impl LineItem {
    /// Transaction date in days since 1970-01-01, where it is known.
    pub fn txn_date_days_since_unix(&self) -> (day: Option<i64>)
        ensures
            day == self.txn_unix_day,
    {
        self.txn_unix_day
    }
}

impl TransactionHeader {
    /// Type of the transaction.
    pub fn txn_type(&self) -> (t: &str)
        ensures
            t@ == self.txn_type@,
    {
        self.txn_type.as_str()
    }
}

/// Where a record was found.
pub open spec fn item_places(items: Seq<LineItem>) -> Seq<(u64, usize)> {
    items.map_values(|li: LineItem| (li.page_number, li.page_offset))
}

/// Where a record was found.
pub open spec fn header_places(headers: Seq<TransactionHeader>) -> Seq<(u64, usize)> {
    headers.map_values(|h: TransactionHeader| (h.page_number, h.page_offset))
}

/// Line items in the order of the places where they were found.
pub open spec fn items_in_order(items: Seq<LineItem>) -> Seq<LineItem> {
    order::arranged(items, order::stable_order::<(u64, usize)>(item_places(items)))
}

/// Headers in the order of the places where they were found.
pub open spec fn headers_in_order(headers: Seq<TransactionHeader>) -> Seq<TransactionHeader> {
    order::arranged(headers, order::stable_order::<(u64, usize)>(header_places(headers)))
}

/// Puts line items in the order of the places where they were found.
pub fn sort_line_items(items: Vec<LineItem>) -> (sorted: Vec<LineItem>)
    ensures
        sorted@ == items_in_order(items@),
{
    let mut keys: Vec<(u64, usize)> = Vec::new();
    for k in 0..items.len()
        invariant
            keys@.len() == k,
            forall|i: int|
                0 <= i < k ==> #[trigger] keys@[i] == (items@[i].page_number, items@[i].page_offset),
    {
        keys.push((items[k].page_number, items[k].page_offset));
    }
    assert(order::key_views(keys@) =~= item_places(items@));
    let positions = sort_order(&keys);
    proof {
        order::lemma_order_distinct::<(u64, usize)>(
            order::key_views(keys@),
            0,
            keys@.len() as int,
            positions@,
        );
    }
    arrange(items, &positions)
}

/// Puts headers in the order of the places where they were found.
pub fn sort_headers(headers: Vec<TransactionHeader>) -> (sorted: Vec<TransactionHeader>)
    ensures
        sorted@ == headers_in_order(headers@),
{
    let mut keys: Vec<(u64, usize)> = Vec::new();
    for k in 0..headers.len()
        invariant
            keys@.len() == k,
            forall|i: int|
                0 <= i < k ==> #[trigger] keys@[i] == (
                    headers@[i].page_number,
                    headers@[i].page_offset,
                ),
    {
        keys.push((headers[k].page_number, headers[k].page_offset));
    }
    assert(order::key_views(keys@) =~= header_places(headers@));
    let positions = sort_order(&keys);
    proof {
        order::lemma_order_distinct::<(u64, usize)>(
            order::key_views(keys@),
            0,
            keys@.len() as int,
            positions@,
        );
    }
    arrange(headers, &positions)
}

/// One more line item adds exactly its amount in cents to a sum, whatever else it
/// holds, and adds nothing where it has no amount; the sum of no line items is zero.
pub proof fn lemma_one_more_item(items: Seq<LineItem>, li: LineItem)
    ensures
        li.amount_cents is Some ==> total_cents(items.push(li)) == total_cents(items)
            + li.amount_cents->0,
        li.amount_cents is None ==> total_cents(items.push(li)) == total_cents(items),
        total_cents(Seq::empty()) == 0,
{
    assert(items.push(li).drop_last() =~= items);
}

/// The sum is that of the amounts alone: line items that have the same amounts, one by
/// one, add up to the same, whatever else they hold.
pub proof fn lemma_sum_of_amounts(a: Seq<LineItem>, b: Seq<LineItem>)
    requires
        a.len() == b.len(),
        forall|i: int|
            0 <= i < a.len() ==> (#[trigger] a[i]).amount_cents == (#[trigger] b[i]).amount_cents,
    ensures
        total_cents(a) == total_cents(b),
    decreases a.len(),
{
    if a.len() > 0 {
        assert(a[a.len() - 1].amount_cents == b[a.len() - 1].amount_cents);
        assert forall|i: int| 0 <= i < a.drop_last().len() implies (
        #[trigger] a.drop_last()[i]).amount_cents == (#[trigger] b.drop_last()[i]).amount_cents by {
            assert(a[i].amount_cents == b[i].amount_cents);
        }
        lemma_sum_of_amounts(a.drop_last(), b.drop_last());
        lemma_one_more_item(a.drop_last(), a.last());
        lemma_one_more_item(b.drop_last(), b.last());
        assert(a.drop_last().push(a.last()) =~= a);
        assert(b.drop_last().push(b.last()) =~= b);
    }
}

/// A place comes before another: on an earlier page, or further up on the same one.
pub open spec fn is_before(a: (u64, usize), b: (u64, usize)) -> bool {
    a.0 < b.0 || (a.0 == b.0 && a.1 < b.1)
}

/// `from` says, for each of the records in order, which of the given ones it is: each
/// comes once; none comes from an earlier place than the one before it; and of two from
/// the same place the one given first comes first.
pub open spec fn is_by_place(places: Seq<(u64, usize)>, from: Seq<int>) -> bool {
    &&& from.len() == places.len()
    &&& forall|i: int| 0 <= i < from.len() ==> 0 <= #[trigger] from[i] < places.len()
    &&& forall|i: int, j: int|
        0 <= i < j < from.len() ==> {
            let a = #[trigger] from[i];
            let b = #[trigger] from[j];
            is_before(places[a], places[b]) || (places[a] == places[b] && a < b)
        }
}

proof fn lemma_by_place(places: Seq<(u64, usize)>) -> (from: Seq<int>)
    requires
        places.len() <= usize::MAX,
    ensures
        is_by_place(places, from),
        from == order::stable_order::<(u64, usize)>(places).map_values(|p: usize| p as int),
{
    order::lemma_stable_order::<(u64, usize)>(places);
    let positions = order::stable_order::<(u64, usize)>(places);
    let from = positions.map_values(|p: usize| p as int);
    assert forall|i: int, j: int| 0 <= i < j < from.len() implies {
        let a = #[trigger] from[i];
        let b = #[trigger] from[j];
        is_before(places[a], places[b]) || (places[a] == places[b] && a < b)
    } by {
        assert(order::comes_before::<(u64, usize)>(
            places,
            positions[i] as int,
            positions[j] as int,
        ));
    }
    from
}

/// Putting line items in order keeps every one of them, and orders them by page, then
/// by offset; those from the same place stay as they were.
pub proof fn lemma_items_by_place(items: Seq<LineItem>) -> (from: Seq<int>)
    requires
        items.len() <= usize::MAX,
    ensures
        is_by_place(
            items.map_values(|li: LineItem| (li.page_number, li.page_offset)),
            from,
        ),
        items_in_order(items) == from.map_values(|p: int| items[p]),
{
    let from = lemma_by_place(item_places(items));
    assert(item_places(items) =~= items.map_values(
        |li: LineItem| (li.page_number, li.page_offset),
    ));
    assert(items_in_order(items) =~= from.map_values(|p: int| items[p]));
    from
}

/// Putting headers in order keeps every one of them, and orders them by page, then by
/// offset; those from the same place stay as they were.
pub proof fn lemma_headers_by_place(headers: Seq<TransactionHeader>) -> (from: Seq<int>)
    requires
        headers.len() <= usize::MAX,
    ensures
        is_by_place(
            headers.map_values(|h: TransactionHeader| (h.page_number, h.page_offset)),
            from,
        ),
        headers_in_order(headers) == from.map_values(|p: int| headers[p]),
{
    let from = lemma_by_place(header_places(headers));
    assert(header_places(headers) =~= headers.map_values(
        |h: TransactionHeader| (h.page_number, h.page_offset),
    ));
    assert(headers_in_order(headers) =~= from.map_values(|p: int| headers[p]));
    from
}

/// An optional text is shown as it is, and as nothing where there is none.
pub proof fn lemma_optional_text(t: String)
    ensures
        text_or_empty(Some(t)) == t@,
        text_or_empty(None).len() == 0,
{
}

/// A day that is known is shown as its date, and as nothing where there is none.
pub proof fn lemma_optional_date(d: i64)
    ensures
        date_of(Some(d)) == date::iso_date(d as int),
        date_of(None).len() == 0,
{
}

} // verus!
