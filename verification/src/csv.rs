//! Comma-separated values.

use vstd::prelude::*;
use vstd::string::*;

use crate::date;
use crate::layout;
use crate::layout::{signed_text, unsigned_text};
use crate::money;
use crate::money::push_dollars;
use crate::order;
use crate::order::sort_order;
use crate::records;
use crate::records::{date_text, or_empty, LineItem, TransactionHeader};
use crate::systable::SysTableEntry;

verus! {

/// A character that a field cannot hold without quotes.
pub open spec fn is_special(c: char) -> bool {
    c == ',' || c == '"' || c == '\n' || c == '\r'
}

/// The field has to be quoted.
pub open spec fn needs_quotes(s: Seq<char>) -> bool {
    exists|i: int| 0 <= i < s.len() && is_special(#[trigger] s[i])
}

/// Text with every quote doubled.
pub open spec fn doubled(s: Seq<char>) -> Seq<char>
    decreases s.len(),
{
    if s.len() == 0 {
        s
    } else if s.last() == '"' {
        doubled(s.drop_last()) + seq!['"', '"']
    } else {
        doubled(s.drop_last()).push(s.last())
    }
}

/// A field, quoted only when needed.
pub open spec fn field(s: Seq<char>) -> Seq<char> {
    if needs_quotes(s) {
        seq!['"'] + doubled(s) + seq!['"']
    } else {
        s
    }
}

/// A field: quoted if it contains a comma, a quote, or a line break, with the
/// quotes in it doubled.
pub fn csv_field(s: &str) -> (out: String)
    ensures
        out@ == field(s@),
{
    let mut quote: bool = false;
    let mut body = String::new();
    let ghost full = s@;
    for c in it: s.chars()
        invariant
            it.seq() == full,
            body@ == doubled(full.take(it.index() as int)),
            quote == needs_quotes(full.take(it.index() as int)),
    {
        let ghost k = it.index() as int;
        assert(full.take(k + 1).drop_last() =~= full.take(k));
        assert(full.take(k + 1).last() == c);
        if c == '"' {
            body.push('"');
        }
        body.push(c);
        assert(body@ =~= doubled(full.take(k + 1)));
        let special: bool = c == ',' || c == '"' || c == '\n' || c == '\r';
        proof {
            let before = full.take(k);
            let after = full.take(k + 1);
            if needs_quotes(before) {
                let i = choose|i: int| 0 <= i < before.len() && is_special(#[trigger] before[i]);
                assert(is_special(after[i]));
            }
            if special {
                assert(is_special(after[k]));
            }
            if needs_quotes(after) && !special {
                let i = choose|i: int| 0 <= i < after.len() && is_special(#[trigger] after[i]);
                assert(is_special(before[i]));
            }
        }
        quote = quote || special;
    }
    assert(full.take(full.len() as int) =~= full);
    if quote {
        let mut out = String::new();
        out.push('"');
        out.append(body.as_str());
        out.push('"');
        assert(out@ =~= field(s@));
        out
    } else {
        s.to_owned()
    }
}

/// Reads on after an opening quote: what was quoted, and what follows the closing
/// quote.
pub open spec fn read_quoted(t: Seq<char>) -> (Seq<char>, Seq<char>)
    decreases t.len(),
{
    if t.len() == 0 {
        (seq![], seq![])
    } else if t[0] != '"' {
        let (value, rest) = read_quoted(t.skip(1));
        (seq![t[0]] + value, rest)
    } else if t.len() > 1 && t[1] == '"' {
        let (value, rest) = read_quoted(t.skip(2));
        (seq!['"'] + value, rest)
    } else {
        (seq![], t.skip(1))
    }
}

/// Reads a field without quotes: up to the next comma, quote or line break.
pub open spec fn read_plain(t: Seq<char>) -> (Seq<char>, Seq<char>)
    decreases t.len(),
{
    if t.len() == 0 || is_special(t[0]) {
        (seq![], t)
    } else {
        let (value, rest) = read_plain(t.skip(1));
        (seq![t[0]] + value, rest)
    }
}

/// Reads the field at the start of a text: its value, and what follows it.
pub open spec fn read_field(t: Seq<char>) -> (Seq<char>, Seq<char>) {
    if t.len() > 0 && t[0] == '"' {
        read_quoted(t.skip(1))
    } else {
        read_plain(t)
    }
}

/// A field is over: nothing follows, or a comma or a line break.
pub open spec fn ends_field(rest: Seq<char>) -> bool {
    rest.len() == 0 || rest[0] == ',' || rest[0] == '\n' || rest[0] == '\r'
}

proof fn lemma_doubled_front(s: Seq<char>)
    requires
        s.len() > 0,
    ensures
        doubled(s) == (if s[0] == '"' {
            seq!['"', '"']
        } else {
            seq![s[0]]
        }) + doubled(s.skip(1)),
    decreases s.len(),
{
    let front = if s[0] == '"' {
        seq!['"', '"']
    } else {
        seq![s[0]]
    };
    if s.len() == 1 {
        assert(s.drop_last() =~= Seq::<char>::empty());
        assert(s.skip(1) =~= Seq::<char>::empty());
        assert(doubled(s.drop_last()) =~= Seq::<char>::empty());
        assert(doubled(s) =~= front + doubled(s.skip(1)));
    } else {
        lemma_doubled_front(s.drop_last());
        assert(s.drop_last().skip(1) =~= s.skip(1).drop_last());
        assert(s.skip(1).last() == s.last());
        assert(s.drop_last()[0] == s[0]);
        assert(doubled(s) =~= front + doubled(s.skip(1)));
    }
}

proof fn lemma_read_quoted(s: Seq<char>, rest: Seq<char>)
    requires
        ends_field(rest),
    ensures
        read_quoted(doubled(s) + seq!['"'] + rest) == (s, rest),
    decreases s.len(),
{
    let t = doubled(s) + seq!['"'] + rest;
    if s.len() == 0 {
        assert(t =~= seq!['"'] + rest);
        assert(t.skip(1) =~= rest);
        assert(s =~= Seq::<char>::empty());
    } else {
        lemma_doubled_front(s);
        lemma_read_quoted(s.skip(1), rest);
        let inner = doubled(s.skip(1)) + seq!['"'] + rest;
        assert(seq![s[0]] + s.skip(1) =~= s);
        if s[0] == '"' {
            assert(t[0] == '"' && t[1] == '"');
            assert(t.skip(2) =~= inner);
        } else {
            assert(t[0] == s[0]);
            assert(t.skip(1) =~= inner);
        }
    }
}

proof fn lemma_read_plain(s: Seq<char>, rest: Seq<char>)
    requires
        !needs_quotes(s),
        ends_field(rest),
    ensures
        read_plain(s + rest) == (s, rest),
    decreases s.len(),
{
    let t = s + rest;
    if s.len() == 0 {
        assert(t =~= rest);
        assert(s =~= Seq::<char>::empty());
    } else {
        assert(t[0] == s[0]);
        assert(!is_special(s[0]));
        assert(!needs_quotes(s.skip(1))) by {
            if needs_quotes(s.skip(1)) {
                let i = choose|i: int|
                    0 <= i < s.skip(1).len() && is_special(#[trigger] s.skip(1)[i]);
                assert(is_special(s[i + 1]));
            }
        }
        lemma_read_plain(s.skip(1), rest);
        assert(t.skip(1) =~= s.skip(1) + rest);
        assert(seq![s[0]] + s.skip(1) =~= s);
    }
}

/// A field reads back as what was written, whatever stands in it and whatever
/// field or line follows it.
pub proof fn lemma_field_round_trip(s: Seq<char>, rest: Seq<char>)
    requires
        ends_field(rest),
    ensures
        read_field(field(s) + rest) == (s, rest),
{
    let t = field(s) + rest;
    if needs_quotes(s) {
        lemma_read_quoted(s, rest);
        assert(t[0] == '"');
        assert(t.skip(1) =~= doubled(s) + seq!['"'] + rest);
    } else {
        lemma_read_plain(s, rest);
        if t.len() > 0 && t[0] == '"' {
            if s.len() > 0 {
                assert(is_special(s[0]));
            }
        }
    }
}

/// A field without commas, quotes and line breaks is written as it is.
pub proof fn lemma_quoted_only_when_needed(s: Seq<char>)
    ensures
        field(s) == s <==> !needs_quotes(s),
{
    if needs_quotes(s) {
        lemma_doubled_len(s);
        assert(field(s).len() > s.len());
    }
}

proof fn lemma_doubled_len(s: Seq<char>)
    ensures
        doubled(s).len() >= s.len(),
    decreases s.len(),
{
    if s.len() > 0 {
        lemma_doubled_len(s.drop_last());
    }
}

/// A number in decimal, nothing where there is none.
pub open spec fn number_or_empty(n: Option<u32>) -> Seq<char> {
    match n {
        Some(v) => layout::decimal(v as int),
        None => seq![],
    }
}

fn push_number(out: &mut String, n: Option<u32>)
    ensures
        final(out)@ == old(out)@ + number_or_empty(n),
{
    match n {
        Some(v) => {
            out.append(unsigned_text(v as u64).as_str());
        },
        None => {
            assert(out@ =~= old(out)@ + number_or_empty(n));
        },
    }
}

/// The line of a catalog entry.
pub open spec fn catalog_line(t: SysTableEntry) -> Seq<char> {
    layout::decimal(t.table_id as int) + ","@ + field(t.name@) + ","@ + number_or_empty(
        t.col_count,
    ) + ","@ + number_or_empty(t.data_root_page) + ","@ + number_or_empty(t.last_page)
        + "\n"@
}

/// The lines of catalog entries.
pub open spec fn catalog_lines(tables: Seq<SysTableEntry>) -> Seq<char>
    decreases tables.len(),
{
    if tables.len() == 0 {
        seq![]
    } else {
        catalog_lines(tables.drop_last()) + catalog_line(tables.last())
    }
}

/// The table ids of catalog entries.
pub open spec fn table_ids(tables: Seq<SysTableEntry>) -> Seq<u32> {
    tables.map_values(|t: SysTableEntry| t.table_id)
}

/// Catalog entries in order of their table ids.
pub open spec fn tables_by_id(tables: Seq<SysTableEntry>) -> Seq<SysTableEntry> {
    order::arranged(tables, order::stable_order::<u32>(table_ids(tables)))
}

fn push_catalog_line(out: &mut String, t: &SysTableEntry)
    ensures
        final(out)@ == old(out)@ + catalog_line(*t),
{
    let mut line = unsigned_text(t.table_id as u64);
    line.append(",");
    line.append(csv_field(t.name.as_str()).as_str());
    line.append(",");
    push_number(&mut line, t.col_count);
    line.append(",");
    push_number(&mut line, t.data_root_page);
    line.append(",");
    push_number(&mut line, t.last_page);
    line.append("\n");
    out.append(line.as_str());
}

/// The order of catalog entries by table id.
pub fn order_by_table_id(tables: &[SysTableEntry]) -> (positions: Vec<usize>)
    ensures
        positions@ == order::stable_order::<u32>(table_ids(tables@)),
        order::is_order_of::<u32>(table_ids(tables@), 0, tables@.len() as int, positions@),
{
    let mut ids: Vec<u32> = Vec::new();
    for k in 0..tables.len()
        invariant
            ids@.len() == k,
            forall|i: int| 0 <= i < k ==> #[trigger] ids@[i] == tables@[i].table_id,
    {
        ids.push(tables[k].table_id);
    }
    assert(order::key_views(ids@) =~= table_ids(tables@));
    sort_order(&ids)
}

/// The catalog as comma-separated values, in order of the table ids.
pub fn catalog_csv(tables: &[SysTableEntry]) -> (out: String)
    ensures
        out@ == "table_id,name,column_count,data_root_page,last_page\n"@ + catalog_lines(
            tables_by_id(tables@),
        ),
{
    let positions = order_by_table_id(tables);
    let ghost sorted = tables_by_id(tables@);
    let mut out = String::new();
    out.append("table_id,name,column_count,data_root_page,last_page\n");
    let ghost head = out@;
    assert(head + catalog_lines(sorted.take(0)) =~= head);
    for k in 0..positions.len()
        invariant
            sorted == tables_by_id(tables@),
            positions@ == order::stable_order::<u32>(table_ids(tables@)),
            order::is_order_of::<u32>(table_ids(tables@), 0, tables@.len() as int, positions@),
            out@ == head + catalog_lines(sorted.take(k as int)),
    {
        push_catalog_line(&mut out, &tables[positions[k]]);
        assert(sorted.take(k + 1).drop_last() =~= sorted.take(k as int));
        assert(out@ =~= head + catalog_lines(sorted.take(k + 1)));
    }
    assert(sorted.take(positions@.len() as int) =~= sorted);
    assert("table_id,name,column_count,data_root_page,last_page\n"@ =~= head);
    out
}

/// The line of a transaction header.
pub open spec fn transaction_line(h: TransactionHeader) -> Seq<char> {
    field(h.qb_id@) + ","@ + field(h.txn_type@) + ","@ + field(h.source_table@) + ","@
        + layout::decimal(h.page_number as int) + ","@ + layout::decimal(h.page_offset as int)
        + "\n"@
}

/// The lines of transaction headers.
pub open spec fn transaction_lines(headers: Seq<TransactionHeader>) -> Seq<char>
    decreases headers.len(),
{
    if headers.len() == 0 {
        seq![]
    } else {
        transaction_lines(headers.drop_last()) + transaction_line(headers.last())
    }
}

fn push_transaction_line(out: &mut String, h: &TransactionHeader)
    ensures
        final(out)@ == old(out)@ + transaction_line(*h),
{
    let mut line = csv_field(h.qb_id.as_str());
    line.append(",");
    line.append(csv_field(h.txn_type()).as_str());
    line.append(",");
    line.append(csv_field(h.source_table.as_str()).as_str());
    line.append(",");
    line.append(unsigned_text(h.page_number).as_str());
    line.append(",");
    line.append(unsigned_text(h.page_offset as u64).as_str());
    line.append("\n");
    out.append(line.as_str());
}

/// Transaction headers as comma-separated values.
pub fn transactions_csv(headers: &[TransactionHeader]) -> (out: String)
    ensures
        out@ == "qb_id,txn_type,source_table,page_number,page_offset\n"@ + transaction_lines(
            headers@,
        ),
{
    let mut out = String::new();
    out.append("qb_id,txn_type,source_table,page_number,page_offset\n");
    let ghost head = out@;
    assert("qb_id,txn_type,source_table,page_number,page_offset\n"@ =~= head);
    assert(head + transaction_lines(headers@.take(0)) =~= head);
    for k in 0..headers.len()
        invariant
            out@ == head + transaction_lines(headers@.take(k as int)),
    {
        push_transaction_line(&mut out, &headers[k]);
        assert(headers@.take(k + 1).drop_last() =~= headers@.take(k as int));
        assert(out@ =~= head + transaction_lines(headers@.take(k + 1)));
    }
    assert(headers@.take(headers@.len() as int) =~= headers@);
    out
}

/// A signed number in decimal, nothing where there is none.
pub open spec fn signed_or_empty(n: Option<i64>) -> Seq<char> {
    match n {
        Some(v) => layout::decimal(v as int),
        None => seq![],
    }
}

/// An amount in dollars, nothing where there is none.
pub open spec fn dollars_or_empty(n: Option<u32>) -> Seq<char> {
    match n {
        Some(v) => money::dollars(v as int),
        None => seq![],
    }
}

/// The line of a line item.
pub open spec fn lineitem_line(li: LineItem) -> Seq<char> {
    field(li.invoice_id@) + ","@ + field(records::text_or_empty(li.item_qb_id)) + ","@
        + number_or_empty(li.amount_cents) + ","@ + signed_or_empty(li.amount_cents_signed)
        + ","@ + dollars_or_empty(li.amount_cents) + ","@ + records::date_of(
        li.txn_unix_day,
    ) + ","@ + field(records::text_or_empty(li.source_table)) + ","@ + layout::decimal(
        li.page_number as int,
    ) + ","@ + layout::decimal(li.page_offset as int) + "\n"@
}

/// The lines of line items.
pub open spec fn lineitem_lines(items: Seq<LineItem>) -> Seq<char>
    decreases items.len(),
{
    if items.len() == 0 {
        seq![]
    } else {
        lineitem_lines(items.drop_last()) + lineitem_line(items.last())
    }
}

fn push_signed(out: &mut String, n: Option<i64>)
    ensures
        final(out)@ == old(out)@ + signed_or_empty(n),
{
    match n {
        Some(v) => {
            out.append(signed_text(v).as_str());
        },
        None => {
            assert(out@ =~= old(out)@ + signed_or_empty(n));
        },
    }
}

fn push_amount(out: &mut String, n: Option<u32>)
    ensures
        final(out)@ == old(out)@ + dollars_or_empty(n),
{
    match n {
        Some(v) => {
            push_dollars(out, v as i64);
        },
        None => {
            assert(out@ =~= old(out)@ + dollars_or_empty(n));
        },
    }
}

fn push_lineitem_line(out: &mut String, li: &LineItem)
    requires
        records::day_fits(li.txn_unix_day),
    ensures
        final(out)@ == old(out)@ + lineitem_line(*li),
{
    let mut line = csv_field(li.invoice_id.as_str());
    line.append(",");
    line.append(csv_field(or_empty(&li.item_qb_id)).as_str());
    line.append(",");
    push_number(&mut line, li.amount_cents);
    line.append(",");
    push_signed(&mut line, li.amount_cents_signed);
    line.append(",");
    push_amount(&mut line, li.amount_cents);
    line.append(",");
    line.append(date_text(li.txn_date_days_since_unix()).as_str());
    line.append(",");
    line.append(csv_field(or_empty(&li.source_table)).as_str());
    line.append(",");
    line.append(unsigned_text(li.page_number).as_str());
    line.append(",");
    line.append(unsigned_text(li.page_offset as u64).as_str());
    line.append("\n");
    out.append(line.as_str());
}

/// Line items as comma-separated values.
pub fn lineitems_csv(items: &[LineItem]) -> (out: String)
    requires
        forall|i: int|
            0 <= i < items@.len() ==> records::day_fits((#[trigger] items@[i]).txn_unix_day),
    ensures
        out@
            == "invoice_id,item_qb_id,amount_cents,amount_signed_cents,amount_decimal,txn_date,source_table,page_number,page_offset\n"@
            + lineitem_lines(items@),
{
    let mut out = String::new();
    out.append(
        "invoice_id,item_qb_id,amount_cents,amount_signed_cents,amount_decimal,txn_date,source_table,page_number,page_offset\n",
    );
    let ghost head = out@;
    assert("invoice_id,item_qb_id,amount_cents,amount_signed_cents,amount_decimal,txn_date,source_table,page_number,page_offset\n"@
        =~= head);
    assert(head + lineitem_lines(items@.take(0)) =~= head);
    for k in 0..items.len()
        invariant
            forall|i: int|
                0 <= i < items@.len() ==> records::day_fits((#[trigger] items@[i]).txn_unix_day),
            out@ == head + lineitem_lines(items@.take(k as int)),
    {
        push_lineitem_line(&mut out, &items[k]);
        assert(items@.take(k + 1).drop_last() =~= items@.take(k as int));
        assert(out@ =~= head + lineitem_lines(items@.take(k + 1)));
    }
    assert(items@.take(items@.len() as int) =~= items@);
    out
}

/// A field is quoted exactly if it holds a comma, a quote or a line break; else it is
/// written as it is.
pub proof fn lemma_quoting(s: Seq<char>)
    ensures
        (exists|i: int|
            0 <= i < s.len() && (#[trigger] s[i] == ',' || s[i] == '"' || s[i] == '\n' || s[i]
                == '\r')) ==> field(s).len() >= s.len() + 2 && field(s)[0] == '"' && field(s).last()
            == '"',
        (forall|i: int|
            0 <= i < s.len() ==> #[trigger] s[i] != ',' && s[i] != '"' && s[i] != '\n' && s[i]
                != '\r') ==> field(s) == s,
{
    lemma_doubled_len(s);
    if exists|i: int|
        0 <= i < s.len() && (#[trigger] s[i] == ',' || s[i] == '"' || s[i] == '\n' || s[i] == '\r') {
        let i = choose|i: int|
            0 <= i < s.len() && (#[trigger] s[i] == ',' || s[i] == '"' || s[i] == '\n' || s[i]
                == '\r');
        assert(is_special(s[i]));
    }
}

/// Values with commas between them, each written as a field.
pub open spec fn row_body(values: Seq<Seq<char>>) -> Seq<char>
    decreases values.len(),
{
    if values.len() == 0 {
        seq![]
    } else if values.len() == 1 {
        field(values[0])
    } else {
        row_body(values.drop_last()) + ","@ + field(values.last())
    }
}

/// A row of values, ended by a line break.
pub open spec fn row_text(values: Seq<Seq<char>>) -> Seq<char> {
    row_body(values) + "\n"@
}

/// Reading fields from the start of the text gives the values, with a comma behind each
/// but the last; a line break comes behind that one, and then `rest`.
pub open spec fn reads_as(text: Seq<char>, values: Seq<Seq<char>>, rest: Seq<char>) -> bool
    decreases values.len(),
{
    let (value, tail) = read_field(text);
    if values.len() == 0 {
        false
    } else if values.len() == 1 {
        value == values[0] && tail == seq!['\n'] + rest
    } else {
        value == values[0] && tail.len() > 0 && tail[0] == ',' && reads_as(
            tail.skip(1),
            values.skip(1),
            rest,
        )
    }
}

proof fn lemma_row_front(values: Seq<Seq<char>>)
    requires
        values.len() > 1,
    ensures
        row_body(values) == field(values[0]) + seq![','] + row_body(values.skip(1)),
    decreases values.len(),
{
    reveal_strlit(",");
    assert(","@ =~= seq![',']);
    let front = values.drop_last();
    if values.len() == 2 {
        assert(row_body(front) == field(values[0]));
        assert(values.skip(1)[0] == values.last());
    } else {
        lemma_row_front(front);
        assert(front.skip(1) =~= values.skip(1).drop_last());
        assert(values.skip(1).last() == values.last());
        assert(row_body(values) =~= field(values[0]) + seq![','] + row_body(values.skip(1)));
    }
}

/// A row reads back as the values it was written from.
pub proof fn lemma_row_reads_back(values: Seq<Seq<char>>, rest: Seq<char>)
    requires
        values.len() > 0,
    ensures
        reads_as(row_text(values) + rest, values, rest),
    decreases values.len(),
{
    reveal_strlit("\n");
    assert("\n"@ =~= seq!['\n']);
    let text = row_text(values) + rest;
    if values.len() == 1 {
        let tail = seq!['\n'] + rest;
        assert(text =~= field(values[0]) + tail);
        lemma_field_round_trip(values[0], tail);
    } else {
        lemma_row_front(values);
        let behind = row_text(values.skip(1)) + rest;
        let tail = seq![','] + behind;
        assert(text =~= field(values[0]) + tail);
        lemma_field_round_trip(values[0], tail);
        assert(tail.skip(1) =~= behind);
        lemma_row_reads_back(values.skip(1), rest);
    }
}

proof fn lemma_plain_field(s: Seq<char>)
    requires
        forall|i: int|
            0 <= i < s.len() ==> '0' <= #[trigger] s[i] <= '9' || s[i] == '-' || s[i] == '.',
    ensures
        field(s) == s,
{
    lemma_quoting(s);
}

proof fn lemma_decimal_field(n: int)
    ensures
        field(layout::decimal(n)) == layout::decimal(n),
{
    layout::lemma_decimal_reads_back(n);
    assert forall|i: int| 0 <= i < layout::decimal(n).len() implies '0' <= #[trigger] layout::decimal(
        n,
    )[i] <= '9' || layout::decimal(n)[i] == '-' || layout::decimal(n)[i] == '.' by {
        if i > 0 {
            assert('0' <= layout::decimal(n)[i] <= '9');
        }
    }
    lemma_plain_field(layout::decimal(n));
}

/// The line of a table is the row of its id, its name, its number of columns, and the
/// first and the last page of its data.
pub proof fn lemma_catalog_row(t: SysTableEntry)
    ensures
        catalog_line(t) == row_text(
            seq![
                layout::decimal(t.table_id as int),
                t.name@,
                match t.col_count {
                    Some(n) => layout::decimal(n as int),
                    None => seq![],
                },
                match t.data_root_page {
                    Some(n) => layout::decimal(n as int),
                    None => seq![],
                },
                match t.last_page {
                    Some(n) => layout::decimal(n as int),
                    None => seq![],
                },
            ],
        ),
{
    let cols = number_or_empty(t.col_count);
    let root = number_or_empty(t.data_root_page);
    let last = number_or_empty(t.last_page);
    let values = seq![layout::decimal(t.table_id as int), t.name@, cols, root, last];
    lemma_decimal_field(t.table_id as int);
    lemma_number_field(t.col_count);
    lemma_number_field(t.data_root_page);
    lemma_number_field(t.last_page);
    let v4 = values.drop_last();
    let v3 = v4.drop_last();
    let v2 = v3.drop_last();
    assert(values.last() == last && v4.last() == root && v3.last() == cols && v2.last() == t.name@);
    let v1 = v2.drop_last();
    assert(v1.len() == 1 && v1[0] == values[0]);
    assert(row_body(v1) == field(values[0]));
    assert(row_body(v2) == row_body(v1) + ","@ + field(t.name@));
    assert(row_body(v3) == row_body(v2) + ","@ + cols);
    assert(row_body(v4) == row_body(v3) + ","@ + root);
    assert(row_body(values) == row_body(v4) + ","@ + last);
    assert(values =~= seq![
        layout::decimal(t.table_id as int),
        t.name@,
        match t.col_count {
            Some(n) => layout::decimal(n as int),
            None => seq![],
        },
        match t.data_root_page {
            Some(n) => layout::decimal(n as int),
            None => seq![],
        },
        match t.last_page {
            Some(n) => layout::decimal(n as int),
            None => seq![],
        },
    ]);
}

proof fn lemma_number_field(n: Option<u32>)
    ensures
        field(number_or_empty(n)) == number_or_empty(n),
{
    match n {
        Some(v) => lemma_decimal_field(v as int),
        None => lemma_plain_field(seq![]),
    }
}

/// Every table has its line, in order.
pub proof fn lemma_one_more_catalog_line(tables: Seq<SysTableEntry>, t: SysTableEntry)
    ensures
        catalog_lines(tables.push(t)) == catalog_lines(tables) + catalog_line(t),
        catalog_lines(Seq::empty()).len() == 0,
{
    assert(tables.push(t).drop_last() =~= tables);
}

/// The tables are listed by ascending id, each once; those with the same id stay as they
/// were. `from` says which table stands where.
pub proof fn lemma_tables_by_id(tables: Seq<SysTableEntry>) -> (from: Seq<int>)
    requires
        tables.len() <= usize::MAX,
    ensures
        from.len() == tables.len(),
        forall|i: int| 0 <= i < from.len() ==> 0 <= #[trigger] from[i] < tables.len(),
        forall|i: int, j: int|
            0 <= i < j < from.len() ==> tables[#[trigger] from[i]].table_id < tables[
            #[trigger] from[j]].table_id || (tables[from[i]].table_id == tables[from[j]].table_id
                && from[i] < from[j]),
        tables_by_id(tables) == from.map_values(|p: int| tables[p]),
{
    let ids = table_ids(tables);
    order::lemma_stable_order::<u32>(ids);
    let positions = order::stable_order::<u32>(ids);
    let from = positions.map_values(|p: usize| p as int);
    assert forall|i: int, j: int| 0 <= i < j < from.len() implies tables[#[trigger] from[i]].table_id
        < tables[#[trigger] from[j]].table_id || (tables[from[i]].table_id
        == tables[from[j]].table_id && from[i] < from[j]) by {
        assert(order::comes_before::<u32>(ids, positions[i] as int, positions[j] as int));
        assert(ids[from[i]] == tables[from[i]].table_id && ids[from[j]]
            == tables[from[j]].table_id);
    }
    assert(tables_by_id(tables) =~= from.map_values(|p: int| tables[p]));
    from
}

/// The line of a header is the row of its id, its type, its table, and the page and the
/// offset where it was found.
pub proof fn lemma_transaction_row(h: TransactionHeader)
    ensures
        transaction_line(h) == row_text(
            seq![
                h.qb_id@,
                h.txn_type@,
                h.source_table@,
                layout::decimal(h.page_number as int),
                layout::decimal(h.page_offset as int),
            ],
        ),
{
    let page = layout::decimal(h.page_number as int);
    let offset = layout::decimal(h.page_offset as int);
    let values = seq![h.qb_id@, h.txn_type@, h.source_table@, page, offset];
    lemma_decimal_field(h.page_number as int);
    lemma_decimal_field(h.page_offset as int);
    let v4 = values.drop_last();
    let v3 = v4.drop_last();
    let v2 = v3.drop_last();
    assert(values.last() == offset && v4.last() == page && v3.last() == h.source_table@ && v2.last()
        == h.txn_type@);
    let v1 = v2.drop_last();
    assert(v1.len() == 1 && v1[0] == h.qb_id@);
    assert(row_body(v1) == field(h.qb_id@));
    assert(row_body(v2) == row_body(v1) + ","@ + field(h.txn_type@));
    assert(row_body(v3) == row_body(v2) + ","@ + field(h.source_table@));
    assert(row_body(v4) == row_body(v3) + ","@ + page);
    assert(row_body(values) == row_body(v4) + ","@ + offset);
}

/// Every header has its line, in order.
pub proof fn lemma_one_more_transaction_line(
    headers: Seq<TransactionHeader>,
    h: TransactionHeader,
)
    ensures
        transaction_lines(headers.push(h)) == transaction_lines(headers) + transaction_line(h),
        transaction_lines(Seq::empty()).len() == 0,
{
    assert(headers.push(h).drop_last() =~= headers);
}

/// The line of a line item is the row of its transaction, its item, its amount in cents
/// without and with sign, its amount in dollars, its date, its table, and the page and
/// the offset where it was found. What is not known is left empty.
pub proof fn lemma_lineitem_row(li: LineItem)
    ensures
        lineitem_line(li) == row_text(
            seq![
                li.invoice_id@,
                match li.item_qb_id {
                    Some(t) => t@,
                    None => seq![],
                },
                match li.amount_cents {
                    Some(n) => layout::decimal(n as int),
                    None => seq![],
                },
                match li.amount_cents_signed {
                    Some(n) => layout::decimal(n as int),
                    None => seq![],
                },
                match li.amount_cents {
                    Some(n) => money::dollars(n as int),
                    None => seq![],
                },
                match li.txn_unix_day {
                    Some(d) => date::iso_date(d as int),
                    None => seq![],
                },
                match li.source_table {
                    Some(t) => t@,
                    None => seq![],
                },
                layout::decimal(li.page_number as int),
                layout::decimal(li.page_offset as int),
            ],
        ),
{
    let item = records::text_or_empty(li.item_qb_id);
    let cents = number_or_empty(li.amount_cents);
    let signed = signed_or_empty(li.amount_cents_signed);
    let dollars = dollars_or_empty(li.amount_cents);
    let day = records::date_of(li.txn_unix_day);
    let source = records::text_or_empty(li.source_table);
    let page = layout::decimal(li.page_number as int);
    let offset = layout::decimal(li.page_offset as int);
    let values = seq![li.invoice_id@, item, cents, signed, dollars, day, source, page, offset];
    lemma_decimal_field(li.page_number as int);
    lemma_decimal_field(li.page_offset as int);
    lemma_number_field(li.amount_cents);
    assert(field(signed) == signed) by {
        match li.amount_cents_signed {
            Some(v) => lemma_decimal_field(v as int),
            None => lemma_plain_field(seq![]),
        }
    }
    assert(field(dollars) == dollars) by {
        if li.amount_cents is Some {
            let c = li.amount_cents->0 as int;
            assert forall|i: int| 0 <= i < dollars.len() implies '0' <= #[trigger] dollars[i] <= '9'
                || dollars[i] == '-' || dollars[i] == '.' by {
                money::lemma_dollars_chars(c, i);
            }
        }
        lemma_plain_field(dollars);
    }
    assert(field(day) == day) by {
        if li.txn_unix_day is Some {
            let d = li.txn_unix_day->0 as int;
            assert forall|i: int| 0 <= i < day.len() implies '0' <= #[trigger] day[i] <= '9'
                || day[i] == '-' || day[i] == '.' by {
                date::lemma_date_chars(d, i);
            }
        }
        lemma_plain_field(day);
    }
    let v8 = values.drop_last();
    let v7 = v8.drop_last();
    let v6 = v7.drop_last();
    let v5 = v6.drop_last();
    let v4 = v5.drop_last();
    let v3 = v4.drop_last();
    let v2 = v3.drop_last();
    assert(values.last() == offset && v8.last() == page && v7.last() == source && v6.last() == day);
    assert(v5.last() == dollars && v4.last() == signed && v3.last() == cents && v2.last() == item);
    let v1 = v2.drop_last();
    assert(v1.len() == 1 && v1[0] == li.invoice_id@);
    assert(row_body(v1) == field(li.invoice_id@));
    assert(row_body(v2) == row_body(v1) + ","@ + field(item));
    assert(row_body(v3) == row_body(v2) + ","@ + cents);
    assert(row_body(v4) == row_body(v3) + ","@ + signed);
    assert(row_body(v5) == row_body(v4) + ","@ + dollars);
    assert(row_body(v6) == row_body(v5) + ","@ + day);
    assert(row_body(v7) == row_body(v6) + ","@ + field(source));
    assert(row_body(v8) == row_body(v7) + ","@ + page);
    assert(row_body(values) == row_body(v8) + ","@ + offset);
    assert(values =~= seq![
        li.invoice_id@,
        match li.item_qb_id {
            Some(t) => t@,
            None => seq![],
        },
        match li.amount_cents {
            Some(n) => layout::decimal(n as int),
            None => seq![],
        },
        match li.amount_cents_signed {
            Some(n) => layout::decimal(n as int),
            None => seq![],
        },
        match li.amount_cents {
            Some(n) => money::dollars(n as int),
            None => seq![],
        },
        match li.txn_unix_day {
            Some(d) => date::iso_date(d as int),
            None => seq![],
        },
        match li.source_table {
            Some(t) => t@,
            None => seq![],
        },
        layout::decimal(li.page_number as int),
        layout::decimal(li.page_offset as int),
    ]);
}

/// Every line item has its line, in order.
pub proof fn lemma_one_more_lineitem_line(items: Seq<LineItem>, li: LineItem)
    ensures
        lineitem_lines(items.push(li)) == lineitem_lines(items) + lineitem_line(li),
        lineitem_lines(Seq::empty()).len() == 0,
{
    assert(items.push(li).drop_last() =~= items);
}

} // verus!
