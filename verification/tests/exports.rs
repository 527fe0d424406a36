use openqbw::csv::{catalog_csv, csv_field, lineitems_csv, transactions_csv};
use openqbw::export::{
    amount_type_byte, headers_to_write, line_rows, synthesize_transactions, Aggregate, ExportStats,
    TransactionWrite,
};
use openqbw::iif::{iif_document, iif_from_headers};
use openqbw::records::{
    date_text, sort_headers, sort_line_items, AmountType, LineItem, TransactionHeader,
};
use openqbw::systable::SysTableEntry;

fn item(invoice: &str, cents: Option<u32>, page: u64, offset: usize) -> LineItem {
    LineItem {
        invoice_id: invoice.to_string(),
        item_qb_id: None,
        amount_type: AmountType::Standard,
        amount_cents: cents,
        amount_cents_signed: cents.map(|c| c as i64),
        amount_raw: vec![],
        txn_date_raw: None,
        txn_unix_day: None,
        counter: None,
        source_table: None,
        page_number: page,
        page_offset: offset,
    }
}

fn header(id: &str, txn_type: &str, page: u64, offset: usize) -> TransactionHeader {
    TransactionHeader {
        qb_id: id.to_string(),
        txn_type: txn_type.to_string(),
        source_table: "src".to_string(),
        txn_date_raw: Some(5),
        counter: None,
        page_number: page,
        page_offset: offset,
    }
}

fn table(id: u32, name: &str) -> SysTableEntry {
    SysTableEntry {
        table_id: id,
        name: name.to_string(),
        col_count: Some(4),
        data_root_page: None,
        last_page: Some(90),
        page_number: 1,
        row_offset: 0,
    }
}

#[test]
fn fields_are_quoted_only_when_needed() {
    assert_eq!(csv_field(""), "");
    assert_eq!(csv_field("plain text"), "plain text");
    assert_eq!(csv_field("a,b"), "\"a,b\"");
    assert_eq!(csv_field("say \"hi\""), "\"say \"\"hi\"\"\"");
    assert_eq!(csv_field("two\nlines"), "\"two\nlines\"");
    assert_eq!(csv_field("cr\r"), "\"cr\r\"");
    assert_eq!(csv_field("\""), "\"\"\"\"");
    assert_eq!(csv_field("é;ü"), "é;ü");
    assert_eq!(csv_field("é,ü"), "\"é,ü\"");
}

/// Reads one field back, as RFC 4180 has it.
fn read_field(text: &str) -> (String, String) {
    let mut chars = text.chars().peekable();
    let mut value = String::new();
    if chars.peek() == Some(&'"') {
        chars.next();
        while let Some(c) = chars.next() {
            if c == '"' {
                if chars.peek() == Some(&'"') {
                    chars.next();
                    value.push('"');
                } else {
                    break;
                }
            } else {
                value.push(c);
            }
        }
    } else {
        while let Some(c) = chars.peek() {
            if matches!(c, ',' | '"' | '\n' | '\r') {
                break;
            }
            value.push(*c);
            chars.next();
        }
    }
    (value, chars.collect())
}

#[test]
fn fields_read_back() {
    for s in ["", "x", "a,b", "\"", "\"\"", "a\"b", "\n", "q\r\n", "ü,\"é\"", ",,,"] {
        for rest in ["", ",next", "\n", "\r\n"] {
            let written = format!("{}{}", csv_field(s), rest);
            assert_eq!(read_field(&written), (s.to_string(), rest.to_string()));
        }
    }
}

#[test]
fn the_catalog_comes_in_order_of_the_table_ids() {
    let tables = [table(20, "b,c"), table(3, "z"), table(20, "a")];
    assert_eq!(
        catalog_csv(&tables),
        "table_id,name,column_count,data_root_page,last_page\n\
         3,z,4,,90\n\
         20,\"b,c\",4,,90\n\
         20,a,4,,90\n"
    );
    assert_eq!(catalog_csv(&[]), "table_id,name,column_count,data_root_page,last_page\n");
}

#[test]
fn transactions_keep_their_order() {
    let headers = [header("B-1", "invoice", 9, 16), header("A,1", "check", 2, 7)];
    assert_eq!(
        transactions_csv(&headers),
        "qb_id,txn_type,source_table,page_number,page_offset\n\
         B-1,invoice,src,9,16\n\
         \"A,1\",check,src,2,7\n"
    );
}

#[test]
fn line_items_have_amounts_and_dates() {
    let mut a = item("INV-1", Some(12345), 7, 100);
    a.item_qb_id = Some("it,em".to_string());
    a.amount_cents_signed = Some(-12345);
    a.txn_unix_day = Some(19_782);
    a.source_table = Some("abmc".to_string());
    let b = item("INV-2", None, 8, 0);
    assert_eq!(
        lineitems_csv(&[a, b]),
        "invoice_id,item_qb_id,amount_cents,amount_signed_cents,amount_decimal,txn_date,source_table,page_number,page_offset\n\
         INV-1,\"it,em\",12345,-12345,123.45,2024-02-29,abmc,7,100\n\
         INV-2,,,,,,,8,0\n"
    );
}

#[test]
fn dates_are_empty_where_unknown() {
    assert_eq!(date_text(None), "");
    assert_eq!(date_text(Some(0)), "1970-01-01");
}

#[test]
fn records_are_sorted_by_place_and_ties_keep_their_order() {
    let items = vec![
        item("a", None, 5, 1),
        item("b", None, 2, 9),
        item("c", None, 5, 0),
        item("d", None, 2, 9),
    ];
    let sorted = sort_line_items(items);
    let ids: Vec<&str> = sorted.iter().map(|li| li.invoice_id.as_str()).collect();
    assert_eq!(ids, vec!["b", "d", "c", "a"]);
    assert_eq!(sorted[0].txn_date_days_since_unix(), None);
    let headers = sort_headers(vec![header("x", "t", 3, 3), header("y", "t", 3, 2)]);
    assert_eq!(headers[0].qb_id, "y");
    assert_eq!(headers[1].txn_type(), "t");
}

fn iif_items() -> Vec<LineItem> {
    let mut a = item("Z9", Some(1000), 1, 0);
    a.source_table = Some("sales".to_string());
    a.item_qb_id = Some("it1".to_string());
    let mut b = item("A1", Some(250), 1, 1);
    b.txn_unix_day = Some(1);
    let mut c = item("Z9", Some(99), 1, 2);
    c.txn_unix_day = Some(0);
    let d = item("A1", None, 1, 3);
    vec![a, b, c, d]
}

const PREAMBLE: &str = "!TRNS\tTRNSID\tTRNSTYPE\tDATE\tACCNT\tNAME\tAMOUNT\tMEMO\r\n\
    !SPL\tSPLID\tTRNSTYPE\tDATE\tACCNT\tNAME\tAMOUNT\tMEMO\r\n\
    !ENDTRNS\r\n";

#[test]
fn iif_groups_line_items_under_their_parents() {
    let types = [
        ("Z9".to_string(), "CHECK".to_string()),
        ("Z9".to_string(), "INVOICE".to_string()),
        ("Q".to_string(), "BILL".to_string()),
    ];
    let doc = iif_document(&iif_items(), &types);
    assert_eq!(
        doc.text,
        format!(
            "{PREAMBLE}\
             TRNS\t1\tGENERAL JOURNAL\t1970-01-02\tAccounts Receivable\t\t2.50\tqb_id=A1\r\n\
             SPL\t1\tGENERAL JOURNAL\t1970-01-02\t\t\t-2.50\t\r\n\
             SPL\t2\tGENERAL JOURNAL\t\t\t\t0.00\t\r\n\
             ENDTRNS\r\n\
             TRNS\t2\tINVOICE\t1970-01-01\tAccounts Receivable\t\t10.99\tqb_id=Z9\r\n\
             SPL\t3\tINVOICE\t\tsales\t\t-10.00\tit1\r\n\
             SPL\t4\tINVOICE\t1970-01-01\t\t\t-0.99\t\r\n\
             ENDTRNS\r\n"
        )
    );
    assert_eq!((doc.transactions, doc.line_items), (2, 4));
}

#[test]
fn iif_types_come_from_headers_in_upper_case() {
    let headers = [header("Z9", "bill", 1, 1), header("Z9", "invoice ß", 1, 2)];
    let doc = iif_from_headers(&iif_items(), &headers);
    assert!(doc.text.contains("TRNS\t2\tINVOICE SS\t1970-01-01"));
    assert!(doc.text.contains("TRNS\t1\tGENERAL JOURNAL\t1970-01-02"));
    assert!(!doc.text.contains("BILL"));
}

#[test]
fn iif_without_line_items_is_a_preamble() {
    let doc = iif_from_headers(&[], &[header("Z9", "bill", 1, 1)]);
    assert_eq!(doc.text, PREAMBLE);
    assert_eq!((doc.transactions, doc.line_items), (0, 0));
}

#[test]
fn iif_transactions_balance() {
    let doc = iif_document(&iif_items(), &[]);
    let mut sum = 0i64;
    for line in doc.text.split("\r\n").skip(3) {
        let cells: Vec<&str> = line.split('\t').collect();
        if cells[0] == "TRNS" || cells[0] == "SPL" {
            sum += cells[6].replace('.', "").parse::<i64>().unwrap();
        }
        if cells[0] == "ENDTRNS" {
            assert_eq!(sum, 0);
        }
    }
}

#[test]
fn iif_parents_come_in_byte_order() {
    let items: Vec<LineItem> =
        ["b", "é", "B", "ab", "a", "z", ""].iter().map(|id| item(id, Some(1), 0, 0)).collect();
    let doc = iif_document(&items, &[]);
    let ids: Vec<&str> = doc
        .text
        .split("\r\n")
        .filter(|l| l.starts_with("TRNS"))
        .map(|l| l.rsplit("qb_id=").next().unwrap())
        .collect();
    assert_eq!(ids, vec!["", "B", "a", "ab", "b", "z", "é"]);
}

#[test]
fn the_first_header_of_a_transaction_is_written() {
    let headers = [
        header("a", "1", 5, 0),
        header("b", "2", 3, 0),
        header("a", "3", 1, 0),
        header("c", "4", 3, 0),
    ];
    assert_eq!(headers_to_write(&headers), vec![1, 3, 0]);
    assert!(headers_to_write(&[]).is_empty());
}

fn lines(a: &Aggregate) -> (&str, usize, i64, bool) {
    (a.qb_id.as_str(), a.line_count, a.total_cents, a.has_deferred)
}

#[test]
fn transactions_without_headers_are_synthesized() {
    let mut items = iif_items();
    items[2].amount_type = AmountType::Deferred;
    items[2].source_table = Some("later".to_string());
    items[2].txn_date_raw = Some(77);
    items[2].counter = Some(3);
    items[0].page_number = 41;
    let writes = synthesize_transactions(&items, &[header("A1", "bill", 1, 1)]);
    assert_eq!(writes.len(), 2);
    match &writes[0] {
        TransactionWrite::Insert { lines: a, source_table, txn_date_raw, counter, source_page } => {
            assert_eq!(lines(a), ("Z9", 2, 1099, true));
            assert_eq!(source_table, "sales");
            assert_eq!(*txn_date_raw, Some(77));
            assert_eq!(*counter, Some(3));
            assert_eq!(*source_page, 41);
        }
        TransactionWrite::Update(_) => panic!("Z9 has no header"),
    }
    match &writes[1] {
        TransactionWrite::Update(a) => assert_eq!(lines(a), ("A1", 2, 250, false)),
        TransactionWrite::Insert { .. } => panic!("A1 has a header"),
    }
}

#[test]
fn unknown_sources_stay_empty() {
    let writes = synthesize_transactions(&[item("x", None, 6, 0)], &[]);
    match &writes[0] {
        TransactionWrite::Insert { lines: a, source_table, txn_date_raw, counter, source_page } => {
            assert_eq!(lines(a), ("x", 1, 0, false));
            assert_eq!(source_table, "");
            assert_eq!((*txn_date_raw, *counter, *source_page), (None, None, 6));
        }
        TransactionWrite::Update(_) => panic!("x has no header"),
    }
}

#[test]
fn totals_of_transactions_add_up_to_those_of_line_items() {
    let items: Vec<LineItem> =
        (0..50u32).map(|k| item(&format!("p{}", k % 7), Some(k * k), 0, k as usize)).collect();
    let sum: i64 = synthesize_transactions(&items, &[header("p3", "t", 0, 0)])
        .iter()
        .map(|w| match w {
            TransactionWrite::Update(a) => a.total_cents,
            TransactionWrite::Insert { lines, .. } => lines.total_cents,
        })
        .sum();
    assert_eq!(sum, (0..50i64).map(|k| k * k).sum::<i64>());
}

#[test]
fn lines_are_numbered_within_transaction_and_table() {
    let mut items: Vec<LineItem> =
        ["a", "b", "a", "a", "b", "a"].iter().map(|id| item(id, Some(1), 0, 0)).collect();
    items[2].source_table = Some("t".to_string());
    items[5].source_table = Some("t".to_string());
    items[3].amount_raw = vec![0x00, 0x9f, 0xff];
    items[3].amount_type = AmountType::Other(9);
    let rows = line_rows(&items);
    let numbers: Vec<usize> = rows.iter().map(|r| r.line_number).collect();
    assert_eq!(numbers, vec![1, 1, 1, 2, 2, 2]);
    assert_eq!(rows[3].amount_raw_hex, "009fff");
    assert_eq!(rows[3].amount_type, 9);
    assert_eq!(rows[5].source_table, "t");
    assert_eq!(rows[0].source_table, "");
}

#[test]
fn amount_types_have_their_numbers() {
    assert_eq!(amount_type_byte(AmountType::Absent), 0);
    assert_eq!(amount_type_byte(AmountType::OneByteOne), 1);
    assert_eq!(amount_type_byte(AmountType::Standard), 2);
    assert_eq!(amount_type_byte(AmountType::Deferred), 3);
    assert_eq!(amount_type_byte(AmountType::Other(200)), 200);
}

#[test]
fn an_export_is_summed_up_in_one_line() {
    let stats = ExportStats {
        pages: 10_772,
        transactions: 13_375,
        headers: 0,
        line_items: 40_000,
        grand_total_cents: -5,
    };
    assert_eq!(
        stats.summary(),
        "openqbw: pages=10772 transactions=13375 headers=0 lineitems=40000 grand_total=$-0.05"
    );
}
