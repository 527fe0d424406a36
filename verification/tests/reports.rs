use openqbw::catalog_report::{
    attribution_gap, attribution_warning, audit_summary, count_foreign_keys, edge_listing,
    index_listing, index_summary, nulls_report, validation_table, AttributionGap, CrossValidation,
    DisagreeSample, FkEdge, NullsFlagBucket, SysIndexEntry, ValidationStats,
};
use openqbw::layout::{hex_text, push_left, push_right, push_zero_padded, signed_text, unsigned_text};
use openqbw::owner_bridge::BridgeSource;
use openqbw::records::{AmountType, LineItem, TransactionHeader};
use openqbw::report::{
    block_count, catalog_listing, count_line, count_records, count_user_tables, inventory_report,
    is_system_name, journal_line, records_report, regression_line, regression_ok, totals_line,
    verification_ok, PHASE5_INVOICE_COUNT, PHASE5_INVOICE_TOTAL_CENTS,
};
use openqbw::schema::SchemaRecovery;
use openqbw::schema_report::{
    gap_warning, implausible_warning, miss_report, schema_columns, schema_head, schema_miss_report,
};
use openqbw::syscolumn::SysColumn;
use openqbw::systable::SysTableEntry;

fn table(id: u32, name: &str, root: Option<u32>) -> SysTableEntry {
    SysTableEntry {
        table_id: id,
        name: name.to_string(),
        col_count: None,
        data_root_page: root,
        last_page: Some(1_234_567),
        page_number: 0,
        row_offset: 0,
    }
}

#[test]
fn numbers_and_padding_are_those_of_format() {
    for n in [0i64, 9, 10, 99, 100, -1, -10, 123456789, i64::MAX, i64::MIN] {
        assert_eq!(signed_text(n), format!("{n}"));
        for width in [1usize, 2, 4, 6, 25] {
            let mut out = String::new();
            push_zero_padded(&mut out, n, width);
            assert_eq!(out, format!("{n:0width$}"));
        }
    }
    assert_eq!(unsigned_text(u64::MAX), u64::MAX.to_string());
    for s in ["", "ab", "äöü", "longer than it is wide"] {
        let (mut l, mut r) = (String::from("|"), String::from("|"));
        push_left(&mut l, s, 6);
        push_right(&mut r, s, 6);
        assert_eq!(l, format!("|{s:<6}"));
        assert_eq!(r, format!("|{s:>6}"));
    }
    assert_eq!(hex_text(&[0x00, 0x0a, 0xf0, 0xff]), "000af0ff");
}

#[test]
fn system_names_are_known_by_their_start() {
    for name in ["SYSTABLE", "ISYSX", "RS_a", "dbo.t", "SYS"] {
        assert!(is_system_name(name), "{name}");
    }
    for name in ["abmc_invoice", "sysx", "SY", "", "XSYS", "RS-", "DBO"] {
        assert!(!is_system_name(name), "{name}");
    }
}

#[test]
fn the_catalog_is_listed_by_table_id() {
    let tables = [table(300, "SYSFILE", None), table(7, "abmc", Some(55))];
    assert_eq!(count_user_tables(&tables), 1);
    assert_eq!(
        catalog_listing("b.qbw", 12, &tables, false),
        format!(
            "file: b.qbw  pages=12  unique_tables=2  user_tables=1\n\
             {:>6}  {:>5}  {:>6}  {:>6}  name\n\
             {:>6}  {:>5}  {:>6}  {:>6}  abmc\n\
             {:>6}  {:>5}  {:>6}  {:>6}  SYSFILE\n",
            "tid", "cols", "root", "last", 7, "-", 55, 1_234_567, 300, "-", "-", 1_234_567
        )
    );
    let user = catalog_listing("b.qbw", 12, &tables, true);
    assert!(user.contains("abmc\n") && !user.contains("SYSFILE"));
    assert!(user.starts_with("file: b.qbw  pages=12  unique_tables=2  user_tables=1\n"));
}

fn recovery(ids: &[u32]) -> SchemaRecovery {
    SchemaRecovery {
        table: "abmc\t\"x\"".to_string(),
        in_catalog: true,
        catalog_table_id: Some(5884),
        syscolumn_rows: 5419,
        distinct_owners: 679,
        owner: Some(3073),
        source: Some(BridgeSource::SysTableBackref),
        backref_distance: Some(30),
        bridged_tables: 422,
        from_backref: 421,
        from_sysobject: 2,
        columns: ids
            .iter()
            .map(|id| SysColumn {
                name: format!("c{id}"),
                owner_object_id: 3073,
                column_id: *id,
                nulls_flag: 2,
                domain_char: b'N',
                width: 4,
                page_number: 710,
                tag_offset: 0,
            })
            .collect(),
    }
}

#[test]
fn a_miss_names_the_stage_that_came_up_empty() {
    let found = recovery(&[]);
    assert_eq!(
        schema_miss_report(&found),
        "no columns recovered for table \"abmc\\t\\\"x\\\"\"\n  \
         catalog:      listed in SYSTABLE (table_id 5884)\n  \
         SYSCOLUMN:    5419 rows recovered, 679 distinct owners\n  \
         owner bridge: 422 tables (421 via SYSTABLE back-reference at -30, 2 via SYSOBJECT scan)\n  \
         this table:   no SYSCOLUMN owner could be bridged to it, so its columns cannot be attributed yet"
    );
    let mut found = recovery(&[]);
    found.catalog_table_id = None;
    found.backref_distance = None;
    assert_eq!(
        miss_report(&found, "'t'"),
        "no columns recovered for table 't'\n  \
         catalog:      no SYSTABLE row with this name - check `openqbw catalog`\n  \
         SYSCOLUMN:    5419 rows recovered, 679 distinct owners\n  \
         owner bridge: 422 tables (2 via SYSOBJECT scan; no SYSTABLE back-reference distance could be calibrated on this file)\n  \
         this table:   no SYSCOLUMN owner could be bridged to it, so its columns cannot be attributed yet"
    );
}

#[test]
fn a_schema_names_owner_and_bridge() {
    let mut found = recovery(&[1, 2]);
    found.table = "abmc_invoice_header".to_string();
    assert_eq!(
        schema_head(&found),
        "table: abmc_invoice_header  columns: 2  (SYSCOLUMN owner 3073, via SYSTABLE back-reference)\n"
    );
    found.source = Some(BridgeSource::SysObjectScan);
    assert!(schema_head(&found).ends_with("via SYSOBJECT scan)\n"));
    found.owner = None;
    assert_eq!(schema_head(&found), "table: abmc_invoice_header  columns: 2\n");
    assert_eq!(
        schema_columns(&found),
        format!(
            "{:>5}  {:<32}  {:>6}  {:>5}  {:>5}\n\
             {:>5}  {:<32}  {:>6}  {:>5}  {:>5}\n\
             {:>5}  {:<32}  {:>6}  {:>5}  {:>5}\n",
            "id", "name", "domain", "width", "nulls", 1, "c1", 'N', 4, 2, 2, "c2", 'N', 4, 2
        )
    );
}

#[test]
fn holes_and_wild_ids_are_warned_about() {
    assert_eq!(gap_warning(&recovery(&[1, 2, 3])), None);
    assert_eq!(gap_warning(&recovery(&[])), None);
    assert_eq!(
        gap_warning(&recovery(&[1, 2, 5, 9])).unwrap(),
        "warning: 5 of the 9 column_ids in 1..=9 have no recovered SYSCOLUMN row, \
         so the listing below is incomplete (openqbw#19)\n"
    );
    assert_eq!(implausible_warning(&recovery(&[1, 4096])), None);
    assert_eq!(
        implausible_warning(&recovery(&[0, 1, 4097])).unwrap(),
        "warning: 2 row(s) below carry an implausible column_id and are likely mis-parsed\n"
    );
}

#[test]
fn repeated_ids_are_not_gaps() {
    let r = recovery(&[1, 2, 2, 2, 4]);
    assert_eq!(r.missing_column_ids(), 1);
    assert!(r.has_column_gaps());
    let r = recovery(&[3, 3, 3]);
    assert_eq!(r.missing_column_ids(), 0);
    assert_eq!(r.column_id_range(), Some((3, 3)));
    assert_eq!(r.plausible_columns().len(), 3);
    assert_eq!(recovery(&[0, 9999]).column_id_range(), None);
    assert_eq!(recovery(&[0, 9999]).missing_column_ids(), 0);
    assert_eq!(recovery(&[0, 9999]).implausible_column_ids(), 2);
}

#[test]
fn gaps_in_attribution_are_explained() {
    assert_eq!(
        attribution_warning(AttributionGap::NoCatalogRows),
        "warning: no SYSTABLE rows found; page-to-table attribution is unavailable\n"
    );
    assert!(attribution_warning(AttributionGap::AllRootsZeroed)
        .starts_with("warning: SYSTABLE rows were found, but every data_root_page is zero, so "));
}

#[test]
fn a_catalog_without_a_root_page_leaves_a_gap() {
    assert_eq!(attribution_gap(&[]), Some(AttributionGap::NoCatalogRows));
    let rootless = [table(1, "a", Some(0)), table(2, "b", None)];
    assert_eq!(attribution_gap(&rootless), Some(AttributionGap::AllRootsZeroed));
    let rooted = [table(1, "a", Some(0)), table(2, "b", Some(7)), table(3, "c", None)];
    assert_eq!(attribution_gap(&rooted), None);
}

fn index(table_id: u32, name: &str) -> SysIndexEntry {
    SysIndexEntry { table_id, root_page: 99, name: name.to_string() }
}

#[test]
fn indexes_are_listed_with_their_tables() {
    let entries = [index(7, "fkey_a"), index(8, "pk"), index(9, "fkey_b")];
    let tables = [table(7, "first", None), table(7, "second", None), table(8, "eight", None)];
    assert_eq!(count_foreign_keys(&entries), 2);
    assert_eq!(
        index_summary(&entries, 3),
        "sysindex entries: 3 (fk: 2)  distinct (table_id,root_page) pairs: 3\n"
    );
    let head = format!("{:>8}  {:>8}  {:<40}  index_name\n", "tid", "root", "owner");
    let line = |tid: u32, owner: &str, name: &str| {
        format!("{:>8}  {:>8}  {:<40}  {}\n", tid, 99, owner, name)
    };
    assert_eq!(
        index_listing(&entries, &tables, false),
        head.clone() + &line(7, "first", "fkey_a") + &line(8, "eight", "pk")
            + &line(9, "<orphan>", "fkey_b")
    );
    assert_eq!(
        index_listing(&entries, &tables, true),
        head + &line(7, "first", "fkey_a") + &line(9, "<orphan>", "fkey_b")
    );
}

#[test]
fn disagreements_are_sampled() {
    let mut audit = CrossValidation {
        distinct_roots: 4,
        agree: 3,
        disagree: 1,
        missing: 2,
        orphan_index: 5,
        disagree_samples: vec![],
    };
    let first = "cross-validation: agree=3 disagree=1 missing=2 orphan=5  agreement_rate=75.0%\n";
    assert_eq!(audit_summary(&audit, "75.0"), first);
    audit.disagree_samples.push(DisagreeSample {
        table_id: 12,
        index_table: "one".to_string(),
        position_table: "two".to_string(),
        root_page: 345,
        index_name: "ix".to_string(),
    });
    assert_eq!(
        audit_summary(&audit, "75.0"),
        format!(
            "{first}  disagreement samples (sysindex_table -> position_table @ root_page : index):\n    \
             tid={:<6} {:<32} -> {:<32} @ root={:<8} : {}\n",
            12, "one", "two", 345, "ix"
        )
    );
}

#[test]
fn foreign_keys_are_listed() {
    let edge = |target: Option<&str>| FkEdge {
        source_table: "s".to_string(),
        source_column_id: 3,
        source_column: "x_id".to_string(),
        target_table: target.map(|t| t.to_string()),
        score: 950,
    };
    let edges = [edge(Some("t")), edge(None)];
    let cells = |a: &str, b: &str, c: &str, d: &str, e: &str| {
        format!("{a:<40}  {b:>4}  {c:<28}  {d:<40}  {e:>5}\n")
    };
    let head = cells("source_table", "col", "source_column", "target_table", "score");
    let one = cells("s", "3", "x_id", "t", "950");
    let two = cells("s", "3", "x_id", "-", "950");
    assert_eq!(edge_listing(&edges, false), format!("{head}{one}{two}"));
    assert_eq!(edge_listing(&edges, true), format!("{head}{one}"));
}

#[test]
fn nulls_flags_are_counted() {
    let buckets = [
        NullsFlagBucket {
            flag: 2,
            count: 40,
            sample_columns: vec!["a".to_string(), "b".to_string(), "c".to_string()],
        },
        NullsFlagBucket { flag: 0xAB, count: 1, sample_columns: vec![] },
    ];
    assert_eq!(
        nulls_report(&buckets),
        format!(
            "total syscolumn rows: 41  distinct nulls_flag values: 2\n\
             {:>6}  {:>8}  sample_columns\n\
             0x02    {:>8}  a, b, c\n\
             0xab    {:>8}  \n",
            "byte", "count", 40, 1
        )
    );
}

#[test]
fn validation_counts_stand_under_headings() {
    let stats = ValidationStats { pass: 1, fail: 22, no_band: 333, unmeasured: 4 };
    assert_eq!(stats.total(), 360);
    assert_eq!(
        validation_table(&stats),
        format!(
            "{:>10}  {:>10}  {:>10}  {:>10}  {:>10}\n{:>10}  {:>10}  {:>10}  {:>10}  {:>10}\n",
            "pass", "fail", "no_band", "unmeasured", "total", 1, 22, 333, 4, 360
        )
    );
}

fn item(invoice: &str, cents: Option<u32>) -> LineItem {
    LineItem {
        invoice_id: invoice.to_string(),
        item_qb_id: None,
        amount_type: AmountType::Standard,
        amount_cents: cents,
        amount_cents_signed: None,
        amount_raw: vec![],
        txn_date_raw: None,
        txn_unix_day: None,
        counter: None,
        source_table: None,
        page_number: 0,
        page_offset: 0,
    }
}

fn header(id: &str) -> TransactionHeader {
    TransactionHeader {
        qb_id: id.to_string(),
        txn_type: "t".to_string(),
        source_table: String::new(),
        txn_date_raw: None,
        counter: None,
        page_number: 0,
        page_offset: 0,
    }
}

#[test]
fn orphans_and_childless_headers_are_counted() {
    let items = [item("a", Some(100)), item("b", None), item("a", Some(5)), item("c", Some(1))];
    let headers = [header("b"), header("d"), header("b"), header("e"), header("f")];
    let counts = count_records(&items, &headers);
    assert_eq!((counts.headers, counts.line_items), (5, 4));
    assert_eq!(counts.parents, 3);
    assert_eq!(counts.orphan_parents, 2);
    assert_eq!(counts.childless_headers, 3);
    assert_eq!(counts.grand_total_cents, 106);
    let text = records_report(&counts);
    assert!(text.starts_with(
        "=== business records ===\n\
         transaction headers : 5\n\
         line items          : 4\n\
         distinct parent invoice ids : 3\n\
         orphan parents (no header)  : 2\n\
         childless headers           : 3\n\
         lineitem grand total        : $1.06\n\
         \nnote: a non-zero orphan count is a discovery signal -- the file \n      may"
    ));
    let clean = count_records(&[item("b", None)], &[header("b")]);
    assert_eq!((clean.orphan_parents, clean.childless_headers), (0, 0));
    assert!(records_report(&clean).ends_with("grand total        : $0.00\n"));
}

#[test]
fn the_inventory_counts_user_tables() {
    assert_eq!(
        inventory_report(&[table(1, "SYSX", None), table(2, "abc", None), table(3, "d", None)]),
        "=== catalog ===\ntables total: 3\ntables user : 2\n"
    );
}

#[test]
fn blocks_hold_sixteen_pages() {
    for (pages, blocks) in [(0u64, 0u64), (1, 1), (16, 1), (17, 2), (32, 2), (u64::MAX, 1 << 60)] {
        assert_eq!(block_count(pages), blocks);
        assert_eq!(block_count(pages), pages.div_ceil(16));
    }
}

#[test]
fn the_regression_compares_both_numbers() {
    assert!(regression_ok(PHASE5_INVOICE_COUNT, PHASE5_INVOICE_TOTAL_CENTS));
    assert!(!regression_ok(PHASE5_INVOICE_COUNT, 0));
    assert!(!regression_ok(1, PHASE5_INVOICE_TOTAL_CENTS));
    assert_eq!(
        regression_line(13_375, 39_991_479_278),
        "Phase 5 regression (universal anchor):  parents=13375/13375  \
         grand_total=$399914792.78/$399914792.78  PASS\n"
    );
    assert_eq!(
        regression_line(2, 100),
        "Phase 5 regression (universal anchor):  parents=2/13375  \
         grand_total=$1.00/$399914792.78  DIFF\n"
    );
}

#[test]
fn journal_pairs_must_all_balance() {
    assert_eq!(journal_line(0, 0, "x"), "  no same-type 2-line journal pairs found\n");
    assert_eq!(
        journal_line(4, 4, "100.0"),
        "  same-type 2-line journal pairs: 4/4 balance (100.0%) PASS\n"
    );
    assert_eq!(
        journal_line(4, 1, "25.0"),
        "  same-type 2-line journal pairs: 1/4 balance (25.0%) DIFF\n"
    );
    let (n, total) = (PHASE5_INVOICE_COUNT, PHASE5_INVOICE_TOTAL_CENTS);
    assert!(verification_ok(n, total, 0, 0));
    assert!(verification_ok(n, total, 9, 9));
    assert!(!verification_ok(n, total, 9, 8));
    assert!(!verification_ok(n, 1, 9, 9));
}

#[test]
fn totals_stand_in_columns() {
    assert_eq!(
        totals_line("abmc", 12, -345),
        format!("  {:44}  {:>8}  ${:>15.2}\n", "abmc", 12, -3.45f64)
    );
    assert_eq!(count_line("abmc", 12), format!("  {:44}  {:>8}\n", "abmc", 12));
}
