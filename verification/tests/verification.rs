use openqbw::verification::{
    count_parents, grand_total, journal_stats, top_tables, totals_by_table, totals_by_type,
    ExportedLine, ExportedTransaction, NamedTotal, JOURNAL_TABLE,
};

fn line(parent: &str, table: &str, amount_type: i64, signed: Option<i64>) -> ExportedLine {
    ExportedLine {
        parent: parent.to_string(),
        source_table: table.to_string(),
        amount_type,
        amount_cents: signed.map(|c| c.abs()),
        amount_cents_signed: signed,
    }
}

fn total(name: &str, count: usize, cents: i64) -> NamedTotal {
    NamedTotal { name: name.to_string(), count, cents }
}

#[test]
fn lines_are_summed_by_table() {
    let lines = [
        line("p", "b", 2, Some(10)),
        line("q", "a", 2, Some(-5)),
        line("p", "b", 2, None),
        line("r", "", 2, Some(1)),
        line("p", "b", 2, Some(7)),
    ];
    assert_eq!(
        totals_by_table(&lines),
        Some(vec![total("", 1, 1), total("a", 1, 5), total("b", 3, 17)])
    );
    assert_eq!(count_parents(&lines), 3);
    assert_eq!(grand_total(&lines), Some(23));
    assert_eq!(totals_by_table(&[]), Some(Vec::new()));
    assert_eq!(grand_total(&[]), Some(0));
}

#[test]
fn transactions_are_summed_by_type() {
    let txn = |t: &str, c: i64| ExportedTransaction { txn_type: t.to_string(), total_cents: c };
    let transactions = [txn("unknown", 5), txn("bill", -3), txn("unknown", -9), txn("bill", 3)];
    assert_eq!(
        totals_by_type(&transactions),
        Some(vec![total("bill", 2, 0), total("unknown", 2, -4)])
    );
    let large = [txn("bill", i64::MIN), txn("bill", -1)];
    assert_eq!(totals_by_type(&large), None);
    assert_eq!(totals_by_type(&large[..1]), Some(vec![total("bill", 1, i64::MIN)]));
}

#[test]
fn sums_may_pass_through_what_does_not_fit() {
    let mut lines = vec![line("p", "t", 2, Some(0)); 3];
    lines[0].amount_cents = Some(i64::MAX);
    lines[1].amount_cents = Some(i64::MAX);
    lines[2].amount_cents = Some(-i64::MAX);
    assert_eq!(totals_by_table(&lines), Some(vec![total("t", 3, i64::MAX)]));
    assert_eq!(grand_total(&lines), Some(i64::MAX));
}

#[test]
fn sums_that_do_not_fit_are_not_given() {
    let mut lines = vec![line("p", "t", 2, Some(0)); 2];
    lines[0].amount_cents = Some(i64::MAX);
    lines[1].amount_cents = Some(1);
    assert_eq!(totals_by_table(&lines), None);
    assert_eq!(grand_total(&lines), None);
    // In two tables, each sum fits.
    lines[1].source_table = "u".to_string();
    assert_eq!(totals_by_table(&lines), Some(vec![total("t", 1, i64::MAX), total("u", 1, 1)]));
    assert_eq!(grand_total(&lines), None);
}

#[test]
fn the_tables_with_the_most_transactions_come_first() {
    let mut lines = Vec::new();
    for t in 0..12usize {
        for p in 0..(t % 5) + 1 {
            lines.push(line(&format!("p{p}"), &format!("t{t:02}"), 2, None));
            lines.push(line(&format!("p{p}"), &format!("t{t:02}"), 2, None));
        }
    }
    let top: Vec<(String, usize)> = top_tables(&lines);
    let names: Vec<(&str, usize)> = top.iter().map(|(n, c)| (n.as_str(), *c)).collect();
    assert_eq!(
        names,
        vec![
            ("t04", 5),
            ("t09", 5),
            ("t03", 4),
            ("t08", 4),
            ("t02", 3),
            ("t07", 3),
            ("t01", 2),
            ("t06", 2),
            ("t11", 2),
            ("t00", 1),
        ]
    );
    assert!(top_tables(&[]).is_empty());
}

#[test]
fn journals_balance_when_their_amounts_cancel_out() {
    let j = JOURNAL_TABLE;
    let lines = [
        // A pair that balances.
        line("a", j, 2, Some(500)),
        line("a", j, 2, Some(-500)),
        // A pair that does not.
        line("b", j, 1, Some(500)),
        line("b", j, 1, Some(-400)),
        // Two types make no pair, though they balance.
        line("c", j, 1, Some(5)),
        line("c", j, 2, Some(-5)),
        // Three lines make no pair.
        line("d", j, 2, Some(1)),
        line("d", j, 2, Some(1)),
        line("d", j, 2, Some(-2)),
        // Lines of other types, or without a sign, are left out of the pair.
        line("e", j, 2, Some(7)),
        line("e", j, 3, Some(100)),
        line("e", j, 2, None),
        line("e", j, 2, Some(-7)),
        // Not a journal.
        line("f", "other", 2, Some(1)),
        line("f", "other", 2, Some(-1)),
        // No signed amount at all.
        line("g", j, 2, None),
    ];
    let stats = journal_stats(&lines);
    assert_eq!((stats.pairs, stats.balanced_pairs), (3, 2));
    assert_eq!((stats.journals, stats.balanced_journals), (6, 4));
    let none = journal_stats(&[]);
    assert_eq!((none.pairs, none.journals), (0, 0));
}
