//! Checking an export: sums by table and by type, and whether journals balance.

use vstd::prelude::*;

use crate::order;
use crate::order::{count_distinct, group_positions, sort_order};
use crate::text;
use crate::text::same_text;

verus! {

/// Table that holds the lines of journals.
pub const JOURNAL_TABLE: &'static str = "abmc_general_journal_inventory_lineitem";

/// Number of tables in the list of those with the most parents.
pub const TOP_TABLES: usize = 10;

/// One exported line item, as far as it is checked.
#[derive(Debug, Clone)]
pub struct ExportedLine {
    /// Id of the transaction.
    pub parent: String,
    /// Table that the line is attributed to.
    pub source_table: String,
    /// Number that stands for the amount type.
    pub amount_type: i64,
    /// Amount in cents, without sign.
    pub amount_cents: Option<i64>,
    /// Amount in cents, with sign.
    pub amount_cents_signed: Option<i64>,
}

/// One exported transaction, as far as it is checked.
#[derive(Debug, Clone)]
pub struct ExportedTransaction {
    /// Type of the transaction.
    pub txn_type: String,
    /// Sum of its line items, in cents.
    pub total_cents: i64,
}

/// A name with a count and a sum.
#[derive(Debug, Clone, PartialEq, Eq)]
pub struct NamedTotal {
    /// The name.
    pub name: String,
    /// The count.
    pub count: usize,
    /// The sum, in cents.
    pub cents: i64,
}

/// A number, zero where there is none.
pub open spec fn or_zero(n: Option<i64>) -> int {
    match n {
        Some(v) => v as int,
        None => 0,
    }
}

/// The sum of numbers; those that are not there count for nothing.
pub open spec fn sum(numbers: Seq<Option<i64>>) -> int
    decreases numbers.len(),
{
    if numbers.len() == 0 {
        0
    } else {
        sum(numbers.drop_last()) + or_zero(numbers.last())
    }
}

proof fn lemma_sum_bound(numbers: Seq<Option<i64>>)
    ensures
        -0x8000_0000_0000_0000 * numbers.len() <= sum(numbers) <= 0x8000_0000_0000_0000
            * numbers.len(),
    decreases numbers.len(),
{
    if numbers.len() > 0 {
        lemma_sum_bound(numbers.drop_last());
    }
}

/// The numbers at some positions.
pub open spec fn at(numbers: Seq<Option<i64>>, positions: Seq<usize>) -> Seq<Option<i64>> {
    order::arranged(numbers, positions)
}

/// Adds up the numbers at some positions.
fn add_up(numbers: &Vec<Option<i64>>, positions: &Vec<usize>) -> (total: i128)
    requires
        forall|i: int| 0 <= i < positions@.len() ==> (#[trigger] positions@[i]) < numbers@.len(),
    ensures
        total == sum(at(numbers@, positions@)),
{
    let ghost mine = at(numbers@, positions@);
    let mut total: i128 = 0;
    for k in 0..positions.len()
        invariant
            mine == at(numbers@, positions@),
            forall|i: int|
                0 <= i < positions@.len() ==> (#[trigger] positions@[i]) < numbers@.len(),
            total == sum(mine.take(k as int)),
            positions.len() == mine.len(),
    {
        proof {
            lemma_sum_bound(mine.take(k as int));
            assert(mine.take(k + 1).drop_last() =~= mine.take(k as int));
            assert(mine.take(k + 1).last() == numbers@[positions@[k as int] as int]);
        }
        if let Some(n) = numbers[positions[k]] {
            total = total + n as i128;
        }
    }
    assert(mine.take(positions@.len() as int) =~= mine);
    total
}

/// The names, each once, in order.
pub open spec fn distinct_names(names: Seq<Seq<char>>) -> Seq<Seq<char>> {
    order::first_positions::<&str>(names).map_values(|p: usize| names[p as int])
}

/// The sum of the numbers that stand beside a name.
pub open spec fn sum_for(names: Seq<Seq<char>>, numbers: Seq<Option<i64>>, name: Seq<char>) -> int {
    sum(at(numbers, order::positions_of::<&str>(names, name)))
}

/// How often a name occurs.
pub open spec fn count_of(names: Seq<Seq<char>>, name: Seq<char>) -> int {
    order::positions_of::<&str>(names, name).len() as int
}

/// `totals` holds every name, in order, with how often it occurs and the sum of the
/// numbers beside it.
pub open spec fn are_totals(
    names: Seq<Seq<char>>,
    numbers: Seq<Option<i64>>,
    totals: Seq<NamedTotal>,
) -> bool {
    &&& totals.len() == distinct_names(names).len()
    &&& forall|g: int|
        0 <= g < totals.len() ==> {
            &&& (#[trigger] totals[g]).name@ == distinct_names(names)[g]
            &&& totals[g].count == count_of(names, totals[g].name@)
            &&& totals[g].cents == sum_for(names, numbers, totals[g].name@)
        }
}

/// The number fits an `i64`.
pub open spec fn fits(n: int) -> bool {
    i64::MIN <= n <= i64::MAX
}

/// The sum for each of the names fits.
pub open spec fn sums_fit(names: Seq<Seq<char>>, numbers: Seq<Option<i64>>) -> bool {
    forall|i: int| 0 <= i < names.len() ==> fits(sum_for(names, numbers, #[trigger] names[i]))
}

fn named_totals(names: &Vec<&str>, numbers: &Vec<Option<i64>>) -> (totals: Option<Vec<NamedTotal>>)
    requires
        names@.len() == numbers@.len(),
    ensures
        totals is Some <==> sums_fit(order::key_views(names@), numbers@),
        totals is Some ==> are_totals(order::key_views(names@), numbers@, totals->0@),
{
    let ghost keys = order::key_views(names@);
    assert(names.len() == keys.len());
    let groups = group_positions(names);
    let mut totals: Vec<NamedTotal> = Vec::new();
    proof {
        order::lemma_first_positions::<&str>(keys);
    }
    for g in 0..groups.len()
        invariant
            keys == order::key_views(names@),
            keys.len() <= usize::MAX,
            names@.len() == numbers@.len(),
            order::is_distinct_order::<&str>(keys, order::first_positions::<&str>(keys)),
            order::is_grouping::<&str>(keys, groups@),
            totals@.len() == g,
            forall|h: int|
                0 <= h < g ==> {
                    &&& (#[trigger] totals@[h]).name@ == distinct_names(keys)[h]
                    &&& totals@[h].count == count_of(keys, totals@[h].name@)
                    &&& totals@[h].cents == sum_for(keys, numbers@, totals@[h].name@)
                },
            forall|h: int|
                0 <= h < g ==> fits(
                    sum_for(keys, numbers@, #[trigger] distinct_names(keys)[h]),
                ),
    {
        let positions = &groups[g];
        let ghost name = distinct_names(keys)[g as int];
        proof {
            order::lemma_group_first::<&str>(keys, groups@, g as int);
            order::lemma_positions::<&str>(keys, name, keys.len() as int);
            assert(positions@ == order::positions_of::<&str>(keys, name));
        }
        let cents: i128 = add_up(numbers, positions);
        assert(cents == sum_for(keys, numbers@, name));
        if cents < i64::MIN as i128 || cents > i64::MAX as i128 {
            assert(name == keys[order::first_positions::<&str>(keys)[g as int] as int]);
            return None;
        }
        totals.push(
            NamedTotal {
                name: names[positions[0]].to_owned(),
                count: positions.len(),
                cents: cents as i64,
            },
        );
    }
    proof {
        let picked = order::first_positions::<&str>(keys);
        assert forall|i: int| 0 <= i < keys.len() implies fits(
            sum_for(keys, numbers@, #[trigger] keys[i]),
        ) by {
            order::lemma_listed::<&str>(keys, picked, i);
            let g = choose|g: int|
                0 <= g < picked.len() && keys[#[trigger] picked[g] as int] == keys[i];
            assert(distinct_names(keys)[g] == keys[i]);
        }
    }
    Some(totals)
}

/// The tables of lines.
pub open spec fn line_tables(lines: Seq<ExportedLine>) -> Seq<Seq<char>> {
    lines.map_values(|l: ExportedLine| l.source_table@)
}

/// The amounts of lines.
pub open spec fn line_amounts(lines: Seq<ExportedLine>) -> Seq<Option<i64>> {
    lines.map_values(|l: ExportedLine| l.amount_cents)
}

/// The transactions of lines.
pub open spec fn line_parents(lines: Seq<ExportedLine>) -> Seq<Seq<char>> {
    lines.map_values(|l: ExportedLine| l.parent@)
}

/// The lines by table: how many, and the sum of their amounts. `None` where a sum does
/// not fit.
pub fn totals_by_table(lines: &[ExportedLine]) -> (totals: Option<Vec<NamedTotal>>)
    ensures
        totals is Some <==> sums_fit(line_tables(lines@), line_amounts(lines@)),
        totals is Some ==> are_totals(line_tables(lines@), line_amounts(lines@), totals->0@),
{
    let mut names: Vec<&str> = Vec::new();
    let mut numbers: Vec<Option<i64>> = Vec::new();
    for k in 0..lines.len()
        invariant
            names@.len() == k,
            numbers@.len() == k,
            forall|i: int| 0 <= i < k ==> (#[trigger] names@[i])@ == lines@[i].source_table@,
            forall|i: int| 0 <= i < k ==> (#[trigger] numbers@[i]) == lines@[i].amount_cents,
    {
        names.push(lines[k].source_table.as_str());
        numbers.push(lines[k].amount_cents);
    }
    assert(order::key_views(names@) =~= line_tables(lines@));
    assert(numbers@ =~= line_amounts(lines@));
    named_totals(&names, &numbers)
}

/// The types of transactions.
pub open spec fn transaction_types(transactions: Seq<ExportedTransaction>) -> Seq<Seq<char>> {
    transactions.map_values(|t: ExportedTransaction| t.txn_type@)
}

/// The sums of transactions.
pub open spec fn transaction_sums(transactions: Seq<ExportedTransaction>) -> Seq<Option<i64>> {
    transactions.map_values(|t: ExportedTransaction| Some(t.total_cents))
}

/// The transactions by type: how many, and what they add up to. `None` where a sum does
/// not fit.
pub fn totals_by_type(transactions: &[ExportedTransaction]) -> (totals: Option<Vec<NamedTotal>>)
    ensures
        totals is Some <==> sums_fit(
            transaction_types(transactions@),
            transaction_sums(transactions@),
        ),
        totals is Some ==> are_totals(
            transaction_types(transactions@),
            transaction_sums(transactions@),
            totals->0@,
        ),
{
    let mut names: Vec<&str> = Vec::new();
    let mut numbers: Vec<Option<i64>> = Vec::new();
    for k in 0..transactions.len()
        invariant
            names@.len() == k,
            numbers@.len() == k,
            forall|i: int| 0 <= i < k ==> (#[trigger] names@[i])@ == transactions@[i].txn_type@,
            forall|i: int|
                0 <= i < k ==> (#[trigger] numbers@[i]) == Some(transactions@[i].total_cents),
    {
        names.push(transactions[k].txn_type.as_str());
        numbers.push(Some(transactions[k].total_cents));
    }
    assert(order::key_views(names@) =~= transaction_types(transactions@));
    assert(numbers@ =~= transaction_sums(transactions@));
    named_totals(&names, &numbers)
}

/// The transactions that have lines in a table.
pub open spec fn parents_in(lines: Seq<ExportedLine>, table: Seq<char>) -> Set<Seq<char>> {
    Set::new(
        |p: Seq<char>|
            exists|i: int|
                0 <= i < lines.len() && (#[trigger] lines[i]).source_table@ == table
                    && lines[i].parent@ == p,
    )
}

/// The tables, in order of their names.
pub open spec fn tables_of(lines: Seq<ExportedLine>) -> Seq<Seq<char>> {
    distinct_names(line_tables(lines))
}

/// A key that sorts tables with more transactions first.
pub open spec fn rank_key(lines: Seq<ExportedLine>, table: Seq<char>) -> u64 {
    (u64::MAX - parents_in(lines, table).len()) as u64
}

/// The tables by the number of their transactions, the most first; tables with as
/// many stay in order of their names.
pub open spec fn ranked_tables(lines: Seq<ExportedLine>) -> Seq<Seq<char>> {
    order::arranged(
        tables_of(lines),
        order::stable_order::<u64>(
            tables_of(lines).map_values(|t: Seq<char>| rank_key(lines, t)),
        ),
    )
}

/// `top` holds the first of the ranked tables, ten at most, with the number of their
/// transactions.
pub open spec fn are_top_tables(lines: Seq<ExportedLine>, top: Seq<(String, usize)>) -> bool {
    &&& top.len() == if ranked_tables(lines).len() < TOP_TABLES {
        ranked_tables(lines).len() as int
    } else {
        TOP_TABLES as int
    }
    &&& forall|k: int|
        0 <= k < top.len() ==> {
            &&& (#[trigger] top[k]).0@ == ranked_tables(lines)[k]
            &&& top[k].1 == parents_in(lines, top[k].0@).len()
        }
}

/// A table has no more transactions than there are lines.
proof fn lemma_parents_in(lines: Seq<ExportedLine>, table: Seq<char>)
    ensures
        parents_in(lines, table).finite(),
        parents_in(lines, table).len() <= lines.len(),
{
    let all = line_parents(lines);
    all.lemma_cardinality_of_set();
    assert(all.to_set().finite()) by {
        vstd::seq_lib::seq_to_set_is_finite(all);
    }
    assert forall|p: Seq<char>| parents_in(lines, table).contains(p) implies all.to_set().contains(
        p,
    ) by {
        let i = choose|i: int|
            0 <= i < lines.len() && (#[trigger] lines[i]).source_table@ == table
                && lines[i].parent@ == p;
        assert(all[i] == p);
    }
    vstd::set_lib::lemma_len_subset(parents_in(lines, table), all.to_set());
}

/// The ranked tables come by descending number of transactions.
pub proof fn lemma_ranked(lines: Seq<ExportedLine>, i: int, j: int)
    requires
        lines.len() <= usize::MAX,
        0 <= i < j < ranked_tables(lines).len(),
    ensures
        parents_in(lines, ranked_tables(lines)[i]).len() >= parents_in(
            lines,
            ranked_tables(lines)[j],
        ).len(),
{
    let keys = line_tables(lines);
    let tables = tables_of(lines);
    let wanted = tables.map_values(|t: Seq<char>| rank_key(lines, t));
    order::lemma_first_positions::<&str>(keys);
    order::lemma_distinct_count::<&str>(keys, order::first_positions::<&str>(keys));
    keys.lemma_cardinality_of_set();
    order::lemma_stable_order::<u64>(wanted);
    let ranked = order::stable_order::<u64>(wanted);
    let a = ranked[i] as int;
    let b = ranked[j] as int;
    assert(order::comes_before::<u64>(wanted, ranked[i] as int, ranked[j] as int));
    assert(wanted[a] == rank_key(lines, tables[a]) && wanted[b] == rank_key(lines, tables[b]));
    lemma_parents_in(lines, tables[a]);
    lemma_parents_in(lines, tables[b]);
}

/// Counts the transactions of the lines at some positions.
fn count_parents_at(
    lines: &[ExportedLine],
    positions: &Vec<usize>,
    Ghost(table): Ghost<Seq<char>>,
) -> (n: usize)
    requires
        lines@.len() <= usize::MAX,
        positions@ == order::positions_of::<&str>(line_tables(lines@), table),
    ensures
        n == parents_in(lines@, table).len(),
        n <= positions@.len(),
{
    let ghost keys = line_tables(lines@);
    proof {
        order::lemma_positions::<&str>(keys, table, keys.len() as int);
        assert(keys.len() == lines@.len());
    }
    let mut parents: Vec<&str> = Vec::new();
    for k in 0..positions.len()
        invariant
            forall|i: int| 0 <= i < positions@.len() ==> (#[trigger] positions@[i]) < lines@.len(),
            parents@.len() == k,
            forall|i: int|
                0 <= i < k ==> (#[trigger] parents@[i])@ == lines@[positions@[i] as int].parent@,
    {
        parents.push(lines[positions[k]].parent.as_str());
    }
    proof {
        let kv = order::key_views(parents@);
        let wanted = parents_in(lines@, table);
        assert forall|p: Seq<char>| kv.to_set().contains(p) <==> wanted.contains(p) by {
            if kv.to_set().contains(p) {
                let i = choose|i: int| 0 <= i < kv.len() && kv[i] == p;
                assert(parents@[i]@ == p);
                let q = positions@[i] as int;
                assert(keys[q] == table);
                assert(lines@[q].source_table@ == table);
            }
            if wanted.contains(p) {
                let q = choose|q: int|
                    0 <= q < lines@.len() && (#[trigger] lines@[q]).source_table@ == table
                        && lines@[q].parent@ == p;
                assert(keys[q] == table);
                let i = choose|i: int| 0 <= i < positions@.len() && positions@[i] == q as usize;
                assert(parents@[i]@ == p);
                assert(kv[i] == p);
            }
        }
        assert(kv.to_set() =~= wanted);
    }
    proof {
        order::key_views(parents@).lemma_cardinality_of_set();
    }
    count_distinct(&parents)
}

/// The tables with the most transactions, ten at most.
pub fn top_tables(lines: &[ExportedLine]) -> (top: Vec<(String, usize)>)
    ensures
        are_top_tables(lines@, top@),
{
    let mut names: Vec<&str> = Vec::new();
    for k in 0..lines.len()
        invariant
            names@.len() == k,
            forall|i: int| 0 <= i < k ==> (#[trigger] names@[i])@ == lines@[i].source_table@,
    {
        names.push(lines[k].source_table.as_str());
    }
    let ghost keys = line_tables(lines@);
    assert(order::key_views(names@) =~= keys);
    assert(lines.len() == keys.len());
    let groups = group_positions(&names);
    let ghost tables = tables_of(lines@);
    let mut firsts: Vec<usize> = Vec::new();
    let mut counts: Vec<usize> = Vec::new();
    let mut ranks: Vec<u64> = Vec::new();
    for g in 0..groups.len()
        invariant
            keys == line_tables(lines@),
            keys.len() == lines@.len(),
            keys.len() <= usize::MAX,
            tables == tables_of(lines@),
            tables.len() == groups@.len(),
            order::is_grouping::<&str>(keys, groups@),
            firsts@.len() == g,
            counts@.len() == g,
            ranks@.len() == g,
            forall|h: int|
                0 <= h < g ==> (#[trigger] firsts@[h]) < lines@.len()
                    && lines@[firsts@[h] as int].source_table@ == tables[h],
            forall|h: int| 0 <= h < g ==> (#[trigger] counts@[h]) == parents_in(lines@, tables[h]).len(),
            forall|h: int| 0 <= h < g ==> (#[trigger] ranks@[h]) == rank_key(lines@, tables[h]),
    {
        let positions = &groups[g];
        let ghost table = tables[g as int];
        proof {
            order::lemma_group_first::<&str>(keys, groups@, g as int);
            order::lemma_positions::<&str>(keys, table, keys.len() as int);
            assert(positions@ == order::positions_of::<&str>(keys, table));
            assert(keys[positions@[0] as int] == table);
        }
        let n: usize = count_parents_at(lines, positions, Ghost(table));
        firsts.push(positions[0]);
        counts.push(n);
        ranks.push(u64::MAX - n as u64);
    }
    let ghost wanted = tables.map_values(|t: Seq<char>| rank_key(lines@, t));
    assert(order::key_views(ranks@) =~= wanted);
    let ranked = sort_order(&ranks);
    let mut top: Vec<(String, usize)> = Vec::new();
    let mut k: usize = 0;
    while k < ranked.len() && k < TOP_TABLES
        invariant
            k <= ranked@.len(),
            k <= TOP_TABLES,
            tables == tables_of(lines@),
            firsts@.len() == tables.len(),
            counts@.len() == tables.len(),
            ranked@ == order::stable_order::<u64>(wanted),
            wanted == tables.map_values(|t: Seq<char>| rank_key(lines@, t)),
            order::is_order_of::<u64>(wanted, 0, wanted.len() as int, ranked@),
            forall|h: int|
                0 <= h < tables.len() ==> (#[trigger] firsts@[h]) < lines@.len()
                    && lines@[firsts@[h] as int].source_table@ == tables[h],
            forall|h: int|
                0 <= h < tables.len() ==> (#[trigger] counts@[h]) == parents_in(
                    lines@,
                    tables[h],
                ).len(),
            top@.len() == k,
            forall|j: int|
                0 <= j < k ==> (#[trigger] top@[j]).0@ == ranked_tables(lines@)[j] && top@[j].1
                    == parents_in(lines@, top@[j].0@).len(),
        decreases TOP_TABLES - k,
    {
        let g: usize = ranked[k];
        assert(firsts@[g as int] < lines@.len());
        assert(ranked_tables(lines@)[k as int] == tables[g as int]);
        top.push((lines[firsts[g]].source_table.as_str().to_owned(), counts[g]));
        k = k + 1;
    }
    assert(ranked_tables(lines@).len() == ranked@.len());
    top
}

/// The number of transactions that lines belong to.
pub fn count_parents(lines: &[ExportedLine]) -> (n: usize)
    ensures
        n == line_parents(lines@).to_set().len(),
{
    let mut parents: Vec<&str> = Vec::new();
    for k in 0..lines.len()
        invariant
            parents@.len() == k,
            forall|i: int| 0 <= i < k ==> (#[trigger] parents@[i])@ == lines@[i].parent@,
    {
        parents.push(lines[k].parent.as_str());
    }
    assert(order::key_views(parents@) =~= line_parents(lines@));
    count_distinct(&parents)
}

/// The sum of the amounts of all lines, `None` where it does not fit.
pub fn grand_total(lines: &[ExportedLine]) -> (cents: Option<i64>)
    ensures
        cents is Some <==> fits(sum(line_amounts(lines@))),
        cents is Some ==> cents->0 == sum(line_amounts(lines@)),
{
    let ghost amounts = line_amounts(lines@);
    let mut total: i128 = 0;
    for k in 0..lines.len()
        invariant
            amounts == line_amounts(lines@),
            lines.len() == amounts.len(),
            total == sum(amounts.take(k as int)),
    {
        proof {
            lemma_sum_bound(amounts.take(k as int));
            assert(amounts.take(k + 1).drop_last() =~= amounts.take(k as int));
            assert(amounts.take(k + 1).last() == lines@[k as int].amount_cents);
        }
        if let Some(n) = lines[k].amount_cents {
            total = total + n as i128;
        }
    }
    assert(amounts.take(lines@.len() as int) =~= amounts);
    if total < i64::MIN as i128 || total > i64::MAX as i128 {
        None
    } else {
        Some(total as i64)
    }
}

/// The test for the lines of one transaction.
pub open spec fn is_of(parent: Seq<char>) -> spec_fn(ExportedLine) -> bool {
    |l: ExportedLine| l.parent@ == parent
}

/// The lines of one transaction, in order.
pub open spec fn lines_of(lines: Seq<ExportedLine>, parent: Seq<char>) -> Seq<ExportedLine> {
    lines.filter(is_of(parent))
}

/// The line is one of a journal.
pub open spec fn is_journal_line(l: ExportedLine) -> bool {
    l.source_table@ == JOURNAL_TABLE@
}

/// The line is one of a journal, with a signed amount of type one or two.
pub open spec fn is_pair_line(l: ExportedLine) -> bool {
    is_journal_line(l) && (l.amount_type == 1 || l.amount_type == 2)
        && l.amount_cents_signed is Some
}

/// The lines of a transaction that are lines of a journal.
pub open spec fn journal_lines(lines: Seq<ExportedLine>) -> Seq<ExportedLine> {
    lines.filter(|l: ExportedLine| is_journal_line(l))
}

/// The lines of a transaction that can make a pair.
pub open spec fn pair_lines(lines: Seq<ExportedLine>) -> Seq<ExportedLine> {
    lines.filter(|l: ExportedLine| is_pair_line(l))
}

/// The sum of signed amounts.
pub open spec fn signed_sum(lines: Seq<ExportedLine>) -> int {
    sum(lines.map_values(|l: ExportedLine| l.amount_cents_signed))
}

/// The lines of a transaction make a pair: two lines of the same type.
pub open spec fn is_pair(lines: Seq<ExportedLine>) -> bool {
    pair_lines(lines).len() == 2 && pair_lines(lines)[0].amount_type
        == pair_lines(lines)[1].amount_type
}

/// The transactions whose journal lines make a pair.
pub open spec fn pairs(lines: Seq<ExportedLine>) -> Set<Seq<char>> {
    Set::new(|p: Seq<char>| is_pair(lines_of(lines, p)))
}

/// The pairs whose amounts cancel out.
pub open spec fn balanced_pairs(lines: Seq<ExportedLine>) -> Set<Seq<char>> {
    Set::new(
        |p: Seq<char>|
            is_pair(lines_of(lines, p)) && signed_sum(pair_lines(lines_of(lines, p))) == 0,
    )
}

/// The transactions that have journal lines.
pub open spec fn journals(lines: Seq<ExportedLine>) -> Set<Seq<char>> {
    Set::new(|p: Seq<char>| journal_lines(lines_of(lines, p)).len() > 0)
}

/// The journals whose amounts cancel out.
pub open spec fn balanced_journals(lines: Seq<ExportedLine>) -> Set<Seq<char>> {
    Set::new(
        |p: Seq<char>|
            journal_lines(lines_of(lines, p)).len() > 0 && signed_sum(
                journal_lines(lines_of(lines, p)),
            ) == 0,
    )
}

/// How many journals there are, and how many balance.
#[derive(Debug, Clone, PartialEq, Eq)]
pub struct JournalStats {
    /// Journals of two lines of the same type.
    pub pairs: usize,
    /// Those whose amounts cancel out.
    pub balanced_pairs: usize,
    /// All journals.
    pub journals: usize,
    /// Those whose amounts cancel out.
    pub balanced_journals: usize,
}

/// What the lines of one transaction say about its journal.
struct JournalFacts {
    is_pair: bool,
    is_journal: bool,
    pair_sum: i128,
    journal_sum: i128,
}

proof fn lemma_filters_push(lines: Seq<ExportedLine>, k: int)
    requires
        0 <= k < lines.len(),
    ensures
        pair_lines(lines.take(k + 1)) == if is_pair_line(lines[k]) {
            pair_lines(lines.take(k)).push(lines[k])
        } else {
            pair_lines(lines.take(k))
        },
        journal_lines(lines.take(k + 1)) == if is_journal_line(lines[k]) {
            journal_lines(lines.take(k)).push(lines[k])
        } else {
            journal_lines(lines.take(k))
        },
        pair_lines(lines.take(k)).len() <= k,
        journal_lines(lines.take(k)).len() <= k,
    decreases k,
{
    reveal(Seq::filter);
    assert(lines.take(k + 1).drop_last() =~= lines.take(k));
    assert(lines.take(k + 1).last() == lines[k]);
    if k > 0 {
        lemma_filters_push(lines, k - 1);
    } else {
        assert(pair_lines(lines.take(0)).len() == 0);
        assert(journal_lines(lines.take(0)).len() == 0);
    }
}

proof fn lemma_signed_push(lines: Seq<ExportedLine>, l: ExportedLine)
    ensures
        signed_sum(lines.push(l)) == signed_sum(lines) + or_zero(l.amount_cents_signed),
        -0x8000_0000_0000_0000 * lines.len() <= signed_sum(lines) <= 0x8000_0000_0000_0000
            * lines.len(),
{
    let amounts = lines.map_values(|l: ExportedLine| l.amount_cents_signed);
    let longer = lines.push(l).map_values(|l: ExportedLine| l.amount_cents_signed);
    assert(longer.drop_last() =~= amounts);
    assert(longer.last() == l.amount_cents_signed);
    lemma_sum_bound(amounts);
}

fn journal_facts(lines: &[ExportedLine], positions: &Vec<usize>) -> (facts: JournalFacts)
    requires
        forall|i: int| 0 <= i < positions@.len() ==> (#[trigger] positions@[i]) < lines@.len(),
    ensures
        ({
            let mine = order::arranged(lines@, positions@);
            &&& facts.is_pair == is_pair(mine)
            &&& facts.is_journal == (journal_lines(mine).len() > 0)
            &&& facts.pair_sum == signed_sum(pair_lines(mine))
            &&& facts.journal_sum == signed_sum(journal_lines(mine))
        }),
{
    let ghost mine = order::arranged(lines@, positions@);
    let mut n: usize = 0;
    let mut first: i64 = 0;
    let mut second: i64 = 0;
    let mut is_journal: bool = false;
    let mut pair_sum: i128 = 0;
    let mut journal_sum: i128 = 0;
    proof {
        reveal(Seq::filter);
        assert(pair_lines(mine.take(0)) =~= Seq::<ExportedLine>::empty());
        assert(journal_lines(mine.take(0)) =~= Seq::<ExportedLine>::empty());
        assert(Seq::<ExportedLine>::empty().map_values(|l: ExportedLine| l.amount_cents_signed)
            =~= Seq::<Option<i64>>::empty());
    }
    for k in 0..positions.len()
        invariant
            mine == order::arranged(lines@, positions@),
            positions.len() == mine.len(),
            forall|i: int| 0 <= i < positions@.len() ==> (#[trigger] positions@[i]) < lines@.len(),
            n == pair_lines(mine.take(k as int)).len(),
            n > 0 ==> first == pair_lines(mine.take(k as int))[0].amount_type,
            n > 1 ==> second == pair_lines(mine.take(k as int))[1].amount_type,
            is_journal == (journal_lines(mine.take(k as int)).len() > 0),
            pair_sum == signed_sum(pair_lines(mine.take(k as int))),
            journal_sum == signed_sum(journal_lines(mine.take(k as int))),
    {
        let l = &lines[positions[k]];
        proof {
            assert(mine[k as int] == *l);
            lemma_filters_push(mine, k as int);
            lemma_signed_push(pair_lines(mine.take(k as int)), *l);
            lemma_signed_push(journal_lines(mine.take(k as int)), *l);
        }
        if same_text(l.source_table.as_str(), JOURNAL_TABLE) {
            is_journal = true;
            if let Some(c) = l.amount_cents_signed {
                journal_sum = journal_sum + c as i128;
                if l.amount_type == 1 || l.amount_type == 2 {
                    if n == 0 {
                        first = l.amount_type;
                    } else if n == 1 {
                        second = l.amount_type;
                    }
                    n = n + 1;
                    pair_sum = pair_sum + c as i128;
                }
            }
        }
    }
    assert(mine.take(positions@.len() as int) =~= mine);
    JournalFacts { is_pair: n == 2 && first == second, is_journal, pair_sum, journal_sum }
}

/// Counts the journals, and those that balance.
pub fn journal_stats(lines: &[ExportedLine]) -> (stats: JournalStats)
    ensures
        stats.pairs == pairs(lines@).len(),
        stats.balanced_pairs == balanced_pairs(lines@).len(),
        stats.journals == journals(lines@).len(),
        stats.balanced_journals == balanced_journals(lines@).len(),
{
    let mut ids: Vec<&str> = Vec::new();
    for k in 0..lines.len()
        invariant
            ids@.len() == k,
            forall|i: int| 0 <= i < k ==> (#[trigger] ids@[i])@ == lines@[i].parent@,
    {
        ids.push(lines[k].parent.as_str());
    }
    let ghost keys = line_parents(lines@);
    assert(order::key_views(ids@) =~= keys);
    assert(lines.len() == keys.len());
    let groups = group_positions(&ids);
    let ghost names = distinct_names(keys);
    let mut stats = JournalStats { pairs: 0, balanced_pairs: 0, journals: 0, balanced_journals: 0 };
    let ghost mut found = (
        Set::<Seq<char>>::empty(),
        Set::<Seq<char>>::empty(),
        Set::<Seq<char>>::empty(),
        Set::<Seq<char>>::empty(),
    );
    for g in 0..groups.len()
        invariant
            keys == line_parents(lines@),
            keys.len() <= usize::MAX,
            keys.len() == lines@.len(),
            names == distinct_names(keys),
            names.len() == groups@.len(),
            order::is_grouping::<&str>(keys, groups@),
            stats.pairs <= g,
            stats.balanced_pairs <= g,
            stats.journals <= g,
            stats.balanced_journals <= g,
            counts_set(found.0, stats.pairs, names, g as int, pairs(lines@)),
            counts_set(found.1, stats.balanced_pairs, names, g as int, balanced_pairs(lines@)),
            counts_set(found.2, stats.journals, names, g as int, journals(lines@)),
            counts_set(found.3, stats.balanced_journals, names, g as int, balanced_journals(lines@)),
    {
        let ghost p = names[g as int];
        proof {
            lemma_lines_of_group(lines@, groups@, g as int);
        }
        let facts = journal_facts(lines, &groups[g]);
        proof {
            lemma_counts_next(found.0, stats.pairs, names, keys, g as int, pairs(lines@));
            lemma_counts_next(
                found.1,
                stats.balanced_pairs,
                names,
                keys,
                g as int,
                balanced_pairs(lines@),
            );
            lemma_counts_next(found.2, stats.journals, names, keys, g as int, journals(lines@));
            lemma_counts_next(
                found.3,
                stats.balanced_journals,
                names,
                keys,
                g as int,
                balanced_journals(lines@),
            );
        }
        if facts.is_pair {
            stats.pairs = stats.pairs + 1;
            proof {
                found.0 = found.0.insert(p);
            }
            if facts.pair_sum == 0 {
                stats.balanced_pairs = stats.balanced_pairs + 1;
                proof {
                    found.1 = found.1.insert(p);
                }
            }
        }
        if facts.is_journal {
            stats.journals = stats.journals + 1;
            proof {
                found.2 = found.2.insert(p);
            }
            if facts.journal_sum == 0 {
                stats.balanced_journals = stats.balanced_journals + 1;
                proof {
                    found.3 = found.3.insert(p);
                }
            }
        }
    }
    proof {
        assert forall|p: Seq<char>|
            pairs(lines@).contains(p) || journals(lines@).contains(p) implies names.contains(p) by {
            lemma_has_lines(lines@, p);
        }
        lemma_counts_done(found.0, stats.pairs, names, pairs(lines@));
        lemma_counts_done(found.1, stats.balanced_pairs, names, balanced_pairs(lines@));
        lemma_counts_done(found.2, stats.journals, names, journals(lines@));
        lemma_counts_done(found.3, stats.balanced_journals, names, balanced_journals(lines@));
    }
    stats
}

/// `found` are those of the first `g` names that are in `wanted`, and `n` is their
/// number.
spec fn counts_set(
    found: Set<Seq<char>>,
    n: usize,
    names: Seq<Seq<char>>,
    g: int,
    wanted: Set<Seq<char>>,
) -> bool {
    &&& found.finite()
    &&& n == found.len()
    &&& forall|p: Seq<char>| #[trigger]
        found.contains(p) <==> wanted.contains(p) && is_among(names, g, p)
}

spec fn is_among(names: Seq<Seq<char>>, g: int, p: Seq<char>) -> bool {
    exists|i: int| 0 <= i < g && #[trigger] names[i] == p
}

proof fn lemma_counts_next(
    found: Set<Seq<char>>,
    n: usize,
    names: Seq<Seq<char>>,
    keys: Seq<Seq<char>>,
    g: int,
    wanted: Set<Seq<char>>,
)
    requires
        keys.len() <= usize::MAX,
        names == distinct_names(keys),
        0 <= g < names.len(),
        counts_set(found, n, names, g, wanted),
    ensures
        !found.contains(names[g]),
        forall|p: Seq<char>| #[trigger]
            is_among(names, g + 1, p) <==> is_among(names, g, p) || p == names[g],
{
    order::lemma_first_positions::<&str>(keys);
    let picked = order::first_positions::<&str>(keys);
    if is_among(names, g, names[g]) {
        let i = choose|i: int| 0 <= i < g && #[trigger] names[i] == names[g];
        assert(keys[picked[i] as int] != keys[picked[g] as int]);
    }
    assert forall|p: Seq<char>| #[trigger] is_among(names, g + 1, p) <==> is_among(names, g, p) || p
        == names[g] by {
        if is_among(names, g + 1, p) {
            let i = choose|i: int| 0 <= i < g + 1 && #[trigger] names[i] == p;
            if i < g {
                assert(names[i] == p);
            }
        }
        if is_among(names, g, p) {
            let i = choose|i: int| 0 <= i < g && #[trigger] names[i] == p;
            assert(names[i] == p);
        }
    }
}

proof fn lemma_counts_done(
    found: Set<Seq<char>>,
    n: usize,
    names: Seq<Seq<char>>,
    wanted: Set<Seq<char>>,
)
    requires
        counts_set(found, n, names, names.len() as int, wanted),
        forall|p: Seq<char>| #[trigger] wanted.contains(p) ==> names.contains(p),
    ensures
        wanted.finite(),
        n == wanted.len(),
{
    assert forall|p: Seq<char>| found.contains(p) <==> wanted.contains(p) by {
        if wanted.contains(p) {
            let i = choose|i: int| 0 <= i < names.len() && names[i] == p;
            assert(is_among(names, names.len() as int, p));
        }
    }
    assert(found =~= wanted);
}

/// The lines at the positions of a group are those of its transaction.
proof fn lemma_lines_of_group(lines: Seq<ExportedLine>, groups: Seq<Vec<usize>>, g: int)
    requires
        lines.len() <= usize::MAX,
        order::is_grouping::<&str>(line_parents(lines), groups),
        0 <= g < groups.len(),
    ensures
        order::arranged(lines, groups[g]@) == lines_of(lines, distinct_names(line_parents(lines))[g]),
        forall|i: int| 0 <= i < groups[g]@.len() ==> (#[trigger] groups[g]@[i]) < lines.len(),
{
    let keys = line_parents(lines);
    let p = distinct_names(keys)[g];
    order::lemma_positions::<&str>(keys, p, keys.len() as int);
    order::lemma_positions_filter::<&str, ExportedLine>(
        lines,
        keys,
        p,
        is_of(p),
        lines.len() as int,
    );
    assert(lines.take(lines.len() as int) =~= lines);
    assert(groups[g]@ == order::positions_of::<&str>(keys, p));
}

/// A transaction with journal lines is one of those that lines belong to.
proof fn lemma_has_lines(lines: Seq<ExportedLine>, p: Seq<char>)
    requires
        lines.len() <= usize::MAX,
        pairs(lines).contains(p) || journals(lines).contains(p),
    ensures
        distinct_names(line_parents(lines)).contains(p),
{
    let mine = lines_of(lines, p);
    mine.filter_lemma(|l: ExportedLine| is_pair_line(l));
    mine.filter_lemma(|l: ExportedLine| is_journal_line(l));
    assert(mine.len() > 0) by {
        reveal(Seq::filter);
    }
    let q = lemma_line_of(lines, p);
    let keys = line_parents(lines);
    let picked = order::first_positions::<&str>(keys);
    order::lemma_first_positions::<&str>(keys);
    assert(keys.len() == lines.len() && keys[q] == p);
    order::lemma_listed::<&str>(keys, picked, q);
    let g = choose|g: int| 0 <= g < picked.len() && keys[#[trigger] picked[g] as int] == keys[q];
    assert(distinct_names(keys)[g] == p);
}

proof fn lemma_line_of(lines: Seq<ExportedLine>, p: Seq<char>) -> (q: int)
    requires
        lines_of(lines, p).len() > 0,
    ensures
        0 <= q < lines.len(),
        lines[q].parent@ == p,
    decreases lines.len(),
{
    reveal(Seq::filter);
    if lines.last().parent@ == p {
        lines.len() - 1
    } else {
        lemma_line_of(lines.drop_last(), p)
    }
}

/// Journals that make a pair are journals, and a pair that balances is one.
pub proof fn lemma_pairs_are_journals(lines: Seq<ExportedLine>, p: Seq<char>)
    ensures
        balanced_pairs(lines).contains(p) ==> pairs(lines).contains(p),
        pairs(lines).contains(p) ==> journals(lines).contains(p),
        balanced_journals(lines).contains(p) ==> journals(lines).contains(p),
{
    lemma_pair_lines_are_journal_lines(lines_of(lines, p));
}

proof fn lemma_pair_lines_are_journal_lines(lines: Seq<ExportedLine>)
    ensures
        pair_lines(lines).len() <= journal_lines(lines).len(),
    decreases lines.len(),
{
    reveal(Seq::filter);
    if lines.len() > 0 {
        lemma_pair_lines_are_journal_lines(lines.drop_last());
    }
}

/// One more number adds exactly itself to a sum, and nothing where it is not there; the
/// sum of no numbers is zero.
pub proof fn lemma_one_more_number(numbers: Seq<Option<i64>>, n: Option<i64>)
    ensures
        n is Some ==> sum(numbers.push(n)) == sum(numbers) + n->0,
        n is None ==> sum(numbers.push(n)) == sum(numbers),
        sum(Seq::empty()) == 0,
{
    assert(numbers.push(n).drop_last() =~= numbers);
}

/// One more pair of a name and a number adds the number to the sum for that name, and
/// one to the count of that name, and leaves the other names as they were.
proof fn lemma_one_more_named(
    names: Seq<Seq<char>>,
    numbers: Seq<Option<i64>>,
    name: Seq<char>,
    number: Option<i64>,
    n: Seq<char>,
)
    requires
        names.len() == numbers.len(),
        names.len() < usize::MAX,
    ensures
        sum_for(names.push(name), numbers.push(number), n) == sum_for(names, numbers, n) + if n
            == name {
            or_zero(number)
        } else {
            0
        },
        count_of(names.push(name), n) == count_of(names, n) + if n == name {
            1int
        } else {
            0
        },
{
    let k = names.len() as int;
    let all = names.push(name);
    order::lemma_positions_prefix::<&str>(names, name, n, k);
    order::lemma_positions::<&str>(names, n, k);
    let before = order::positions_of::<&str>(names, n);
    let after = order::positions_of::<&str>(all, n);
    assert(all[k] == name);
    assert(at(numbers.push(number), before) =~= at(numbers, before)) by {
        assert forall|i: int| 0 <= i < before.len() implies numbers.push(number)[before[i] as int]
            == numbers[before[i] as int] by {
            assert(before[i] < k);
        }
    }
    if n == name {
        assert(after == before.push(k as usize));
        assert(at(numbers.push(number), after) =~= at(numbers, before).push(number));
        lemma_one_more_number(at(numbers, before), number);
    } else {
        assert(after == before);
    }
}

/// Every exported line with an amount adds exactly that amount to the grand total and to
/// the sum of its table, and one to the lines of its table, whatever else it holds, its
/// kind of amount included. A line without an amount adds nothing to the sums.
pub proof fn lemma_one_more_exported_line(
    lines: Seq<ExportedLine>,
    l: ExportedLine,
    table: Seq<char>,
)
    requires
        lines.len() < usize::MAX,
    ensures
        sum(line_amounts(lines.push(l))) == sum(line_amounts(lines)) + match l.amount_cents {
            Some(c) => c as int,
            None => 0,
        },
        sum_for(line_tables(lines.push(l)), line_amounts(lines.push(l)), table) == sum_for(
            line_tables(lines),
            line_amounts(lines),
            table,
        ) + match l.amount_cents {
            Some(c) => if l.source_table@ == table {
                c as int
            } else {
                0
            },
            None => 0,
        },
        count_of(line_tables(lines.push(l)), table) == count_of(line_tables(lines), table)
            + if l.source_table@ == table {
            1int
        } else {
            0
        },
        sum(line_amounts(Seq::empty())) == 0,
        sum_for(line_tables(Seq::empty()), line_amounts(Seq::empty()), table) == 0,
        count_of(line_tables(Seq::empty()), table) == 0,
{
    assert(line_amounts(lines.push(l)) =~= line_amounts(lines).push(l.amount_cents));
    assert(line_tables(lines.push(l)) =~= line_tables(lines).push(l.source_table@));
    lemma_one_more_number(line_amounts(lines), l.amount_cents);
    lemma_one_more_named(
        line_tables(lines),
        line_amounts(lines),
        l.source_table@,
        l.amount_cents,
        table,
    );
    let none = Seq::<ExportedLine>::empty();
    assert(line_tables(none).len() == 0 && line_amounts(none).len() == 0);
    assert(at(line_amounts(none), order::positions_of::<&str>(line_tables(none), table)).len()
        == 0);
}

/// Lists of lines that agree, line by line, in table and amount have the same totals.
pub proof fn lemma_totals_of_amounts(
    a: Seq<ExportedLine>,
    b: Seq<ExportedLine>,
    totals: Seq<NamedTotal>,
)
    requires
        a.len() == b.len(),
        forall|i: int|
            0 <= i < a.len() ==> (#[trigger] a[i]).source_table@ == (#[trigger] b[i]).source_table@
                && a[i].amount_cents == b[i].amount_cents,
    ensures
        sum(line_amounts(a)) == sum(line_amounts(b)),
        are_totals(line_tables(a), line_amounts(a), totals) == are_totals(
            line_tables(b),
            line_amounts(b),
            totals,
        ),
        sums_fit(line_tables(a), line_amounts(a)) == sums_fit(line_tables(b), line_amounts(b)),
{
    assert forall|i: int| 0 <= i < a.len() implies line_tables(a)[i] == line_tables(b)[i]
        && line_amounts(a)[i] == line_amounts(b)[i] by {
        assert(a[i].source_table@ == b[i].source_table@);
    }
    assert(line_tables(a) =~= line_tables(b));
    assert(line_amounts(a) =~= line_amounts(b));
}

/// Every exported transaction adds exactly its total to the sum of its type, and one to
/// the transactions of its type.
pub proof fn lemma_one_more_transaction(
    transactions: Seq<ExportedTransaction>,
    t: ExportedTransaction,
    ttype: Seq<char>,
)
    requires
        transactions.len() < usize::MAX,
    ensures
        sum_for(
            transaction_types(transactions.push(t)),
            transaction_sums(transactions.push(t)),
            ttype,
        ) == sum_for(transaction_types(transactions), transaction_sums(transactions), ttype)
            + if t.txn_type@ == ttype {
            t.total_cents as int
        } else {
            0
        },
        count_of(transaction_types(transactions.push(t)), ttype) == count_of(
            transaction_types(transactions),
            ttype,
        ) + if t.txn_type@ == ttype {
            1int
        } else {
            0
        },
        sum_for(transaction_types(Seq::empty()), transaction_sums(Seq::empty()), ttype) == 0,
        count_of(transaction_types(Seq::empty()), ttype) == 0,
{
    assert(transaction_sums(transactions.push(t)) =~= transaction_sums(transactions).push(
        Some(t.total_cents),
    ));
    assert(transaction_types(transactions.push(t)) =~= transaction_types(transactions).push(
        t.txn_type@,
    ));
    lemma_one_more_named(
        transaction_types(transactions),
        transaction_sums(transactions),
        t.txn_type@,
        Some(t.total_cents),
        ttype,
    );
    let none = Seq::<ExportedTransaction>::empty();
    assert(transaction_types(none).len() == 0 && transaction_sums(none).len() == 0);
    assert(at(
        transaction_sums(none),
        order::positions_of::<&str>(transaction_types(none), ttype),
    ).len() == 0);
}

/// One of the totals is that of the name.
pub open spec fn has_total(totals: Seq<NamedTotal>, name: Seq<char>) -> bool {
    exists|g: int| 0 <= g < totals.len() && (#[trigger] totals[g]).name@ == name
}

/// The totals hold every name that occurs, and no other, once and in order, with how
/// often it occurs and the sum of the numbers beside it.
pub proof fn lemma_totals(
    names: Seq<Seq<char>>,
    numbers: Seq<Option<i64>>,
    totals: Seq<NamedTotal>,
)
    requires
        names.len() <= usize::MAX,
        are_totals(names, numbers, totals),
    ensures
        forall|p: int| 0 <= p < names.len() ==> #[trigger] has_total(totals, names[p]),
        forall|g: int| 0 <= g < totals.len() ==> names.contains((#[trigger] totals[g]).name@),
        forall|g: int, h: int|
            0 <= g < h < totals.len() ==> (#[trigger] totals[g]).name@ != (
            #[trigger] totals[h]).name@ && text::text_le(totals[g].name@, totals[h].name@),
        forall|g: int|
            0 <= g < totals.len() ==> (#[trigger] totals[g]).count == count_of(
                names,
                totals[g].name@,
            ) && totals[g].cents == sum_for(names, numbers, totals[g].name@),
{
    order::lemma_first_positions::<&str>(names);
    let picked = order::first_positions::<&str>(names);
    assert forall|g: int| 0 <= g < totals.len() implies (#[trigger] totals[g]).name@
        == names[picked[g] as int] && picked[g] < names.len() by {
        assert(distinct_names(names)[g] == names[picked[g] as int]);
    }
    assert forall|p: int| 0 <= p < names.len() implies #[trigger] has_total(totals, names[p]) by {
        order::lemma_listed::<&str>(names, picked, p);
        let g = choose|g: int|
            0 <= g < picked.len() && names[#[trigger] picked[g] as int] == names[p];
        assert(totals[g].name@ == names[p]);
    }
    assert forall|g: int, h: int| 0 <= g < h < totals.len() implies (#[trigger] totals[g]).name@ != (
    #[trigger] totals[h]).name@ && text::text_le(totals[g].name@, totals[h].name@) by {
        assert(totals[g].name@ == names[picked[g] as int] && totals[h].name@
            == names[picked[h] as int]);
        assert(<&str as order::SortKey>::key_le(names[picked[g] as int], names[picked[h] as int]));
    }
}

/// One more line puts its transaction among those of its table, and changes nothing for
/// the other tables.
pub proof fn lemma_one_more_parent(lines: Seq<ExportedLine>, l: ExportedLine, table: Seq<char>)
    ensures
        parents_in(lines.push(l), table) == if l.source_table@ == table {
            parents_in(lines, table).insert(l.parent@)
        } else {
            parents_in(lines, table)
        },
        line_parents(lines.push(l)).to_set() == line_parents(lines).to_set().insert(l.parent@),
        parents_in(Seq::empty(), table) == Set::<Seq<char>>::empty(),
        line_parents(Seq::empty()).len() == 0,
{
    let all = lines.push(l);
    let wanted = if l.source_table@ == table {
        parents_in(lines, table).insert(l.parent@)
    } else {
        parents_in(lines, table)
    };
    assert forall|p: Seq<char>| parents_in(all, table).contains(p) <==> wanted.contains(p) by {
        if parents_in(all, table).contains(p) {
            let i = choose|i: int|
                0 <= i < all.len() && (#[trigger] all[i]).source_table@ == table && all[i].parent@
                    == p;
            if i < lines.len() {
                assert(lines[i].source_table@ == table);
            }
        }
        if parents_in(lines, table).contains(p) {
            let i = choose|i: int|
                0 <= i < lines.len() && (#[trigger] lines[i]).source_table@ == table
                    && lines[i].parent@ == p;
            assert(all[i].source_table@ == table);
        }
        if l.source_table@ == table && p == l.parent@ {
            assert(all[lines.len() as int].source_table@ == table);
        }
    }
    assert(parents_in(all, table) =~= wanted);
    let ids = line_parents(lines);
    assert(line_parents(all) =~= ids.push(l.parent@));
    assert(ids.push(l.parent@).to_set() =~= ids.to_set().insert(l.parent@)) by {
        assert forall|p: Seq<char>| ids.push(l.parent@).to_set().contains(p) <==> ids.to_set().insert(
            l.parent@,
        ).contains(p) by {
            if ids.to_set().contains(p) {
                let i = choose|i: int| 0 <= i < ids.len() && ids[i] == p;
                assert(ids.push(l.parent@)[i] == p);
            }
            if p == l.parent@ {
                assert(ids.push(l.parent@)[ids.len() as int] == p);
            }
        }
    }
    assert(parents_in(Seq::empty(), table) =~= Set::<Seq<char>>::empty());
}

/// The tables at the top: ten of them, or all where there are fewer, each with the number
/// of its transactions; they come by that number, the largest first, and by name where it
/// is the same; and every table that is not among them comes after all of them.
pub proof fn lemma_top_tables(lines: Seq<ExportedLine>, top: Seq<(String, usize)>, t: int)
    requires
        lines.len() <= usize::MAX,
        are_top_tables(lines, top),
        0 <= t < lines.len(),
    ensures
        top.len() <= 10,
        forall|k: int|
            0 <= k < top.len() ==> (#[trigger] top[k]).1 == parents_in(lines, top[k].0@).len(),
        forall|j: int, k: int|
            0 <= j < k < top.len() ==> (#[trigger] top[j]).1 > (#[trigger] top[k]).1 || (top[j].1
                == top[k].1 && top[j].0@ != top[k].0@ && text::text_le(top[j].0@, top[k].0@)),
        is_at_top(top, lines[t].source_table@) || (top.len() == 10 && forall|k: int|
            0 <= k < top.len() ==> (#[trigger] top[k]).1 > parents_in(
                lines,
                lines[t].source_table@,
            ).len() || (top[k].1 == parents_in(lines, lines[t].source_table@).len()
                && text::text_le(top[k].0@, lines[t].source_table@))),
{
    let keys = line_tables(lines);
    let tables = tables_of(lines);
    let picked = order::first_positions::<&str>(keys);
    let wanted = tables.map_values(|x: Seq<char>| rank_key(lines, x));
    let ranked = order::stable_order::<u64>(wanted);
    order::lemma_first_positions::<&str>(keys);
    order::lemma_distinct_count::<&str>(keys, picked);
    keys.lemma_cardinality_of_set();
    order::lemma_stable_order::<u64>(wanted);
    assert forall|j: int, k: int| 0 <= j < k < ranked.len() implies {
        let a = #[trigger] ranked[j] as int;
        let b = #[trigger] ranked[k] as int;
        parents_in(lines, tables[a]).len() > parents_in(lines, tables[b]).len() || (parents_in(
            lines,
            tables[a],
        ).len() == parents_in(lines, tables[b]).len() && tables[a] != tables[b] && text::text_le(
            tables[a],
            tables[b],
        ))
    } by {
        let a = ranked[j] as int;
        let b = ranked[k] as int;
        assert(order::comes_before::<u64>(wanted, ranked[j] as int, ranked[k] as int));
        assert(wanted[a] == rank_key(lines, tables[a]) && wanted[b] == rank_key(lines, tables[b]));
        lemma_parents_in(lines, tables[a]);
        lemma_parents_in(lines, tables[b]);
        if parents_in(lines, tables[a]).len() == parents_in(lines, tables[b]).len() {
            assert(a < b);
            assert(tables[a] == keys[picked[a] as int] && tables[b] == keys[picked[b] as int]);
            assert(<&str as order::SortKey>::key_le(keys[picked[a] as int], keys[picked[b] as int]));
        }
    }
    assert forall|k: int| 0 <= k < top.len() implies (#[trigger] top[k]).0@ == tables[ranked[k] as int] by {
        assert(ranked_tables(lines)[k] == tables[ranked[k] as int]);
    }
    let name = lines[t].source_table@;
    assert(keys[t] == name);
    order::lemma_listed::<&str>(keys, picked, t);
    let g = choose|g: int| 0 <= g < picked.len() && keys[#[trigger] picked[g] as int] == keys[t];
    assert(tables[g] == name);
    order::lemma_order_complete::<u64>(wanted, 0, wanted.len() as int, ranked, g);
    let r = choose|r: int| 0 <= r < ranked.len() && ranked[r] == g as usize;
    assert(ranked[r] as int == g);
    assert(ranked_tables(lines).len() == ranked.len());
    if r < top.len() {
        assert(top[r].0@ == name);
    } else {
        assert(top.len() == 10);
        assert forall|k: int| 0 <= k < top.len() implies (#[trigger] top[k]).1 > parents_in(
            lines,
            name,
        ).len() || (top[k].1 == parents_in(lines, name).len() && text::text_le(top[k].0@, name)) by {
            assert(top[k].0@ == tables[ranked[k] as int]);
            let a = ranked[k];
            let b = ranked[r];
        }
    }
    assert forall|j: int, k: int| 0 <= j < k < top.len() implies (#[trigger] top[j]).1 > (
    #[trigger] top[k]).1 || (top[j].1 == top[k].1 && top[j].0@ != top[k].0@ && text::text_le(
        top[j].0@,
        top[k].0@,
    )) by {
        assert(top[j].0@ == tables[ranked[j] as int] && top[k].0@ == tables[ranked[k] as int]);
        let a = ranked[j];
        let b = ranked[k];
    }
}

/// The table is one of those at the top.
pub open spec fn is_at_top(top: Seq<(String, usize)>, table: Seq<char>) -> bool {
    exists|k: int| 0 <= k < top.len() && (#[trigger] top[k]).0@ == table
}

proof fn lemma_filter_twice(
    lines: Seq<ExportedLine>,
    p: spec_fn(ExportedLine) -> bool,
    q: spec_fn(ExportedLine) -> bool,
    both: spec_fn(ExportedLine) -> bool,
)
    requires
        forall|l: ExportedLine| #[trigger] both(l) == (p(l) && q(l)),
    ensures
        lines.filter(p).filter(q) == lines.filter(both),
    decreases lines.len(),
{
    reveal(Seq::filter);
    if lines.len() > 0 {
        lemma_filter_twice(lines.drop_last(), p, q, both);
        assert(both(lines.last()) == (p(lines.last()) && q(lines.last())));
        if p(lines.last()) {
            let rest = lines.drop_last().filter(p);
            assert(rest.push(lines.last()).drop_last() =~= rest);
        }
    }
}

/// A transaction makes a pair exactly if, of its lines in the table of journals, two have
/// a signed amount of type one or two, and both are of the same type; the pair balances
/// exactly if those two amounts cancel out.
pub proof fn lemma_journal_pair(lines: Seq<ExportedLine>, parent: Seq<char>)
    ensures
        ({
            let mine = lines.filter(
                |l: ExportedLine|
                    l.parent@ == parent && l.source_table@
                        == "abmc_general_journal_inventory_lineitem"@ && (l.amount_type == 1
                        || l.amount_type == 2) && l.amount_cents_signed is Some,
            );
            &&& pairs(lines).contains(parent) <==> mine.len() == 2 && mine[0].amount_type
                == mine[1].amount_type
            &&& balanced_pairs(lines).contains(parent) <==> mine.len() == 2 && mine[0].amount_type
                == mine[1].amount_type && mine[0].amount_cents_signed->0
                + mine[1].amount_cents_signed->0 == 0
        }),
{
    let both = |l: ExportedLine|
        l.parent@ == parent && l.source_table@ == "abmc_general_journal_inventory_lineitem"@ && (
        l.amount_type == 1 || l.amount_type == 2) && l.amount_cents_signed is Some;
    let mine = lines.filter(both);
    lemma_filter_twice(lines, is_of(parent), |l: ExportedLine| is_pair_line(l), both);
    assert(pair_lines(lines_of(lines, parent)) == mine);
    if mine.len() == 2 {
        let amounts = mine.map_values(|l: ExportedLine| l.amount_cents_signed);
        let none = Seq::<Option<i64>>::empty();
        lines.filter_lemma(both);
        assert(both(mine[0]) && both(mine[1]));
        assert(amounts =~= none.push(mine[0].amount_cents_signed).push(
            mine[1].amount_cents_signed,
        ));
        lemma_one_more_number(none, mine[0].amount_cents_signed);
        lemma_one_more_number(
            none.push(mine[0].amount_cents_signed),
            mine[1].amount_cents_signed,
        );
    }
}

/// A transaction is a journal exactly if it has lines in the table of journals; it
/// balances exactly if their signed amounts, those without one left out, cancel out.
pub proof fn lemma_journal(lines: Seq<ExportedLine>, parent: Seq<char>)
    ensures
        ({
            let mine = lines.filter(
                |l: ExportedLine|
                    l.parent@ == parent && l.source_table@
                        == "abmc_general_journal_inventory_lineitem"@,
            );
            &&& journals(lines).contains(parent) <==> mine.len() > 0
            &&& balanced_journals(lines).contains(parent) <==> mine.len() > 0 && sum(
                mine.map_values(|l: ExportedLine| l.amount_cents_signed),
            ) == 0
        }),
{
    let both = |l: ExportedLine|
        l.parent@ == parent && l.source_table@ == "abmc_general_journal_inventory_lineitem"@;
    lemma_filter_twice(lines, is_of(parent), |l: ExportedLine| is_journal_line(l), both);
    assert(journal_lines(lines_of(lines, parent)) == lines.filter(both));
}

/// A sum fits exactly if it is a signed number of 64 bits, and sums fit exactly if the sum
/// of every name does.
pub proof fn lemma_fits(names: Seq<Seq<char>>, numbers: Seq<Option<i64>>, n: int)
    ensures
        fits(n) <==> -0x8000_0000_0000_0000 <= n <= 0x7FFF_FFFF_FFFF_FFFF,
        sums_fit(names, numbers) <==> forall|i: int|
            0 <= i < names.len() ==> -0x8000_0000_0000_0000 <= sum_for(
                names,
                numbers,
                #[trigger] names[i],
            ) <= 0x7FFF_FFFF_FFFF_FFFF,
{
}

} // verus!
