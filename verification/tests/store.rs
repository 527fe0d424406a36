use openqbw::owner_bridge::{
    bridge_from_pages, bridge_owners_via_backref, extend_with_sysobject, BridgeSource,
};
use openqbw::pages::{decode_page, kind_of_stored, PageKind, PAGE_SIZE};
use openqbw::schema::{recover_schema, schema_for, schema_from_rows};
use openqbw::syscolumn::{
    collect_unique, iter_syscolumns, scan_page, unique_columns, SYSCOLUMN_TAG,
};
use openqbw::systable::SysTableEntry;
use opensqlany::{ApModel, PageStore};

/// Hides a plaintext page the way a file does.
fn fill(plain: &[u8], pn: u64, bv: u8, step: u8) -> Vec<u8> {
    let mut raw = plain.to_vec();
    for (i, b) in raw.iter_mut().enumerate().take(0xFF0) {
        let sector = i / 512;
        let base = bv
            .wrapping_add(pn as u8)
            .wrapping_add(sector as u8)
            .wrapping_sub((pn % 16) as u8 / 2 * 4);
        *b = b
            .wrapping_add(base)
            .wrapping_add(((i % 512) as u8).wrapping_mul(step.wrapping_add(sector as u8)));
    }
    raw
}

fn row(name: &str, owner: u32, col_id: u32) -> Vec<u8> {
    let mut v = vec![name.len() as u8];
    v.extend_from_slice(name.as_bytes());
    v.extend_from_slice(&SYSCOLUMN_TAG);
    v.extend_from_slice(&7u32.to_le_bytes());
    v.extend_from_slice(&owner.to_le_bytes());
    v.extend_from_slice(&col_id.to_le_bytes());
    v.extend_from_slice(&[2, 0, 1, b'N', 4]);
    v
}

/// A data page whose slots start with the given rows.
fn data_page(rows: &[Vec<u8>]) -> Vec<u8> {
    let mut plain = vec![0u8; PAGE_SIZE];
    let n = rows.len().max(8);
    let offset = |k: usize| 0x0F00 - 0x0100 * k;
    for k in 0..n {
        let at = 0x24 + 2 * k;
        plain[at..at + 2].copy_from_slice(&(offset(k) as u16).to_le_bytes());
    }
    for (k, r) in rows.iter().enumerate() {
        plain[offset(k)..offset(k) + r.len()].copy_from_slice(r);
    }
    plain[0xFF2] = b'E';
    plain
}

fn empty_page(kind: u8) -> Vec<u8> {
    let mut plain = vec![0u8; PAGE_SIZE];
    plain[0xFF2] = kind;
    plain
}

fn table(name: &str, table_id: u32, page_number: u64, row_offset: usize) -> SysTableEntry {
    SysTableEntry {
        table_id,
        name: name.to_string(),
        col_count: None,
        data_root_page: None,
        last_page: None,
        page_number,
        row_offset,
    }
}

const TABLES: [(&str, u32, usize); 4] =
    [("alpha", 901, 200), ("beta", 902, 400), ("gamma", 903, 600), ("delta", 904, 800)];

/// A page whose catalog rows say which owner each table has.
fn catalog_page() -> Vec<u8> {
    let mut plain = empty_page(b'E');
    for (_, owner, tag) in TABLES {
        plain[tag - 30..tag - 26].copy_from_slice(&u32::to_le_bytes(owner));
    }
    plain
}

fn tables() -> Vec<SysTableEntry> {
    TABLES.iter().enumerate().map(|(i, (n, _, at))| table(n, 10 + i as u32, 3, *at)).collect()
}

/// Page 0 is the superblock; page 1 and page 2 hold columns; page 3 holds the
/// catalog; page 4 is an index page that looks like page 1.
fn store() -> PageStore {
    let first = data_page(&[row("alpha_id", 901, 1), row("alpha_name", 901, 3), row("beta_id", 902, 1)]);
    let second = data_page(&[
        row("alpha_name", 901, 2),
        row("alpha_id", 901, 1),
        row("gamma_id", 903, 1),
        row("delta_id", 904, 1),
    ]);
    let mut index = first.clone();
    index[0xFF2] = b'I';
    let mut bytes = empty_page(b'E');
    bytes.extend(fill(&first, 1, 0x31, 3));
    bytes.extend(fill(&second, 2, 0x77, 9));
    bytes.extend(fill(&catalog_page(), 3, 0x15, 40));
    bytes.extend(fill(&index, 4, 0x31, 5));
    PageStore::from_bytes(bytes).unwrap()
}

#[test]
fn pages_decode_with_a_known_and_with_an_unknown_calibration_byte() {
    let store = store();
    let model = ApModel::learn(&store);
    let plain = catalog_page();
    let known = [None, None, None, Some(0x15)];
    assert_eq!(decode_page(&store, &model, &known, 3).unwrap(), plain);
    assert_eq!(decode_page(&store, &model, &[], 3).unwrap(), plain);
    let wrong = [None, None, None, Some(0x16)];
    assert_ne!(decode_page(&store, &model, &wrong, 3).unwrap(), plain);
    assert_eq!(decode_page(&store, &model, &[], 5), None);
}

#[test]
fn page_kinds_ignore_the_case_of_the_type_byte() {
    let kinds = [
        (b'E', PageKind::Extent),
        (b'e', PageKind::Extent),
        (b'A', PageKind::Alloc),
        (b'm', PageKind::PageTable),
        (b'H', PageKind::Header),
        (b'c', PageKind::Catalog),
        (b'@', PageKind::Bootstrap),
        (b'i', PageKind::Index),
        (b'g', PageKind::UnknownG),
        (b'`', PageKind::Other(b'`')),
        (0, PageKind::Other(0)),
    ];
    let mut bytes = Vec::new();
    for (b, _) in kinds {
        bytes.extend(empty_page(b));
    }
    let store = PageStore::from_bytes(bytes).unwrap();
    for (pn, (_, kind)) in kinds.iter().enumerate() {
        assert_eq!(kind_of_stored(&store, pn as u64), Some(*kind));
    }
    assert_eq!(kind_of_stored(&store, kinds.len() as u64), None);
}

#[test]
fn columns_come_page_by_page_and_by_ascending_row_offset() {
    let store = store();
    let model = ApModel::learn(&store);
    let calibrations: [&[Option<u8>]; 3] = [&[], &[None, Some(0x31)], &[None, Some(0x31), Some(0x77)]];
    for calibration in calibrations {
        let columns = iter_syscolumns(&store, &model, calibration);
        let found: Vec<(&str, u32, u64)> =
            columns.iter().map(|c| (c.name.as_str(), c.column_id, c.page_number)).collect();
        assert_eq!(
            found,
            vec![
                ("beta_id", 1, 1),
                ("alpha_name", 3, 1),
                ("alpha_id", 1, 1),
                ("delta_id", 1, 2),
                ("gamma_id", 1, 2),
                ("alpha_id", 1, 2),
                ("alpha_name", 2, 2),
            ]
        );
    }
}

#[test]
fn a_store_of_one_page_has_no_columns() {
    let store = PageStore::from_bytes(data_page(&[row("alpha_id", 901, 1)])).unwrap();
    let model = ApModel::learn(&store);
    assert!(iter_syscolumns(&store, &model, &[]).is_empty());
}

#[test]
fn a_page_without_a_slot_directory_has_no_columns() {
    let mut out = Vec::new();
    let mut plain = empty_page(b'E');
    let r = row("alpha_id", 901, 1);
    plain[0x800..0x800 + r.len()].copy_from_slice(&r);
    scan_page(&plain, 9, &mut out);
    assert!(out.is_empty());
    scan_page(&data_page(&[r]), 9, &mut out);
    assert_eq!(out.len(), 1);
    assert_eq!(out[0].page_number, 9);
    // The row starts at 0xF00; its tag follows the name and the length byte.
    assert_eq!(out[0].tag_offset, 0xF09);
}

#[test]
fn the_page_holds_each_tag_where_its_row_says() {
    let mut two = row("gamma_id", 903, 1);
    two.extend(row("gamma_name", 903, 2));
    let plain = data_page(&[row("alpha_id", 901, 1), two, row("beta_id", 902, 1)]);
    let mut out = Vec::new();
    scan_page(&plain, 4, &mut out);
    let found: Vec<(&str, usize)> = out.iter().map(|c| (c.name.as_str(), c.tag_offset)).collect();
    assert_eq!(
        found,
        vec![("beta_id", 0xD08), ("gamma_id", 0xE09), ("gamma_name", 0xE2D), ("alpha_id", 0xF09)]
    );
    for c in &out {
        assert_eq!(&plain[c.tag_offset..c.tag_offset + 8], &SYSCOLUMN_TAG);
        assert_eq!(c.page_number, 4);
    }

    let store = store();
    let model = ApModel::learn(&store);
    let mut columns = iter_syscolumns(&store, &model, &[]);
    columns.extend(collect_unique(&store, &model, &[]));
    assert_eq!(columns.len(), 13);
    for c in &columns {
        let page = decode_page(&store, &model, &[], c.page_number).unwrap();
        assert_eq!(&page[c.tag_offset..c.tag_offset + 8], &SYSCOLUMN_TAG);
    }
}

#[test]
fn bytes_past_the_page_are_ignored() {
    let mut plain = data_page(&[row("alpha_id", 901, 1)]);
    plain.extend(vec![0xAA; 100]);
    let mut out = Vec::new();
    scan_page(&plain, 1, &mut out);
    assert_eq!(out.len(), 1);
}

#[test]
fn unique_columns_keep_the_first_row_and_come_in_order() {
    let store = store();
    let model = ApModel::learn(&store);
    let unique = collect_unique(&store, &model, &[]);
    let found: Vec<(u32, u32, &str, u64)> = unique
        .iter()
        .map(|c| (c.owner_object_id, c.column_id, c.name.as_str(), c.page_number))
        .collect();
    assert_eq!(
        found,
        vec![
            (901, 1, "alpha_id", 1),
            (901, 2, "alpha_name", 2),
            (901, 3, "alpha_name", 1),
            (902, 1, "beta_id", 1),
            (903, 1, "gamma_id", 2),
            (904, 1, "delta_id", 2),
        ]
    );
    assert_eq!(unique_columns(&unique), unique);
    assert!(unique_columns(&[]).is_empty());
}

#[test]
fn owners_are_bridged_through_the_catalog_page() {
    let store = store();
    let model = ApModel::learn(&store);
    let columns = iter_syscolumns(&store, &model, &[]);
    let bridge = bridge_owners_via_backref(&store, &model, &[], &columns, &tables());
    assert_eq!(bridge.backref_distance, Some(30));
    assert_eq!(bridge.len(), 4);
    assert_eq!(bridge.tables(), 4);
    assert_eq!(bridge.table_for(903), Some("gamma"));
    assert_eq!(bridge.owners_for("beta"), vec![902]);
    assert_eq!(bridge.source_for(904), Some(BridgeSource::SysTableBackref));
    assert_eq!(bridge.table_for(905), None);
    assert!(!bridge.is_empty());
}

#[test]
fn tables_on_pages_that_are_not_there_are_passed_over() {
    let store = store();
    let model = ApModel::learn(&store);
    let columns = iter_syscolumns(&store, &model, &[]);
    let mut rows = tables();
    rows.push(table("epsilon", 99, 77, 200));
    let bridge = bridge_owners_via_backref(&store, &model, &[], &columns, &rows);
    assert_eq!(bridge.len(), 4);
    for t in rows.iter_mut() {
        t.page_number = 77;
    }
    let bridge = bridge_owners_via_backref(&store, &model, &[], &columns, &rows);
    assert!(bridge.is_empty());
    assert_eq!(bridge.backref_distance, None);
}

#[test]
fn without_columns_or_tables_nothing_is_bridged() {
    let store = store();
    let model = ApModel::learn(&store);
    let columns = iter_syscolumns(&store, &model, &[]);
    assert!(bridge_owners_via_backref(&store, &model, &[], &[], &tables()).is_empty());
    assert!(bridge_owners_via_backref(&store, &model, &[], &columns, &[]).is_empty());
}

#[test]
fn pages_may_be_given_in_any_order() {
    let store = store();
    let model = ApModel::learn(&store);
    let columns = iter_syscolumns(&store, &model, &[]);
    let mut rows = tables();
    rows[0].page_number = 8;
    let one = vec![(3u64, catalog_page()), (8u64, catalog_page())];
    let two = vec![(8u64, catalog_page()), (3u64, catalog_page())];
    for pages in [one, two] {
        let bridge = bridge_from_pages(&columns, &rows, &pages);
        assert_eq!(bridge.len(), 4);
        assert_eq!(bridge.table_for(901), Some("alpha"));
    }
    // Three pairs are too few.
    let bridge = bridge_from_pages(&columns, &rows, &vec![(3u64, catalog_page())]);
    assert!(bridge.is_empty());
}

#[test]
fn scanned_names_fill_gaps_only() {
    let store = store();
    let model = ApModel::learn(&store);
    let columns = iter_syscolumns(&store, &model, &[]);
    let mut bridge = bridge_owners_via_backref(&store, &model, &[], &columns, &tables());
    let scanned = [
        (901u32, "other".to_string()),
        (950, "first".to_string()),
        (950, "second".to_string()),
    ];
    extend_with_sysobject(&mut bridge, &scanned);
    assert_eq!(bridge.table_for(901), Some("alpha"));
    assert_eq!(bridge.table_for(950), Some("first"));
    assert_eq!(bridge.source_for(950), Some(BridgeSource::SysObjectScan));
    assert_eq!((bridge.from_backref, bridge.from_sysobject), (4, 1));
}

#[test]
fn a_schema_is_recovered_in_order_of_the_column_ids() {
    let store = store();
    let model = ApModel::learn(&store);
    let found = recover_schema(&store, &model, &[], &tables(), &[], "alpha");
    assert!(found.in_catalog);
    assert_eq!(found.catalog_table_id, Some(10));
    assert_eq!(found.syscolumn_rows, 7);
    assert_eq!(found.distinct_owners, 4);
    assert_eq!(found.owner, Some(901));
    assert_eq!(found.source, Some(BridgeSource::SysTableBackref));
    assert_eq!(found.backref_distance, Some(30));
    assert_eq!(found.bridged_tables, 4);
    assert_eq!((found.from_backref, found.from_sysobject), (4, 0));
    let columns: Vec<(u32, &str)> =
        found.columns.iter().map(|c| (c.column_id, c.name.as_str())).collect();
    assert_eq!(columns, vec![(1, "alpha_id"), (2, "alpha_name"), (3, "alpha_name")]);
    assert_eq!(schema_for(&store, &model, &[], &tables(), &[], "alpha"), found.columns);
}

#[test]
fn a_table_that_is_not_bridged_falls_back_to_the_scan() {
    let store = store();
    let model = ApModel::learn(&store);
    let scanned = [(903u32, "omega".to_string()), (902, "omega".to_string())];
    let found = recover_schema(&store, &model, &[], &tables(), &scanned, "omega");
    // Both owners were taken by the back-reference.
    assert_eq!(found.owner, None);
    assert!(!found.in_catalog);
    assert_eq!(found.catalog_table_id, None);
    assert!(found.columns.is_empty());
    let none = recover_schema(&store, &model, &[], &[], &scanned, "omega");
    // Without catalog rows the scan decides; both owners have one column each.
    assert_eq!(none.owner, Some(902));
    assert_eq!(none.source, Some(BridgeSource::SysObjectScan));
    assert_eq!(none.backref_distance, None);
    assert_eq!((none.from_backref, none.from_sysobject), (0, 2));
    assert_eq!(none.bridged_tables, 1);
    assert_eq!(none.columns.len(), 1);
    assert_eq!(none.columns[0].name, "beta_id");
}

#[test]
fn the_owner_with_the_most_columns_wins() {
    let store = store();
    let model = ApModel::learn(&store);
    let columns = iter_syscolumns(&store, &model, &[]);
    let mut bridge = bridge_from_pages(&columns, &[], &vec![]);
    for owner in [904u32, 902, 901] {
        bridge.insert(owner, "same".to_string(), BridgeSource::SysTableBackref);
    }
    let found = schema_from_rows(&columns, &[], bridge, &[], "same");
    assert_eq!(found.owner, Some(901));
    assert_eq!(found.columns.len(), 3);
    assert_eq!(found.bridged_tables, 1);
    assert_eq!(found.from_backref, 3);
}
