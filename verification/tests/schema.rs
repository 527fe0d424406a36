use openqbw::owner_bridge::BridgeSource;
use openqbw::schema::SchemaRecovery;
use openqbw::syscolumn::SysColumn;

fn recovery_with_ids(ids: &[u32]) -> SchemaRecovery {
    SchemaRecovery {
        table: "abmc_invoice_header".into(),
        in_catalog: true,
        catalog_table_id: Some(5884),
        syscolumn_rows: 5419,
        distinct_owners: 679,
        owner: Some(3073),
        source: Some(BridgeSource::SysTableBackref),
        backref_distance: Some(30),
        bridged_tables: 422,
        from_backref: 421,
        from_sysobject: 0,
        columns: ids
            .iter()
            .map(|id| SysColumn {
                name: format!("c{id}"),
                owner_object_id: 3073,
                column_id: *id,
                nulls_flag: 0,
                domain_char: b'N',
                width: 4,
                page_number: 710,
                tag_offset: 0,
            })
            .collect(),
    }
}

#[test]
fn contiguous_columns_report_no_gaps() {
    let r = recovery_with_ids(&[1, 2, 3, 4]);
    assert_eq!(r.column_id_range(), Some((1, 4)));
    assert_eq!(r.missing_column_ids(), 0);
    assert!(!r.has_column_gaps());
}

#[test]
fn holes_in_the_column_ids_are_counted() {
    let r = recovery_with_ids(&[1, 2, 5, 9]);
    assert_eq!(r.column_id_range(), Some((1, 9)));
    assert_eq!(r.missing_column_ids(), 5);
    assert!(r.has_column_gaps());
}

#[test]
fn a_wild_column_id_does_not_swamp_the_gap_report() {
    // One mis-parsed row claims id 786432.
    let r = recovery_with_ids(&[1, 2, 3, 786_432]);
    assert_eq!(r.column_id_range(), Some((1, 3)));
    assert_eq!(r.missing_column_ids(), 0);
    assert_eq!(r.implausible_column_ids(), 1);
}
