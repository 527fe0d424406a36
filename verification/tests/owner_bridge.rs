use std::collections::HashSet;

use openqbw::owner_bridge::{
    backref_at, BackrefVotes, BridgeSource, OwnerBridge, DEFAULT_BACKREF_DISTANCE,
};

/// Lay a `SYSTABLE`-shaped row into `page` at `tag`, with `owner`
/// planted `DEFAULT_BACKREF_DISTANCE` bytes before the tag.
fn plant_row(page: &mut [u8], tag: usize, owner: u32, tid: u32, name: &str) {
    page[tag - DEFAULT_BACKREF_DISTANCE..tag - DEFAULT_BACKREF_DISTANCE + 4]
        .copy_from_slice(&owner.to_le_bytes());
    page[tag..tag + 4].copy_from_slice(&5u32.to_le_bytes());
    page[tag + 4..tag + 8].copy_from_slice(&tid.to_le_bytes());
    page[tag + 20] = name.len() as u8;
    page[tag + 21..tag + 21 + name.len()].copy_from_slice(name.as_bytes());
}

fn owner_set(owners: &[u32]) -> HashSet<u32> {
    owners.iter().copied().collect()
}

#[test]
fn backref_reads_the_u32_before_the_row() {
    let mut page = vec![0u8; 256];
    page[100..104].copy_from_slice(&3073u32.to_le_bytes());
    assert_eq!(backref_at(&page, 130, 30), Some(3073));
    assert_eq!(backref_at(&page, 130, 29), Some(3073 >> 8));
    // A distance that would run off the front of the page is not a
    // candidate rather than a panic.
    assert_eq!(backref_at(&page, 8, 30), None);
}

#[test]
fn calibration_finds_the_planted_distance() {
    let mut page = vec![0u8; 0x1000];
    plant_row(&mut page, 200, 3073, 5884, "abmc_invoice_header");
    plant_row(&mut page, 400, 3074, 5948, "abmc_invoice_lineitem");
    plant_row(&mut page, 600, 3075, 6080, "abmc_item_assembly_header");
    plant_row(&mut page, 800, 3076, 6113, "abmc_item_history");

    let rows = [
        (200usize, "abmc_invoice_header"),
        (400, "abmc_invoice_lineitem"),
        (600, "abmc_item_assembly_header"),
        (800, "abmc_item_history"),
    ];
    let mut votes = BackrefVotes::new();
    votes.observe_page(&page, &rows, &owner_set(&[3073, 3074, 3075, 3076]));

    assert_eq!(votes.rows_seen(), 4);
    assert_eq!(votes.best_distance(), Some(DEFAULT_BACKREF_DISTANCE));

    let bridge = votes.bridge_at(DEFAULT_BACKREF_DISTANCE);
    assert_eq!(bridge.table_for(3073), Some("abmc_invoice_header"));
    assert_eq!(bridge.table_for(3076), Some("abmc_item_history"));
    assert_eq!(bridge.owners_for("abmc_invoice_header"), vec![3073]);
    assert_eq!(bridge.from_backref, 4);
    assert_eq!(bridge.ambiguous_owners, 0);
    assert_eq!(bridge.source_for(3073), Some(BridgeSource::SysTableBackref));
}

#[test]
fn calibration_follows_a_shifted_layout() {
    // Same rows, but this file keeps the id 44 bytes before the tag.
    let shift = 44usize;
    let mut page = vec![0u8; 0x1000];
    for (i, (tag, owner)) in [(200usize, 900u32), (400, 901), (600, 902), (800, 903)]
        .into_iter()
        .enumerate()
    {
        page[tag - shift..tag - shift + 4].copy_from_slice(&owner.to_le_bytes());
        let _ = i;
    }
    let rows = [(200usize, "t_a"), (400, "t_b"), (600, "t_c"), (800, "t_d")];
    let mut votes = BackrefVotes::new();
    votes.observe_page(&page, &rows, &owner_set(&[900, 901, 902, 903]));

    assert_eq!(votes.best_distance(), Some(shift));
    assert_eq!(votes.bridge_at(shift).table_for(902), Some("t_c"));
}

#[test]
fn zero_padding_never_wins_calibration() {
    // A file whose SYSCOLUMN owners include ids that happen to sit in
    // the row's zero padding must not calibrate onto that padding.
    let mut page = vec![0u8; 0x1000];
    plant_row(&mut page, 200, 3073, 5884, "abmc_invoice_header");
    plant_row(&mut page, 400, 3074, 5948, "abmc_invoice_lineitem");
    plant_row(&mut page, 600, 3075, 6080, "abmc_item_assembly_header");
    plant_row(&mut page, 800, 3076, 6113, "abmc_item_history");

    let rows = [
        (200usize, "abmc_invoice_header"),
        (400, "abmc_invoice_lineitem"),
        (600, "abmc_item_assembly_header"),
        (800, "abmc_item_history"),
    ];
    let mut votes = BackrefVotes::new();
    // 0 is in the owner set here.
    votes.observe_page(&page, &rows, &owner_set(&[0, 3073, 3074, 3075, 3076]));
    assert_eq!(votes.best_distance(), Some(DEFAULT_BACKREF_DISTANCE));
}

#[test]
fn too_little_evidence_is_no_bridge() {
    let mut page = vec![0u8; 0x1000];
    plant_row(&mut page, 200, 3073, 5884, "abmc_invoice_header");
    let rows = [(200usize, "abmc_invoice_header")];
    let mut votes = BackrefVotes::new();
    votes.observe_page(&page, &rows, &owner_set(&[3073]));
    assert_eq!(votes.best_distance(), None);
}

#[test]
fn duplicate_rows_vote_rather_than_collide() {
    let mut page = vec![0u8; 0x1000];
    plant_row(&mut page, 200, 3073, 5884, "abmc_invoice_header");
    plant_row(&mut page, 400, 3073, 5884, "abmc_invoice_header");
    plant_row(&mut page, 600, 3074, 5948, "abmc_invoice_lineitem");
    plant_row(&mut page, 800, 3075, 6080, "abmc_item_history");
    // A stray row that claims an already-claimed owner once.
    plant_row(&mut page, 1000, 3073, 4242, "zz_decoy");

    let rows = [
        (200usize, "abmc_invoice_header"),
        (400, "abmc_invoice_header"),
        (600, "abmc_invoice_lineitem"),
        (800, "abmc_item_history"),
        (1000, "zz_decoy"),
    ];
    let mut votes = BackrefVotes::new();
    votes.observe_page(&page, &rows, &owner_set(&[3073, 3074, 3075]));

    let bridge = votes.bridge_at(DEFAULT_BACKREF_DISTANCE);
    assert_eq!(bridge.table_for(3073), Some("abmc_invoice_header"));
    assert_eq!(bridge.ambiguous_owners, 1);
    assert_eq!(bridge.tables(), 3);
}

#[test]
fn sysobject_entries_do_not_displace_backref_entries() {
    let mut bridge = OwnerBridge {
        backref_distance: Some(DEFAULT_BACKREF_DISTANCE),
        ..OwnerBridge::default()
    };
    assert!(bridge.insert(7, "from_backref".into(), BridgeSource::SysTableBackref));
    assert!(!bridge.insert(7, "from_scan".into(), BridgeSource::SysObjectScan));
    assert!(bridge.insert(8, "from_scan".into(), BridgeSource::SysObjectScan));

    assert_eq!(bridge.table_for(7), Some("from_backref"));
    assert_eq!(bridge.from_backref, 1);
    assert_eq!(bridge.from_sysobject, 1);
    assert_eq!(bridge.len(), 2);
}

#[test]
fn a_number_at_the_edge_of_the_page_is_read() {
    let page = [1u8, 0, 0, 0, 2, 0, 0, 0];
    assert_eq!(backref_at(&page, 8, 4), Some(2));
    assert_eq!(backref_at(&page, 8, 8), Some(1));
    assert_eq!(backref_at(&page, 8, 3), None);
    assert_eq!(backref_at(&page, 7, 8), None);
    assert_eq!(backref_at(&page, usize::MAX, 4), None);
    assert_eq!(backref_at(&[], 0, 0), None);
}

#[test]
fn ties_between_distances_go_to_the_smaller_one() {
    let mut page = vec![0u8; 0x1000];
    let rows = [(200usize, "t_a"), (400, "t_b"), (600, "t_c"), (800, "t_d")];
    for (k, (tag, _)) in rows.iter().enumerate() {
        for distance in [20usize, 60] {
            let at = tag - distance;
            page[at..at + 4].copy_from_slice(&(500u32 + k as u32).to_le_bytes());
        }
    }
    let mut votes = BackrefVotes::new();
    votes.observe_page(&page, &rows, &owner_set(&[500, 501, 502, 503]));
    assert_eq!(votes.score(20), 4);
    assert_eq!(votes.score(60), 4);
    assert_eq!(votes.score(30), 0);
    assert_eq!(votes.score(1000), 0);
    assert_eq!(votes.best_distance(), Some(20));
}

#[test]
fn ties_between_names_go_to_the_first_name() {
    let mut page = vec![0u8; 0x1000];
    plant_row(&mut page, 200, 7, 1, "zeta");
    plant_row(&mut page, 400, 7, 1, "beta");
    plant_row(&mut page, 600, 7, 1, "gamma");
    let rows = [(200usize, "zeta"), (400, "beta"), (600, "gamma")];
    let mut votes = BackrefVotes::default();
    votes.observe_page(&page, &rows, &owner_set(&[7]));
    let bridge = votes.bridge_at(DEFAULT_BACKREF_DISTANCE);
    assert_eq!(bridge.table_for(7), Some("beta"));
    assert_eq!(bridge.ambiguous_owners, 1);
    // A second sighting settles it.
    votes.observe_page(&page, &[(200usize, "zeta")], &owner_set(&[7]));
    assert_eq!(votes.rows_seen(), 4);
    assert_eq!(votes.bridge_at(DEFAULT_BACKREF_DISTANCE).table_for(7), Some("zeta"));
}

#[test]
fn a_distance_without_votes_gives_an_empty_bridge() {
    let votes = BackrefVotes::new();
    for distance in [0usize, 30, 96, 97] {
        let bridge = votes.bridge_at(distance);
        assert!(bridge.is_empty());
        assert_eq!(bridge.backref_distance, Some(distance));
        assert_eq!(bridge.tables(), 0);
        assert_eq!(bridge.owners_for("x"), Vec::<u32>::new());
    }
    assert_eq!(votes.best_distance(), None);
}

#[test]
fn labels_name_the_source() {
    assert_eq!(BridgeSource::SysTableBackref.label(), "SYSTABLE back-reference");
    assert_eq!(BridgeSource::SysObjectScan.label(), "SYSOBJECT scan");
}

#[test]
fn the_order_and_the_batches_of_rows_leave_no_trace() {
    let mut page = vec![0u8; 0x1000];
    plant_row(&mut page, 200, 3073, 5884, "header");
    plant_row(&mut page, 400, 3074, 5948, "lineitem");
    plant_row(&mut page, 600, 3075, 6080, "assembly");
    plant_row(&mut page, 800, 3076, 6113, "history");
    plant_row(&mut page, 1000, 3073, 6114, "other");
    let owners = owner_set(&[3073, 3074, 3075, 3076]);
    let rows = [
        (200usize, "header"),
        (1000, "other"),
        (400, "lineitem"),
        (600, "assembly"),
        // No candidate at all.
        (0, "nothing"),
        (800, "history"),
    ];
    let mut start = BackrefVotes::new();
    start.observe_page(&page, &[(200, "header")], &owners);

    let mut batches = start.clone();
    batches.observe_page(&page, &rows[..2], &owners);
    batches.observe_page(&page, &rows[2..], &owners);
    let mut reversed = rows;
    reversed.reverse();
    let mut at_once = start.clone();
    at_once.observe_page(&page, &reversed, &owners);

    assert_eq!(start.rows_seen(), 1);
    assert_eq!(batches.rows_seen(), 7);
    assert_eq!(at_once.rows_seen(), 7);
    assert_eq!(batches.best_distance(), Some(30));
    assert_eq!(at_once.best_distance(), Some(30));
    for d in 0..=100 {
        assert_eq!(batches.score(d), at_once.score(d));
        let (a, b) = (batches.bridge_at(d), at_once.bridge_at(d));
        for owner in [3073, 3074, 3075, 3076] {
            assert_eq!(a.table_for(owner), b.table_for(owner));
        }
        assert_eq!(
            (a.backref_distance, a.from_backref, a.from_sysobject, a.ambiguous_owners),
            (b.backref_distance, b.from_backref, b.from_sysobject, b.ambiguous_owners)
        );
    }
    let bridge = at_once.bridge_at(30);
    assert_eq!(bridge.table_for(3073), Some("header"));
    assert_eq!((bridge.len(), bridge.ambiguous_owners), (4, 1));
}
