use ham_activity::spot_db::SpotDB;

const NOW: i64 = 1_700_000_000;

fn empty_db() -> SpotDB {
    SpotDB::new(NOW)
}

#[test]
fn init_db() {
    let db = SpotDB::new(NOW);
    assert_eq!(db.spots_in_db(), 0);
    assert_eq!(db.regions_in_db(), 0);
    assert_eq!(db.init_timestamp_s(), NOW);
}

#[test]
fn db_add_spot() {
    let mut db = empty_db();
    db.add_spot("HB9HUS", "HB9CL", 180_800, "CW", 10, 25, "CQ", NOW);
    assert_eq!(db.spots_in_db(), 1);
}

#[test]
fn db_cleanup() {
    let mut db = empty_db();
    let earlier = NOW - 3600;
    db.add_spot("HB9HUS", "HB9CL", 180_800, "CW", 10, 25, "CQ", earlier);
    db.cleanup_old_spots(NOW, 1000);
    assert_eq!(db.spots_in_db(), 0);
}

#[test]
fn db_add_get_region() {
    let mut db = empty_db();
    let prefixes = vec!["HB".to_string(), "DL".to_string(), "F".to_string()];
    db.add_region("europe".to_string(), prefixes);
    let r = db.get_region("europe");
    if let Some(reg) = r {
        assert_eq!(reg.name, "europe");
    } else {
        panic!("did not get a region");
    }
}

#[test]
fn db_add_spot_to_region() {
    let mut db = empty_db();
    let prefixes = vec!["HB".to_string(), "DL".to_string(), "F".to_string()];
    db.add_region("europe".to_string(), prefixes);
    db.add_spot("HB9HUS", "DL1ABC", 180_800, "CW", 10, 25, "CQ", NOW);
    let r = db.get_region("europe");
    if let Some(reg) = r {
        assert_eq!(reg.spot_ids.len(), 1);
    } else {
        panic!("did not get a region");
    }
}

// Spot count equals the number of accepted spots when nothing is cleaned up.
#[test]
fn spot_count_tracks_adds() {
    let mut db = empty_db();
    for i in 0..7 {
        db.add_spot("HB9HUS", "DL1ABC", 140_000 + i, "CW", 3, 22, "CQ", NOW);
        assert_eq!(db.spots_in_db(), (i + 1) as usize);
    }
}

// Region membership goes by the spotter callsign prefix.
#[test]
fn region_membership_is_spotter_prefix_based() {
    let mut db = empty_db();
    db.add_region(
        "europe".to_string(),
        vec!["HB".to_string(), "DL".to_string(), "F".to_string()],
    );
    db.add_spot("HB9HUS", "DL1ABC", 180_800, "CW", 10, 25, "CQ", NOW);
    assert_eq!(db.get_region("europe").unwrap().spot_ids.len(), 1);
    db.add_spot("ZZ1AAA", "DL1ABC", 180_800, "CW", 10, 25, "CQ", NOW);
    assert_eq!(db.get_region("europe").unwrap().spot_ids.len(), 1);
    assert_eq!(db.spots_in_db(), 2);
}

// Cleanup removes exactly the expired spots, and from every region too.
#[test]
fn cleanup_removes_exactly_expired() {
    let mut db = empty_db();
    db.add_region("europe".to_string(), vec!["HB".to_string()]);
    db.add_spot("HB9AAA", "K1AAA", 70_040, "CW", 1, 20, "CQ", NOW - 2000);
    db.add_spot("HB9BBB", "K1BBB", 70_050, "CW", 2, 21, "CQ", NOW - 500);
    db.add_spot("HB9CCC", "K1CCC", 70_060, "CW", 3, 22, "CQ", NOW - 10);
    assert_eq!(db.get_region("europe").unwrap().spot_ids.len(), 3);
    db.cleanup_old_spots(NOW, 1000);
    assert_eq!(db.spots_in_db(), 2);
    let region = db.get_region("europe").unwrap();
    assert_eq!(region.spot_ids.len(), 2);
    // The surviving identifiers must all be found in the global table.
    for id in &region.spot_ids {
        assert!(db.spots().iter().any(|s| s.id == *id));
    }
    // Exactly the recent spots survive.
    let spotted: Vec<String> = db.spots().iter().map(|s| s.spot.spotted.clone()).collect();
    assert_eq!(spotted, vec!["K1BBB".to_string(), "K1CCC".to_string()]);
}

// A boundary check: a spot exactly at the cutoff stays.
#[test]
fn cleanup_keeps_spot_at_cutoff() {
    let mut db = empty_db();
    db.add_spot("HB9AAA", "K1AAA", 70_040, "CW", 1, 20, "CQ", NOW - 1000);
    db.cleanup_old_spots(NOW, 1000);
    assert_eq!(db.spots_in_db(), 1);
}

// Frequency users: within 0.2 kHz, distinct, sorted.
#[test]
fn frequency_users_within_two_tenths() {
    let mut db = empty_db();
    db.add_spot("DF2CK", "DL0IN", 140_550, "CW", 5, 16, "CQ", NOW);
    db.add_spot("DF2CK", "DL0IN", 140_551, "CW", 5, 16, "CQ", NOW);
    db.add_spot("DF2CK", "OTHER", 140_600, "CW", 5, 16, "CQ", NOW);
    let users = db.get_frequency_users(140_550);
    assert_eq!(users, vec!["DL0IN".to_string()]);
}

#[test]
fn frequency_users_sorted_and_deduplicated() {
    let mut db = empty_db();
    db.add_spot("A1", "ZZZ", 140_550, "CW", 5, 16, "CQ", NOW);
    db.add_spot("A2", "AAA", 140_551, "CW", 5, 16, "CQ", NOW);
    db.add_spot("A3", "ZZZ", 140_552, "CW", 5, 16, "CQ", NOW);
    let users = db.get_frequency_users(140_550);
    assert_eq!(users, vec!["AAA".to_string(), "ZZZ".to_string()]);
}

// Re-adding a region replaces it: new prefixes, an empty spot list.
#[test]
fn add_region_replaces() {
    let mut db = empty_db();
    db.add_region("europe".to_string(), vec!["HB".to_string()]);
    db.add_spot("HB9HUS", "DL1ABC", 180_800, "CW", 10, 25, "CQ", NOW);
    assert_eq!(db.get_region("europe").unwrap().spot_ids.len(), 1);
    db.add_region("europe".to_string(), vec!["DL".to_string()]);
    let region = db.get_region("europe").unwrap();
    assert_eq!(region.prefixes, vec!["DL".to_string()]);
    assert_eq!(region.spot_ids.len(), 0);
    // The change holds going forward only.
    db.add_spot("DL3XYZ", "G4AAA", 180_800, "CW", 10, 25, "CQ", NOW);
    assert_eq!(db.get_region("europe").unwrap().spot_ids.len(), 1);
}

#[test]
fn unknown_region_is_not_found() {
    let db = empty_db();
    assert!(db.get_region("nowhere").is_none());
}
