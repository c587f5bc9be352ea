use ham_activity::spot_db::SpotDB;

const NOW: i64 = 1_700_000_000;

fn db_with_region() -> SpotDB {
    let mut db = SpotDB::new(NOW - 7200);
    db.add_region("europe".to_string(), vec!["HB".to_string(), "DL".to_string()]);
    db
}

#[test]
fn band_classification_and_bucket_priority() {
    let mut db = db_with_region();
    // 7004.0 kHz, observed 30 seconds ago: band "40m", 1-minute bucket only.
    db.add_spot("HB9HUS", "K1ABC", 70_040, "CW", 10, 25, "CQ", NOW - 30);
    let region = db.get_region("europe").unwrap();
    let (bands, spotters, _infos) = region.get_band_activities(db.spots(), NOW);
    assert_eq!(spotters, vec!["HB9HUS".to_string()]);
    let forty = bands.iter().find(|b| b.band == "40m").unwrap();
    assert_eq!(forty.active_1min, vec!["K1ABC".to_string()]);
    assert!(forty.active_5min.is_empty());
    assert!(forty.active_15min.is_empty());
    let eighty = bands.iter().find(|b| b.band == "80m").unwrap();
    assert!(eighty.active_1min.is_empty());
    assert!(eighty.active_5min.is_empty());
    assert!(eighty.active_15min.is_empty());
}

#[test]
fn buckets_split_by_age() {
    let mut db = db_with_region();
    db.add_spot("HB9AAA", "K1NEW", 70_040, "CW", 10, 25, "CQ", NOW - 30);
    db.add_spot("HB9BBB", "K1MID", 70_050, "CW", 10, 25, "CQ", NOW - 120);
    db.add_spot("HB9CCC", "K1OLD", 70_060, "CW", 10, 25, "CQ", NOW - 600);
    db.add_spot("HB9DDD", "K1GONE", 70_070, "CW", 10, 25, "CQ", NOW - 2000);
    let region = db.get_region("europe").unwrap();
    let (bands, _spotters, _infos) = region.get_band_activities(db.spots(), NOW);
    let forty = bands.iter().find(|b| b.band == "40m").unwrap();
    assert_eq!(forty.active_1min, vec!["K1NEW".to_string()]);
    assert_eq!(forty.active_5min, vec!["K1MID".to_string()]);
    assert_eq!(forty.active_15min, vec!["K1OLD".to_string()]);
}

#[test]
fn band_table_order_is_kept() {
    let db = db_with_region();
    let region = db.get_region("europe").unwrap();
    let (bands, _, _) = region.get_band_activities(db.spots(), NOW);
    let names: Vec<String> = bands.iter().map(|b| b.band.clone()).collect();
    assert_eq!(
        names,
        vec!["160m", "80m", "40m", "30m", "20m", "17m", "15m", "12m", "10m", "6m"]
    );
}

#[test]
fn call_info_aggregates_are_distinct_and_sorted() {
    let mut db = db_with_region();
    db.add_spot("HB9AAA", "K1ABC", 70_040, "CW", 10, 25, "CQ", NOW - 30);
    db.add_spot("HB9BBB", "K1ABC", 70_040, "CW", 4, 30, "CQ", NOW - 40);
    db.add_spot("HB9CCC", "K1ABC", 70_055, "CW", 10, 25, "CQ", NOW - 50);
    let region = db.get_region("europe").unwrap();
    let (_, _, infos) = region.get_band_activities(db.spots(), NOW);
    assert_eq!(infos.len(), 1);
    assert_eq!(infos[0].call, "K1ABC");
    assert_eq!(infos[0].info.frequencies, vec![70_040, 70_055]);
    assert_eq!(infos[0].info.wpm, vec![25, 30]);
    assert_eq!(infos[0].info.db, vec![4, 10]);
}

#[test]
fn out_of_band_spots_do_not_reach_call_info() {
    let mut db = db_with_region();
    // 6900.0 kHz lies in no band of the table.
    db.add_spot("HB9AAA", "K1ABC", 69_000, "CW", 10, 25, "CQ", NOW - 30);
    let region = db.get_region("europe").unwrap();
    let (bands, spotters, infos) = region.get_band_activities(db.spots(), NOW);
    assert!(infos.is_empty());
    assert_eq!(spotters, vec!["HB9AAA".to_string()]);
    for b in &bands {
        assert!(b.active_1min.is_empty());
        assert!(b.active_5min.is_empty());
        assert!(b.active_15min.is_empty());
    }
}

#[test]
fn spotters_are_distinct_and_sorted() {
    let mut db = db_with_region();
    db.add_spot("HB9ZZZ", "K1A", 70_040, "CW", 1, 20, "CQ", NOW - 30);
    db.add_spot("HB9AAA", "K1B", 70_040, "CW", 1, 20, "CQ", NOW - 30);
    db.add_spot("HB9ZZZ", "K1C", 70_040, "CW", 1, 20, "CQ", NOW - 30);
    let region = db.get_region("europe").unwrap();
    let (_, spotters, _) = region.get_band_activities(db.spots(), NOW);
    assert_eq!(spotters, vec!["HB9AAA".to_string(), "HB9ZZZ".to_string()]);
}

#[test]
fn band_bounds_are_inclusive() {
    let mut db = db_with_region();
    db.add_spot("HB9AAA", "KLOW", 70_000, "CW", 1, 20, "CQ", NOW - 30);
    db.add_spot("HB9BBB", "KHIGH", 72_000, "CW", 1, 20, "CQ", NOW - 30);
    db.add_spot("HB9CCC", "KOUT", 72_001, "CW", 1, 20, "CQ", NOW - 30);
    let region = db.get_region("europe").unwrap();
    let (bands, _, _) = region.get_band_activities(db.spots(), NOW);
    let forty = bands.iter().find(|b| b.band == "40m").unwrap();
    assert_eq!(forty.active_1min, vec!["KHIGH".to_string(), "KLOW".to_string()]);
}
