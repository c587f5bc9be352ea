use ham_activity::rest_api::{format_utc, get_db_stats, get_frequency, get_region, get_regions};
use ham_activity::spot_db::SpotDB;

const NOW: i64 = 1_700_000_000;

#[test]
fn formats_epoch_moments() {
    assert_eq!(format_utc(0), "1970-01-01 00:00:00");
    assert_eq!(format_utc(951_822_245), "2000-02-29 11:04:05");
    assert_eq!(format_utc(1_700_000_000), "2023-11-14 22:13:20");
    assert_eq!(format_utc(4_102_444_799), "2099-12-31 23:59:59");
}

#[test]
fn formats_leap_days_and_century_boundaries() {
    assert_eq!(format_utc(86_399), "1970-01-01 23:59:59");
    assert_eq!(format_utc(1_709_164_800), "2024-02-29 00:00:00");
    // 2100 is not a leap year: the day after 2100-02-28 is March the 1st.
    assert_eq!(format_utc(4_107_542_400), "2100-03-01 00:00:00");
}

#[test]
fn decimal_text_helpers() {
    assert_eq!(ham_activity::text::u64_decimal(0), "0");
    assert_eq!(ham_activity::text::u64_decimal(40), "40");
    assert_eq!(ham_activity::text::u64_decimal(18_446_744_073_709_551_615), "18446744073709551615");
    assert_eq!(ham_activity::region_loader::cq_name_exec(7), "CQ_7");
    assert_eq!(ham_activity::region_loader::cq_name_exec(255), "CQ_255");
}

#[test]
fn frequency_tolerance_boundary() {
    let mut db = SpotDB::new(NOW);
    db.add_spot("A1", "EDGE", 140_552, "CW", 5, 16, "CQ", NOW);
    db.add_spot("A2", "OUT", 140_553, "CW", 5, 16, "CQ", NOW);
    let users = db.get_frequency_users(140_550);
    assert_eq!(users, vec!["EDGE".to_string()]);
}

#[test]
fn stats_report_counts_and_start_time() {
    let mut db = SpotDB::new(NOW);
    db.add_region("europe".to_string(), vec!["HB".to_string()]);
    db.add_spot("HB9HUS", "DL1ABC", 140_550, "CW", 3, 20, "CQ", NOW);
    let stats = get_db_stats(&db);
    assert_eq!(stats.total_spots, 1);
    assert_eq!(stats.total_regions, 1);
    assert_eq!(stats.running_since, "2023-11-14 22:13:20");
}

#[test]
fn frequency_query_converts_hz() {
    let mut db = SpotDB::new(NOW);
    db.add_spot("DF2CK", "DL0IN", 140_550, "CW", 5, 16, "CQ", NOW);
    db.add_spot("DF2CK", "DL0IN", 140_551, "CW", 5, 16, "CQ", NOW);
    db.add_spot("DF2CK", "OTHER", 140_600, "CW", 5, 16, "CQ", NOW);
    let f = get_frequency(&db, 14_055_000);
    assert_eq!(f.callsigns, vec!["DL0IN".to_string()]);
}

#[test]
fn region_names_come_back_sorted() {
    let mut db = SpotDB::new(NOW);
    db.add_region("zulu".to_string(), vec!["Z".to_string()]);
    db.add_region("alpha".to_string(), vec!["A".to_string()]);
    let names = get_regions(&db).names;
    assert_eq!(names, vec!["alpha".to_string(), "zulu".to_string()]);
}

#[test]
fn region_view_aggregates_its_spots() {
    let mut db = SpotDB::new(NOW);
    db.add_region("europe".to_string(), vec!["HB".to_string()]);
    db.add_spot("HB9HUS", "K1ABC", 70_040, "CW", 7, 24, "CQ", NOW - 30);
    db.add_spot("ZZ1AAA", "K1ABC", 70_040, "CW", 7, 24, "CQ", NOW - 30);
    let view = get_region(&db, "europe", NOW).expect("region exists");
    assert_eq!(view.name, "europe");
    assert_eq!(view.num_spotter_spots, 1);
    assert_eq!(view.spotters, vec!["HB9HUS".to_string()]);
    let forty = view.band_activities.iter().find(|b| b.band == "40m").unwrap();
    assert_eq!(forty.active_1min, vec!["K1ABC".to_string()]);
    assert_eq!(view.call_info.len(), 1);
    assert_eq!(view.call_info[0].call, "K1ABC");
    assert_eq!(view.call_info[0].info.frequencies, vec![70_040]);
    assert!(get_region(&db, "asia", NOW).is_none());
}
