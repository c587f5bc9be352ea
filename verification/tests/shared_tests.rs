use ham_activity::shared::Shared;
use ham_activity::spot_db::SpotDB;

const NOW: i64 = 1_700_000_000;

#[test]
fn write_then_read_through_the_lock() {
    let shared = Shared::new(SpotDB::new(NOW));
    let (mut db, handle) = shared.write();
    db.add_spot("HB9HUS", "DL1ABC", 140_550, "CW", 3, 20, "CQ", NOW);
    handle.release_write(db);
    let reader = shared.read();
    assert_eq!(reader.borrow().spots_in_db(), 1);
    reader.release_read();
}

#[test]
fn two_readers_at_once() {
    let shared = Shared::new(SpotDB::new(NOW));
    let r1 = shared.read();
    let r2 = shared.read();
    assert_eq!(r1.borrow().spots_in_db(), 0);
    assert_eq!(r2.borrow().spots_in_db(), 0);
    r1.release_read();
    r2.release_read();
}

#[test]
fn sorted_deduplicated_copies() {
    let words = vec!["pear".to_string(), "apple".to_string(), "pear".to_string()];
    let sorted = ham_activity::sorting::sort_dedup_strings(&words);
    assert_eq!(sorted, vec!["apple".to_string(), "pear".to_string()]);
    let nums = vec![5u64, 1, 5, 3];
    assert_eq!(ham_activity::sorting::sort_dedup_u64(&nums), vec![1, 3, 5]);
    let snrs = vec![3i32, -7, 3, 0];
    assert_eq!(ham_activity::sorting::sort_dedup_i32(&snrs), vec![-7, 0, 3]);
    let wpms = vec![30u32, 20, 30];
    assert_eq!(ham_activity::sorting::sort_dedup_u32(&wpms), vec![20, 30]);
}

#[test]
fn band_table_bounds() {
    let bands = ham_activity::bands::hf_bands();
    assert_eq!(bands.len(), 10);
    assert_eq!(bands[0].name, "160m");
    assert_eq!(bands[0].lower_tenth_khz, 18_000);
    assert_eq!(bands[0].upper_tenth_khz, 20_000);
    assert_eq!(bands[9].name, "6m");
    assert_eq!(bands[9].upper_tenth_khz, 520_000);
}
