use ham_activity::region_loader::{load_regions, Dxcc};
use ham_activity::spot_db::SpotDB;

const NOW: i64 = 1_700_000_000;

fn entity(name: &str, prefix: &str, cq: Vec<u8>, continent: Vec<&str>, valid_end: &str) -> Dxcc {
    Dxcc {
        continent: continent.into_iter().map(|c| c.to_string()).collect(),
        cq,
        name: name.to_string(),
        prefix: prefix.to_string(),
        valid_end: valid_end.to_string(),
    }
}

#[test]
fn entity_names_are_normalized() {
    let mut db = SpotDB::new(NOW);
    let entities = vec![entity("Canada", "VA,VE,VO,VY", vec![1, 2], vec!["NA"], "")];
    load_regions(&mut db, &entities);
    let region = db.get_region("canada").expect("normalized name registered");
    assert_eq!(
        region.prefixes,
        vec!["VA".to_string(), "VE".to_string(), "VO".to_string(), "VY".to_string()]
    );
    assert!(db.get_region("Canada").is_none());
}

#[test]
fn whitespace_in_names_becomes_underscores() {
    let mut db = SpotDB::new(NOW);
    let entities = vec![entity("New Zealand", "ZL", vec![32], vec!["OC"], "")];
    load_regions(&mut db, &entities);
    assert!(db.get_region("new_zealand").is_some());
}

#[test]
fn retired_entities_are_skipped() {
    let mut db = SpotDB::new(NOW);
    let entities = vec![entity("Gone Land", "XX", vec![5], vec!["EU"], "2001-01-01")];
    load_regions(&mut db, &entities);
    assert_eq!(db.regions_in_db(), 0);
}

#[test]
fn zone_and_continent_aggregates_accumulate() {
    let mut db = SpotDB::new(NOW);
    let entities = vec![
        entity("Alpha", "AA,AB", vec![14], vec!["EU"], ""),
        entity("Beta", "BB", vec![14, 15], vec!["EU", "AS"], ""),
    ];
    load_regions(&mut db, &entities);
    // Per-entity regions.
    assert_eq!(db.get_region("alpha").unwrap().prefixes, vec!["AA", "AB"]);
    assert_eq!(db.get_region("beta").unwrap().prefixes, vec!["BB"]);
    // The later entity's prefixes stand in front of what the aggregate had.
    assert_eq!(db.get_region("CQ_14").unwrap().prefixes, vec!["BB", "AA", "AB"]);
    assert_eq!(db.get_region("CQ_15").unwrap().prefixes, vec!["BB"]);
    assert_eq!(db.get_region("EU").unwrap().prefixes, vec!["BB", "AA", "AB"]);
    assert_eq!(db.get_region("AS").unwrap().prefixes, vec!["BB"]);
    // 2 entity regions + CQ_14, CQ_15, EU, AS.
    assert_eq!(db.regions_in_db(), 6);
}

#[test]
fn aggregates_catch_spots_by_prefix() {
    let mut db = SpotDB::new(NOW);
    let entities = vec![entity("Alpha", "HB", vec![14], vec!["EU"], "")];
    load_regions(&mut db, &entities);
    db.add_spot("HB9HUS", "DL1ABC", 140_550, "CW", 3, 20, "CQ", NOW);
    assert_eq!(db.get_region("alpha").unwrap().spot_ids.len(), 1);
    assert_eq!(db.get_region("CQ_14").unwrap().spot_ids.len(), 1);
    assert_eq!(db.get_region("EU").unwrap().spot_ids.len(), 1);
}
