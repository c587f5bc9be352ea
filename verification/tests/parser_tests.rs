use ham_activity::rbn_reader::{parse_hhmmz_to_utc, parse_spot_split, ParseError};
use ham_activity::spot_db::SpotDB;

// Day 100 after the epoch, 05:00 UTC.
const NOW: i64 = 86_400 * 100 + 5 * 3600;

#[test]
fn parses_a_plain_spot_line() {
    let line = "DX de DF2CK-#:    7037.6  IZ3DVW/B       CW     5 dB  16 WPM  BEACON  1448Z";
    let si = parse_spot_split(line, NOW).expect("line should parse");
    assert_eq!(si.spotter, "DF2CK");
    assert_eq!(si.freq_tenth_khz, 70_376);
    assert_eq!(si.spotted, "IZ3DVW/B");
    assert_eq!(si.mode, "CW");
    assert_eq!(si.snr_db, 5);
    assert_eq!(si.wpm, 16);
    assert_eq!(si.msg, "BEACON");
    // 14:48 UTC on the current day.
    assert_eq!(si.timestamp_s, 86_400 * 100 + 14 * 3600 + 48 * 60);
}

#[test]
fn missing_db_token_fails() {
    let line = "DX de DF2CK-#: 7037.6 IZ3DVW/B CW 5 16 WPM BEACON 1448Z";
    let r = parse_spot_split(line, NOW);
    assert!(r.is_err());
}

#[test]
fn non_numeric_frequency_fails() {
    let line = "DX de DF2CK-#: seven IZ3DVW/B CW 5 dB 16 WPM BEACON 1448Z";
    assert_eq!(parse_spot_split(line, NOW).unwrap_err(), ParseError::BadFrequency);
}

#[test]
fn failed_parse_leaves_store_unchanged() {
    let mut db = SpotDB::new(NOW);
    let bad1 = "DX de DF2CK-#: 7037.6 IZ3DVW/B CW 5 16 WPM BEACON 1448Z";
    let bad2 = "DX de DF2CK-#: seven IZ3DVW/B CW 5 dB 16 WPM BEACON 1448Z";
    assert!(db.ingest_line(bad1, NOW).is_err());
    assert!(db.ingest_line(bad2, NOW).is_err());
    assert_eq!(db.spots_in_db(), 0);
    let good = "DX de DF2CK-#: 7037.6 IZ3DVW/B CW 5 dB 16 WPM BEACON 1448Z";
    assert!(db.ingest_line(good, NOW).is_ok());
    assert_eq!(db.spots_in_db(), 1);
}

#[test]
fn leading_banner_lines_fail() {
    assert_eq!(
        parse_spot_split("Welcome to the feed", NOW).unwrap_err(),
        ParseError::ExpectedDx
    );
    assert_eq!(parse_spot_split("", NOW).unwrap_err(), ParseError::MissingToken);
    assert_eq!(
        parse_spot_split("DX of something", NOW).unwrap_err(),
        ParseError::ExpectedDe
    );
}

#[test]
fn error_variants_name_the_field() {
    let wpm_unit = "DX de A1A-#: 7000.0 B2B CW 5 dB 16 wpm CQ 1200Z";
    assert_eq!(parse_spot_split(wpm_unit, NOW).unwrap_err(), ParseError::ExpectedWpm);
    let db_unit = "DX de A1A-#: 7000.0 B2B CW 5 db 16 WPM CQ 1200Z";
    assert_eq!(parse_spot_split(db_unit, NOW).unwrap_err(), ParseError::ExpectedDb);
    let bad_snr = "DX de A1A-#: 7000.0 B2B CW five dB 16 WPM CQ 1200Z";
    assert_eq!(parse_spot_split(bad_snr, NOW).unwrap_err(), ParseError::BadSnr);
    let bad_wpm = "DX de A1A-#: 7000.0 B2B CW 5 dB many WPM CQ 1200Z";
    assert_eq!(parse_spot_split(bad_wpm, NOW).unwrap_err(), ParseError::BadWpm);
    let bad_time = "DX de A1A-#: 7000.0 B2B CW 5 dB 16 WPM CQ 99Z";
    assert_eq!(parse_spot_split(bad_time, NOW).unwrap_err(), ParseError::BadTime);
    let short = "DX de A1A-#: 7000.0 B2B CW 5 dB 16 WPM CQ";
    assert_eq!(parse_spot_split(short, NOW).unwrap_err(), ParseError::MissingToken);
}

#[test]
fn invalid_hours_or_minutes_fail() {
    assert_eq!(
        parse_spot_split("DX de A1A-#: 7000.0 B2B CW 5 dB 16 WPM CQ 2460Z", NOW).unwrap_err(),
        ParseError::BadTime
    );
    assert_eq!(
        parse_spot_split("DX de A1A-#: 7000.0 B2B CW 5 dB 16 WPM CQ 1260Z", NOW).unwrap_err(),
        ParseError::BadTime
    );
}

#[test]
fn midnight_rollover_uses_previous_day() {
    // The clock reads 00:10 on day 100; a message stamped 23:58 means day 99.
    let now = 86_400 * 100 + 10 * 60;
    let si = parse_spot_split(
        "DX de A1A-#: 7000.0 B2B CW 5 dB 16 WPM CQ 2358Z",
        now,
    )
    .unwrap();
    assert_eq!(si.timestamp_s, 86_400 * 99 + 23 * 3600 + 58 * 60);
    // At 01:00 the rule no longer applies: 23:58 means the current day.
    let now_later = 86_400 * 100 + 3600;
    let si2 = parse_spot_split(
        "DX de A1A-#: 7000.0 B2B CW 5 dB 16 WPM CQ 2358Z",
        now_later,
    )
    .unwrap();
    assert_eq!(si2.timestamp_s, 86_400 * 100 + 23 * 3600 + 58 * 60);
}

#[test]
fn hhmmz_parses_directly() {
    let ts = parse_hhmmz_to_utc("1448Z", NOW).unwrap();
    assert_eq!(ts, 86_400 * 100 + 14 * 3600 + 48 * 60);
    assert_eq!(parse_hhmmz_to_utc("1448", NOW).unwrap_err(), ParseError::BadTime);
    assert_eq!(parse_hhmmz_to_utc("14482", NOW).unwrap(), ts);
    assert_eq!(parse_hhmmz_to_utc("ab48Z", NOW).unwrap_err(), ParseError::BadTime);
}

#[test]
fn ncdxf_message_passes_over_one_token() {
    let line = "DX de W1NT-2-#:  14052.1  CS3B  CW  16 dB  22 WPM  NCDXF B  131415Z";
    // The extra token is passed over whatever it holds; here the time
    // token that follows is malformed.
    assert_eq!(parse_spot_split(line, NOW).unwrap_err(), ParseError::BadTime);
    let ok = "DX de W1NT-2-#:  14052.1  CS3B  CW  16 dB  22 WPM  NCDXF B  1414Z";
    let si = parse_spot_split(ok, NOW).unwrap();
    assert_eq!(si.msg, "NCDXF");
    assert_eq!(si.timestamp_s, 86_400 * 100 + 14 * 3600 + 14 * 60);
}

#[test]
fn spotter_suffix_forms_are_stripped() {
    let a = parse_spot_split("DX de G4IRN-#: 3531.9 DL2AWA CW 14 dB 23 WPM CQ 2034Z", NOW)
        .unwrap();
    assert_eq!(a.spotter, "G4IRN");
    let b = parse_spot_split("DX de G4IRN- 3531.9 DL2AWA CW 14 dB 23 WPM CQ 2034Z", NOW)
        .unwrap();
    assert_eq!(b.spotter, "G4IRN");
    let c = parse_spot_split("DX de W1NT-2-#: 3531.9 DL2AWA CW 14 dB 23 WPM CQ 2034Z", NOW)
        .unwrap();
    assert_eq!(c.spotter, "W1NT-2");
}

#[test]
fn trailing_tokens_are_ignored() {
    let line = "DX de A1A-#: 7000.0 B2B CW 5 dB 16 WPM CQ 1200Z extra stuff here";
    let si = parse_spot_split(line, NOW).unwrap();
    assert_eq!(si.timestamp_s, 86_400 * 100 + 12 * 3600);
}

#[test]
fn frequency_keeps_one_tenth_khz() {
    let a = parse_spot_split("DX de A1A-#: 7037 B2B CW 5 dB 16 WPM CQ 1200Z", NOW).unwrap();
    assert_eq!(a.freq_tenth_khz, 70_370);
    let b = parse_spot_split("DX de A1A-#: 7037.65 B2B CW 5 dB 16 WPM CQ 1200Z", NOW).unwrap();
    assert_eq!(b.freq_tenth_khz, 70_376);
    assert!(parse_spot_split("DX de A1A-#: 7037. B2B CW 5 dB 16 WPM CQ 1200Z", NOW).is_err());
    assert!(parse_spot_split("DX de A1A-#: .5 B2B CW 5 dB 16 WPM CQ 1200Z", NOW).is_err());
}

#[test]
fn signed_fields_accept_signs() {
    let si = parse_spot_split("DX de A1A-#: 7000.0 B2B CW -3 dB +16 WPM CQ 1200Z", NOW).unwrap();
    assert_eq!(si.snr_db, -3);
    assert_eq!(si.wpm, 16);
}

#[test]
fn surrounding_whitespace_is_trimmed() {
    // A no-break space is white space but does not split tokens; without
    // the trim it would stick to the first and last tokens.
    let line = "\u{a0}DX de A1A-#: 7000.0 B2B CW 5 dB 16 WPM CQ 1200Z\u{a0}";
    let mut db = SpotDB::new(NOW);
    assert!(db.ingest_line(line, NOW).is_ok());
    assert_eq!(db.spots_in_db(), 1);
}
