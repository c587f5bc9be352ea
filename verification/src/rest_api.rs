//! The read-only query surface: overall statistics, the region list, one
//! region's activity view, and the users of a frequency.

use crate::activity::{activity_report_ok, resolve_ids, BandActivity, CallInfoEntry};
use crate::sorting::{lemma_insert_contains, sort_dedup_strings, strictly_sorted_chars};
use crate::spot_db::{freq_near, spec_find_region, SpotDB};
use crate::text::{dec_str, u64_decimal};
use vstd::prelude::*;

verus! {

/// Overall statistics of the store.
pub struct DBStats {
    pub running_since: String,
    pub total_spots: usize,
    pub total_regions: usize,
}

/// The distinct callsigns heard around one frequency.
pub struct Frequency {
    pub callsigns: Vec<String>,
}

/// The names of all registered regions.
pub struct Regions {
    pub names: Vec<String>,
}

/// One region's aggregated view.
pub struct Region {
    pub name: String,
    pub spotters: Vec<String>,
    pub num_spotter_spots: usize,
    pub band_activities: Vec<BandActivity>,
    pub call_info: Vec<CallInfoEntry>,
}

/// The calendar date `days` days after 1970-01-01, as (year, month, day).
///
/// This is the usual era-based conversion on the proleptic Gregorian
/// calendar. The guarded subtractions only make the function total; for
/// non-negative day counts the guards never fire.
pub open spec fn spec_civil(days: int) -> (int, int, int) {
    let z = days + 719468;
    let era = z / 146097;
    let doe = z % 146097;
    let t1 = if doe / 1460 <= doe {
        doe - doe / 1460
    } else {
        0
    };
    let t2 = t1 + doe / 36524;
    let a = if doe / 146096 <= t2 {
        t2 - doe / 146096
    } else {
        0
    };
    let yoe = a / 365;
    let c1 = 365 * yoe + yoe / 4;
    let c = if yoe / 100 <= c1 {
        c1 - yoe / 100
    } else {
        0
    };
    let doy = if c <= doe {
        doe - c
    } else {
        0
    };
    let mp = (5 * doy + 2) / 153;
    let dd = (153 * mp + 2) / 5;
    let d = if dd <= doy {
        doy - dd + 1
    } else {
        1
    };
    let m = if mp < 10 {
        mp + 3
    } else {
        mp - 9
    };
    let y = if m <= 2 {
        yoe + era * 400 + 1
    } else {
        yoe + era * 400
    };
    (y, m, d)
}

/// `n` in decimal, at least two digits.
pub open spec fn pad2(n: int) -> Seq<char> {
    if n < 10 {
        seq!['0'] + dec_str(n)
    } else {
        dec_str(n)
    }
}

/// `n` in decimal, at least four digits.
pub open spec fn pad4(n: int) -> Seq<char> {
    if n < 10 {
        seq!['0', '0', '0'] + dec_str(n)
    } else if n < 100 {
        seq!['0', '0'] + dec_str(n)
    } else if n < 1000 {
        seq!['0'] + dec_str(n)
    } else {
        dec_str(n)
    }
}

/// The text "Y-M-D h:m:s" for the moment `ts` seconds after the epoch.
pub open spec fn spec_format_utc(ts: int) -> Seq<char> {
    let days = ts / 86400;
    let secs = ts % 86400;
    let ymd = spec_civil(days);
    pad4(ymd.0) + seq!['-'] + pad2(ymd.1) + seq!['-'] + pad2(ymd.2) + seq![' '] + pad2(
        secs / 3600,
    ) + seq![':'] + pad2((secs / 60) % 60) + seq![':'] + pad2(secs % 60)
}

/// Writes `n` in decimal with at least two digits.
fn pad2_exec(n: u64) -> (r: String)
    ensures
        r@ == pad2(n as int),
{
    let digits = u64_decimal(n);
    if n < 10 {
        let mut s = String::from_str("0");
        s.append(digits.as_str());
        proof {
            reveal_strlit("0");
            assert("0"@ =~= seq!['0']);
        }
        s
    } else {
        digits
    }
}

/// Writes `n` in decimal with at least four digits.
fn pad4_exec(n: u64) -> (r: String)
    ensures
        r@ == pad4(n as int),
{
    let digits = u64_decimal(n);
    proof {
        reveal_strlit("000");
        reveal_strlit("00");
        reveal_strlit("0");
        assert("000"@ =~= seq!['0', '0', '0']);
        assert("00"@ =~= seq!['0', '0']);
        assert("0"@ =~= seq!['0']);
    }
    if n < 10 {
        let mut s = String::from_str("000");
        s.append(digits.as_str());
        s
    } else if n < 100 {
        let mut s = String::from_str("00");
        s.append(digits.as_str());
        s
    } else if n < 1000 {
        let mut s = String::from_str("0");
        s.append(digits.as_str());
        s
    } else {
        digits
    }
}

/// Writes the moment `ts` seconds after the epoch as "Y-M-D h:m:s" UTC.
pub fn format_utc(ts: i64) -> (r: String)
    requires
        ts >= 0,
    ensures
        r@ == spec_format_utc(ts as int),
{
    let t = ts as u64;
    let days = t / 86400;
    let secs = t % 86400;
    let z = days + 719468;
    let era = z / 146097;
    let doe = z % 146097;
    let q1 = doe / 1460;
    let t1 = if q1 <= doe {
        doe - q1
    } else {
        0
    };
    let t2 = t1 + doe / 36524;
    let q2 = doe / 146096;
    let a = if q2 <= t2 {
        t2 - q2
    } else {
        0
    };
    let yoe = a / 365;
    let c1 = 365 * yoe + yoe / 4;
    let q3 = yoe / 100;
    let c = if q3 <= c1 {
        c1 - q3
    } else {
        0
    };
    let doy = if c <= doe {
        doe - c
    } else {
        0
    };
    let mp = (5 * doy + 2) / 153;
    let dd = (153 * mp + 2) / 5;
    let d = if dd <= doy {
        doy - dd + 1
    } else {
        1
    };
    let m = if mp < 10 {
        mp + 3
    } else {
        mp - 9
    };
    let y = if m <= 2 {
        yoe + era * 400 + 1
    } else {
        yoe + era * 400
    };
    let mut out = pad4_exec(y);
    out.append("-");
    out.append(pad2_exec(m).as_str());
    out.append("-");
    out.append(pad2_exec(d).as_str());
    out.append(" ");
    out.append(pad2_exec(secs / 3600).as_str());
    out.append(":");
    out.append(pad2_exec((secs / 60) % 60).as_str());
    out.append(":");
    out.append(pad2_exec(secs % 60).as_str());
    proof {
        reveal_strlit("-");
        reveal_strlit(" ");
        reveal_strlit(":");
        assert("-"@ =~= seq!['-']);
        assert(" "@ =~= seq![' ']);
        assert(":"@ =~= seq![':']);
        assert(out@ =~= spec_format_utc(ts as int));
    }
    out
}

/// The store's overall statistics: its start moment as text, and how many
/// spots and regions it holds.
pub fn get_db_stats(db: &SpotDB) -> (r: DBStats)
    ensures
        r.running_since@ == spec_format_utc(db@.init_timestamp_s as int),
        r.total_spots == db@.spots.len(),
        r.total_regions == db@.regions.len(),
{
    let since = format_utc(db.init_timestamp_s());
    DBStats {
        running_since: since,
        total_spots: db.spots_in_db(),
        total_regions: db.regions_in_db(),
    }
}

/// The distinct callsigns heard within 0.2 kHz of `freq_hz`, ascending.
pub fn get_frequency(db: &SpotDB, freq_hz: u64) -> (r: Frequency)
    ensures
        strictly_sorted_chars(r.callsigns.deep_view()),
        forall|s: Seq<char>| #[trigger]
            r.callsigns.deep_view().contains(s) <==> exists|k: int|
                0 <= k < db@.spots.len() && freq_near(
                    (#[trigger] db@.spots[k]).spot.freq_tenth_khz,
                    (freq_hz / 100) as u64,
                ) && db@.spots[k].spot.spotted == s,
{
    let tenth = freq_hz / 100;
    Frequency { callsigns: db.get_frequency_users(tenth) }
}

/// The names of all registered regions, ascending.
pub fn get_regions(db: &SpotDB) -> (r: Regions)
    ensures
        strictly_sorted_chars(r.names.deep_view()),
        forall|n: Seq<char>| #[trigger]
            r.names.deep_view().contains(n) <==> exists|i: int|
                0 <= i < db@.regions.len() && (#[trigger] db@.regions[i]).name == n,
{
    let regions = db.get_regions();
    let ghost rv = regions.deep_view();
    let mut names: Vec<String> = Vec::new();
    let mut i: usize = 0;
    while i < regions.len()
        invariant
            rv == regions.deep_view(),
            rv == db@.regions,
            i <= regions.len(),
            forall|n: Seq<char>| #[trigger]
                names.deep_view().contains(n) <==> exists|t: int|
                    0 <= t < i && (#[trigger] rv[t]).name == n,
        decreases regions.len() - i,
    {
        let ghost pre = names.deep_view();
        names.push(regions[i].name.clone());
        proof {
            let ii = i as int;
            assert(names.deep_view() =~= pre.insert(pre.len() as int, rv[ii].name));
            lemma_insert_contains(pre, pre.len() as int, rv[ii].name);
            assert forall|n: Seq<char>| #[trigger]
                names.deep_view().contains(n) implies exists|t: int|
                0 <= t < ii + 1 && (#[trigger] rv[t]).name == n by {
                if pre.contains(n) {
                    let t = choose|t: int| 0 <= t < ii && (#[trigger] rv[t]).name == n;
                    assert(0 <= t < ii + 1 && rv[t].name == n);
                } else {
                    assert(rv[ii].name == n);
                }
            }
            assert forall|n: Seq<char>|
                (exists|t: int| 0 <= t < ii + 1 && (#[trigger] rv[t]).name == n) implies
                #[trigger] names.deep_view().contains(n) by {
                let t = choose|t: int| 0 <= t < ii + 1 && (#[trigger] rv[t]).name == n;
                if t < ii {
                    assert(pre.contains(n));
                }
            }
        }
        i = i + 1;
    }
    let sorted = sort_dedup_strings(&names);
    proof {
        assert forall|n: Seq<char>| #[trigger]
            sorted.deep_view().contains(n) <==> exists|t: int|
                0 <= t < rv.len() && (#[trigger] rv[t]).name == n by {
            assert(sorted.deep_view().contains(n) <==> names.deep_view().contains(n));
        }
    }
    Regions { names: sorted }
}

/// One region's aggregated view, or nothing for an unknown name.
pub fn get_region(db: &SpotDB, name: &str, now_s: i64) -> (r: Option<Region>)
    ensures
        match spec_find_region(db@.regions, name@) {
            None => r is None,
            Some(i) => r is Some && ({
                let resp = r.unwrap();
                &&& resp.name@ == name@
                &&& resp.num_spotter_spots == db@.regions[i].spot_ids.len()
                &&& activity_report_ok(
                    resp.band_activities.deep_view(),
                    resp.spotters.deep_view(),
                    resp.call_info.deep_view(),
                    resolve_ids(db@.spots, db@.regions[i].spot_ids),
                    now_s,
                )
            }),
        },
{
    match db.get_region(name) {
        Some(rg) => {
            let (bas, spotters, infos) = rg.get_band_activities(db.spots(), now_s);
            let resp = Region {
                name: String::from_str(name),
                spotters,
                num_spotter_spots: rg.spot_ids.len(),
                band_activities: bas,
                call_info: infos,
            };
            Some(resp)
        },
        None => None,
    }
}

} // verus!
