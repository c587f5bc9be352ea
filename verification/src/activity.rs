//! Time-windowed activity views: per-band recency buckets and per-callsign
//! aggregates, computed fresh from a region's spots.

use crate::bands::{band_contains, hf_bands, spec_hf_bands, Band, BandV};
use crate::sorting::{
    lemma_insert_contains, sort_dedup_i32, sort_dedup_strings, sort_dedup_u32, sort_dedup_u64,
    strictly_sorted_chars, strictly_sorted_i32, strictly_sorted_u32, strictly_sorted_u64,
};
use crate::spot_db::{Region, Spot, SpotV, StoredSpot, StoredSpotV};
use crate::text::str_eq_exec;
use vstd::prelude::*;

verus! {

/// Mathematical value of a [`BandActivity`].
#[verifier::ext_equal]
pub ghost struct BandActivityV {
    pub band: Seq<char>,
    pub active_1min: Seq<Seq<char>>,
    pub active_5min: Seq<Seq<char>>,
    pub active_15min: Seq<Seq<char>>,
}

/// The distinct callsigns heard on one band, split into recency buckets.
pub struct BandActivity {
    pub band: String,
    pub active_1min: Vec<String>,
    pub active_5min: Vec<String>,
    pub active_15min: Vec<String>,
}

impl View for BandActivity {
    type V = BandActivityV;

    open spec fn view(&self) -> BandActivityV {
        BandActivityV {
            band: self.band@,
            active_1min: self.active_1min.deep_view(),
            active_5min: self.active_5min.deep_view(),
            active_15min: self.active_15min.deep_view(),
        }
    }
}

impl DeepView for BandActivity {
    type V = BandActivityV;

    open spec fn deep_view(&self) -> BandActivityV {
        self.view()
    }
}

/// Mathematical value of a [`CallInfo`].
#[verifier::ext_equal]
pub ghost struct CallInfoV {
    pub frequencies: Seq<u64>,
    pub wpm: Seq<u32>,
    pub db: Seq<i32>,
}

/// The distinct frequencies, speeds and signal reports observed for one
/// spotted callsign, each list ascending.
pub struct CallInfo {
    pub frequencies: Vec<u64>,
    pub wpm: Vec<u32>,
    pub db: Vec<i32>,
}

impl View for CallInfo {
    type V = CallInfoV;

    open spec fn view(&self) -> CallInfoV {
        CallInfoV { frequencies: self.frequencies@, wpm: self.wpm@, db: self.db@ }
    }
}

impl DeepView for CallInfo {
    type V = CallInfoV;

    open spec fn deep_view(&self) -> CallInfoV {
        self.view()
    }
}

/// Mathematical value of a [`CallInfoEntry`].
#[verifier::ext_equal]
pub ghost struct CallInfoEntryV {
    pub call: Seq<char>,
    pub info: CallInfoV,
}

/// One spotted callsign together with its aggregated observations.
pub struct CallInfoEntry {
    pub call: String,
    pub info: CallInfo,
}

impl View for CallInfoEntry {
    type V = CallInfoEntryV;

    open spec fn view(&self) -> CallInfoEntryV {
        CallInfoEntryV { call: self.call@, info: self.info@ }
    }
}

impl DeepView for CallInfoEntry {
    type V = CallInfoEntryV;

    open spec fn deep_view(&self) -> CallInfoEntryV {
        self.view()
    }
}

/// The recency bucket of a spot observed at `ts`, seen from `now_s`:
/// bucket 0 within the last minute, else bucket 1 within five minutes,
/// else bucket 2 within fifteen; older spots fall in no bucket.
pub open spec fn bucket_of(ts: i64, now_s: i64) -> Option<int> {
    if now_s - 60 < ts {
        Some(0)
    } else if now_s - 300 < ts {
        Some(1)
    } else if now_s - 900 < ts {
        Some(2)
    } else {
        None
    }
}

/// Law: the recency buckets partition by priority. A spot within the last
/// minute counts in the one-minute bucket only; one older than that but
/// within five minutes in the five-minute bucket only; one older than that
/// but within fifteen minutes in the fifteen-minute bucket only; anything
/// older counts nowhere.
pub proof fn lemma_bucket_priority(ts: i64, now_s: i64)
    ensures
        bucket_of(ts, now_s) == Some(0int) <==> now_s - 60 < ts,
        bucket_of(ts, now_s) == Some(1int) <==> (ts <= now_s - 60 && now_s - 300 < ts),
        bucket_of(ts, now_s) == Some(2int) <==> (ts <= now_s - 300 && now_s - 900 < ts),
        bucket_of(ts, now_s) is None <==> ts <= now_s - 900,
{
}

/// The recency bucket, executable form.
pub fn bucket_of_exec(ts: i64, now_s: i64) -> (r: Option<u8>)
    ensures
        match r {
            Some(b) => bucket_of(ts, now_s) == Some(b as int),
            None => bucket_of(ts, now_s) is None,
        },
{
    let t = ts as i128;
    let n = now_s as i128;
    if n - 60 < t {
        Some(0)
    } else if n - 300 < t {
        Some(1)
    } else if n - 900 < t {
        Some(2)
    } else {
        None
    }
}

/// The spot of `spots` carrying identifier `id`, if any.
pub open spec fn lookup_spot(spots: Seq<StoredSpotV>, id: u64) -> Option<SpotV>
    decreases spots.len(),
{
    if spots.len() == 0 {
        None
    } else if spots[0].id == id {
        Some(spots[0].spot)
    } else {
        lookup_spot(spots.drop_first(), id)
    }
}

/// The spots that `ids` name in `spots`, in the order of `ids`;
/// an identifier the table does not hold contributes nothing.
pub open spec fn resolve_ids(spots: Seq<StoredSpotV>, ids: Seq<u64>) -> Seq<SpotV>
    decreases ids.len(),
{
    if ids.len() == 0 {
        Seq::empty()
    } else {
        match lookup_spot(spots, ids[0]) {
            Some(s) => seq![s] + resolve_ids(spots, ids.drop_first()),
            None => resolve_ids(spots, ids.drop_first()),
        }
    }
}

/// Resolving one more identifier appends its spot, if the table holds it.
pub proof fn lemma_resolve_push(spots: Seq<StoredSpotV>, ids: Seq<u64>, x: u64)
    ensures
        resolve_ids(spots, ids.push(x)) == match lookup_spot(spots, x) {
            Some(s) => resolve_ids(spots, ids).push(s),
            None => resolve_ids(spots, ids),
        },
    decreases ids.len(),
{
    if ids.len() == 0 {
        assert(ids.push(x)[0] == x);
        assert(ids =~= Seq::<u64>::empty());
        assert(resolve_ids(spots, ids) == Seq::<SpotV>::empty());
        assert(ids.push(x).drop_first() =~= ids);
        assert(resolve_ids(spots, ids.push(x).drop_first()) == Seq::<SpotV>::empty());
        match lookup_spot(spots, x) {
            Some(s) => {
                assert(resolve_ids(spots, ids.push(x)) == seq![s] + Seq::<SpotV>::empty());
                assert(seq![s] + Seq::<SpotV>::empty() =~= resolve_ids(spots, ids).push(s));
            },
            None => {
                assert(resolve_ids(spots, ids.push(x)) =~= resolve_ids(spots, ids));
            },
        }
    } else {
        assert(ids.push(x)[0] == ids[0]);
        assert(ids.push(x).drop_first() =~= ids.drop_first().push(x));
        assert(resolve_ids(spots, ids.push(x).drop_first()) == resolve_ids(
            spots,
            ids.drop_first().push(x),
        ));
        lemma_resolve_push(spots, ids.drop_first(), x);
        match lookup_spot(spots, ids[0]) {
            Some(h) => {
                assert(resolve_ids(spots, ids) == seq![h] + resolve_ids(spots, ids.drop_first()));
                match lookup_spot(spots, x) {
                    Some(s) => {
                        assert(resolve_ids(spots, ids.push(x)) == seq![h] + resolve_ids(
                            spots,
                            ids.drop_first(),
                        ).push(s));
                        assert(seq![h] + resolve_ids(spots, ids.drop_first()).push(s) =~= (
                        seq![h] + resolve_ids(spots, ids.drop_first())).push(s));
                    },
                    None => {
                        assert(resolve_ids(spots, ids.push(x)) == resolve_ids(spots, ids));
                    },
                }
            },
            None => {
                assert(resolve_ids(spots, ids.push(x)) == resolve_ids(
                    spots,
                    ids.drop_first().push(x),
                ));
            },
        }
    }
}

/// Looks up the spot with identifier `id`, returning a copy.
fn find_spot(spots: &Vec<StoredSpot>, id: u64) -> (r: Option<Spot>)
    ensures
        match r {
            Some(s) => lookup_spot(spots.deep_view(), id) == Some(s@),
            None => lookup_spot(spots.deep_view(), id) is None,
        },
{
    let ghost sv = spots.deep_view();
    proof {
        assert(sv.skip(0) =~= sv);
    }
    let mut i: usize = 0;
    while i < spots.len()
        invariant
            sv == spots.deep_view(),
            i <= spots.len(),
            lookup_spot(sv, id) == lookup_spot(sv.skip(i as int), id),
        decreases spots.len() - i,
    {
        proof {
            assert(sv.skip(i as int)[0] == sv[i as int]);
            assert(sv.skip(i as int).drop_first() =~= sv.skip(i as int + 1));
        }
        if spots[i].id == id {
            return Some(spots[i].spot.duplicate());
        }
        i = i + 1;
    }
    proof {
        assert(sv.skip(i as int).len() == 0);
    }
    None
}

/// Copies out the spots that `ids` name, in order; missing identifiers
/// contribute nothing.
pub fn resolve_spots(spots: &Vec<StoredSpot>, ids: &Vec<u64>) -> (r: Vec<Spot>)
    ensures
        r.deep_view() == resolve_ids(spots.deep_view(), ids@),
{
    let ghost sv = spots.deep_view();
    let mut out: Vec<Spot> = Vec::new();
    let mut i: usize = 0;
    proof {
        assert(ids@.take(0) =~= Seq::<u64>::empty());
        assert(out.deep_view() =~= resolve_ids(sv, ids@.take(0)));
    }
    while i < ids.len()
        invariant
            sv == spots.deep_view(),
            i <= ids.len(),
            out.deep_view() == resolve_ids(sv, ids@.take(i as int)),
        decreases ids.len() - i,
    {
        let ghost pre = out.deep_view();
        match find_spot(spots, ids[i]) {
            Some(s) => {
                out.push(s);
                proof {
                    assert(out.deep_view() =~= pre.push(
                        lookup_spot(sv, ids@[i as int]).unwrap(),
                    ));
                }
            },
            None => {},
        }
        proof {
            assert(ids@.take(i as int + 1) =~= ids@.take(i as int).push(ids@[i as int]));
            lemma_resolve_push(sv, ids@.take(i as int), ids@[i as int]);
        }
        i = i + 1;
    }
    proof {
        assert(ids@.take(ids.len() as int) =~= ids@);
    }
    out
}

/// Whether a spot counts towards the activity view: it lies in some band
/// of the table and in some recency bucket.
pub open spec fn spot_counted(s: SpotV, bands: Seq<BandV>, now_s: i64) -> bool {
    (exists|b: int| 0 <= b < bands.len() && band_contains(#[trigger] bands[b], s.freq_tenth_khz))
        && bucket_of(s.timestamp_s, now_s) is Some
}

/// Whether the spot counts towards the activity view, executable form.
fn is_counted(s: &Spot, bands: &Vec<Band>, now_s: i64) -> (r: bool)
    ensures
        r == spot_counted(s@, bands.deep_view(), now_s),
{
    proof {
        crate::bands::lemma_band_index_exists(bands.deep_view(), s.freq_tenth_khz);
    }
    let in_band = match crate::bands::find_band(bands, s.freq_tenth_khz) {
        Some(_) => true,
        None => false,
    };
    let in_bucket = match bucket_of_exec(s.timestamp_s, now_s) {
        Some(_) => true,
        None => false,
    };
    in_band && in_bucket
}

/// What one recency-bucket list holds: the distinct spotted callsigns of
/// the spots that fall in `band` and in bucket `bucket`, ascending.
pub open spec fn bucket_list_ok(
    list: Seq<Seq<char>>,
    rs: Seq<SpotV>,
    band: BandV,
    bucket: int,
    now_s: i64,
) -> bool {
    &&& strictly_sorted_chars(list)
    &&& forall|s: Seq<char>| #[trigger]
        list.contains(s) <==> exists|k: int|
            0 <= k < rs.len() && band_contains(band, (#[trigger] rs[k]).freq_tenth_khz)
                && bucket_of(rs[k].timestamp_s, now_s) == Some(bucket) && rs[k].spotted == s
}

/// The distinct callsigns spotted in `band` within recency bucket `bucket`.
fn collect_bucket(spots: &Vec<Spot>, band: &Band, bucket: u8, now_s: i64) -> (r: Vec<String>)
    ensures
        bucket_list_ok(r.deep_view(), spots.deep_view(), band@, bucket as int, now_s),
{
    let ghost rs = spots.deep_view();
    let ghost bv = band@;
    let mut found: Vec<String> = Vec::new();
    let mut i: usize = 0;
    while i < spots.len()
        invariant
            rs == spots.deep_view(),
            bv == band@,
            i <= spots.len(),
            forall|s: Seq<char>| #[trigger]
                found.deep_view().contains(s) <==> exists|k: int|
                    0 <= k < i && band_contains(bv, (#[trigger] rs[k]).freq_tenth_khz)
                        && bucket_of(rs[k].timestamp_s, now_s) == Some(bucket as int)
                        && rs[k].spotted == s,
        decreases spots.len() - i,
    {
        let ghost pre = found.deep_view();
        let f = spots[i].freq_tenth_khz;
        let in_band = band.lower_tenth_khz <= f && f <= band.upper_tenth_khz;
        let mut hit = false;
        if in_band {
            match bucket_of_exec(spots[i].timestamp_s, now_s) {
                Some(b) => {
                    hit = b == bucket;
                },
                None => {},
            }
        }
        if hit {
            found.push(spots[i].spotted.clone());
            proof {
                assert(found.deep_view() =~= pre.insert(pre.len() as int, rs[i as int].spotted));
                lemma_insert_contains(pre, pre.len() as int, rs[i as int].spotted);
            }
        }
        proof {
            let ii = i as int;
            assert(hit == (band_contains(bv, rs[ii].freq_tenth_khz) && bucket_of(
                rs[ii].timestamp_s,
                now_s,
            ) == Some(bucket as int)));
            assert forall|s: Seq<char>| #[trigger]
                found.deep_view().contains(s) implies exists|k: int|
                0 <= k < ii + 1 && band_contains(bv, (#[trigger] rs[k]).freq_tenth_khz)
                    && bucket_of(rs[k].timestamp_s, now_s) == Some(bucket as int) && rs[k].spotted
                    == s by {
                if pre.contains(s) {
                    let k = choose|k: int|
                        0 <= k < ii && band_contains(bv, (#[trigger] rs[k]).freq_tenth_khz)
                            && bucket_of(rs[k].timestamp_s, now_s) == Some(bucket as int)
                            && rs[k].spotted == s;
                    assert(0 <= k < ii + 1 && band_contains(bv, rs[k].freq_tenth_khz)
                        && bucket_of(rs[k].timestamp_s, now_s) == Some(bucket as int)
                        && rs[k].spotted == s);
                } else {
                    assert(band_contains(bv, rs[ii].freq_tenth_khz) && bucket_of(
                        rs[ii].timestamp_s,
                        now_s,
                    ) == Some(bucket as int) && rs[ii].spotted == s);
                }
            }
            assert forall|s: Seq<char>|
                (exists|k: int|
                    0 <= k < ii + 1 && band_contains(bv, (#[trigger] rs[k]).freq_tenth_khz)
                        && bucket_of(rs[k].timestamp_s, now_s) == Some(bucket as int)
                        && rs[k].spotted == s) implies #[trigger] found.deep_view().contains(
                s,
            ) by {
                let k = choose|k: int|
                    0 <= k < ii + 1 && band_contains(bv, (#[trigger] rs[k]).freq_tenth_khz)
                        && bucket_of(rs[k].timestamp_s, now_s) == Some(bucket as int)
                        && rs[k].spotted == s;
                if k < ii {
                    assert(pre.contains(s));
                }
            }
        }
        i = i + 1;
    }
    let r = sort_dedup_strings(&found);
    proof {
        assert forall|s: Seq<char>| #[trigger]
            r.deep_view().contains(s) <==> exists|k: int|
                0 <= k < rs.len() && band_contains(bv, (#[trigger] rs[k]).freq_tenth_khz)
                    && bucket_of(rs[k].timestamp_s, now_s) == Some(bucket as int) && rs[k].spotted
                    == s by {
            assert(r.deep_view().contains(s) <==> found.deep_view().contains(s));
        }
    }
    r
}

/// The distinct spotter callsigns among the given spots, ascending.
fn collect_spotters(spots: &Vec<Spot>) -> (r: Vec<String>)
    ensures
        strictly_sorted_chars(r.deep_view()),
        forall|s: Seq<char>| #[trigger]
            r.deep_view().contains(s) <==> exists|k: int|
                0 <= k < spots.deep_view().len() && (#[trigger] spots.deep_view()[k]).spotter == s,
{
    let ghost rs = spots.deep_view();
    let mut found: Vec<String> = Vec::new();
    let mut i: usize = 0;
    while i < spots.len()
        invariant
            rs == spots.deep_view(),
            i <= spots.len(),
            forall|s: Seq<char>| #[trigger]
                found.deep_view().contains(s) <==> exists|k: int|
                    0 <= k < i && (#[trigger] rs[k]).spotter == s,
        decreases spots.len() - i,
    {
        let ghost pre = found.deep_view();
        found.push(spots[i].spotter.clone());
        proof {
            let ii = i as int;
            assert(found.deep_view() =~= pre.insert(pre.len() as int, rs[ii].spotter));
            lemma_insert_contains(pre, pre.len() as int, rs[ii].spotter);
            assert forall|s: Seq<char>| #[trigger]
                found.deep_view().contains(s) implies exists|k: int|
                0 <= k < ii + 1 && (#[trigger] rs[k]).spotter == s by {
                if pre.contains(s) {
                    let k = choose|k: int| 0 <= k < ii && (#[trigger] rs[k]).spotter == s;
                    assert(0 <= k < ii + 1 && rs[k].spotter == s);
                } else {
                    assert(rs[ii].spotter == s);
                }
            }
            assert forall|s: Seq<char>|
                (exists|k: int| 0 <= k < ii + 1 && (#[trigger] rs[k]).spotter == s) implies
                #[trigger] found.deep_view().contains(s) by {
                let k = choose|k: int| 0 <= k < ii + 1 && (#[trigger] rs[k]).spotter == s;
                if k < ii {
                    assert(pre.contains(s));
                }
            }
        }
        i = i + 1;
    }
    let r = sort_dedup_strings(&found);
    proof {
        assert forall|s: Seq<char>| #[trigger]
            r.deep_view().contains(s) <==> exists|k: int|
                0 <= k < rs.len() && (#[trigger] rs[k]).spotter == s by {
            assert(r.deep_view().contains(s) <==> found.deep_view().contains(s));
        }
    }
    r
}

/// The distinct spotted callsigns among the counted spots, ascending.
fn collect_counted_calls(spots: &Vec<Spot>, bands: &Vec<Band>, now_s: i64) -> (r: Vec<String>)
    ensures
        strictly_sorted_chars(r.deep_view()),
        forall|c: Seq<char>| #[trigger]
            r.deep_view().contains(c) <==> exists|k: int|
                0 <= k < spots.deep_view().len() && spot_counted(
                    #[trigger] spots.deep_view()[k],
                    bands.deep_view(),
                    now_s,
                ) && spots.deep_view()[k].spotted == c,
{
    let ghost rs = spots.deep_view();
    let ghost bsv = bands.deep_view();
    let mut found: Vec<String> = Vec::new();
    let mut i: usize = 0;
    while i < spots.len()
        invariant
            rs == spots.deep_view(),
            bsv == bands.deep_view(),
            i <= spots.len(),
            forall|c: Seq<char>| #[trigger]
                found.deep_view().contains(c) <==> exists|k: int|
                    0 <= k < i && spot_counted(#[trigger] rs[k], bsv, now_s) && rs[k].spotted == c,
        decreases spots.len() - i,
    {
        let ghost pre = found.deep_view();
        let hit = is_counted(&spots[i], bands, now_s);
        if hit {
            found.push(spots[i].spotted.clone());
            proof {
                assert(found.deep_view() =~= pre.insert(pre.len() as int, rs[i as int].spotted));
                lemma_insert_contains(pre, pre.len() as int, rs[i as int].spotted);
            }
        }
        proof {
            let ii = i as int;
            assert(hit == spot_counted(rs[ii], bsv, now_s));
            assert forall|c: Seq<char>| #[trigger]
                found.deep_view().contains(c) implies exists|k: int|
                0 <= k < ii + 1 && spot_counted(#[trigger] rs[k], bsv, now_s) && rs[k].spotted
                    == c by {
                if pre.contains(c) {
                    let k = choose|k: int|
                        0 <= k < ii && spot_counted(#[trigger] rs[k], bsv, now_s) && rs[k].spotted
                            == c;
                    assert(0 <= k < ii + 1 && spot_counted(rs[k], bsv, now_s) && rs[k].spotted
                        == c);
                } else {
                    assert(spot_counted(rs[ii], bsv, now_s) && rs[ii].spotted == c);
                }
            }
            assert forall|c: Seq<char>|
                (exists|k: int|
                    0 <= k < ii + 1 && spot_counted(#[trigger] rs[k], bsv, now_s) && rs[k].spotted
                        == c) implies #[trigger] found.deep_view().contains(c) by {
                let k = choose|k: int|
                    0 <= k < ii + 1 && spot_counted(#[trigger] rs[k], bsv, now_s) && rs[k].spotted
                        == c;
                if k < ii {
                    assert(pre.contains(c));
                }
            }
        }
        i = i + 1;
    }
    let r = sort_dedup_strings(&found);
    proof {
        assert forall|c: Seq<char>| #[trigger]
            r.deep_view().contains(c) <==> exists|k: int|
                0 <= k < rs.len() && spot_counted(#[trigger] rs[k], bsv, now_s) && rs[k].spotted
                    == c by {
            assert(r.deep_view().contains(c) <==> found.deep_view().contains(c));
        }
    }
    r
}

/// The distinct frequencies observed for `call` among counted spots.
fn collect_freqs(spots: &Vec<Spot>, bands: &Vec<Band>, call: &str, now_s: i64) -> (r: Vec<u64>)
    ensures
        strictly_sorted_u64(r@),
        forall|f: u64| #[trigger]
            r@.contains(f) <==> exists|k: int|
                0 <= k < spots.deep_view().len() && spot_counted(
                    #[trigger] spots.deep_view()[k],
                    bands.deep_view(),
                    now_s,
                ) && spots.deep_view()[k].spotted == call@ && spots.deep_view()[k].freq_tenth_khz
                    == f,
{
    let ghost rs = spots.deep_view();
    let ghost bsv = bands.deep_view();
    let mut found: Vec<u64> = Vec::new();
    let mut i: usize = 0;
    while i < spots.len()
        invariant
            rs == spots.deep_view(),
            bsv == bands.deep_view(),
            i <= spots.len(),
            forall|f: u64| #[trigger]
                found@.contains(f) <==> exists|k: int|
                    0 <= k < i && spot_counted(#[trigger] rs[k], bsv, now_s) && rs[k].spotted
                        == call@ && rs[k].freq_tenth_khz == f,
        decreases spots.len() - i,
    {
        let ghost pre = found@;
        let hit = is_counted(&spots[i], bands, now_s) && str_eq_exec(
            spots[i].spotted.as_str(),
            call,
        );
        if hit {
            found.push(spots[i].freq_tenth_khz);
            proof {
                assert(found@ =~= pre.insert(pre.len() as int, rs[i as int].freq_tenth_khz));
                lemma_insert_contains(pre, pre.len() as int, rs[i as int].freq_tenth_khz);
            }
        }
        proof {
            let ii = i as int;
            assert(hit == (spot_counted(rs[ii], bsv, now_s) && rs[ii].spotted == call@));
            assert forall|f: u64| #[trigger] found@.contains(f) implies exists|k: int|
                0 <= k < ii + 1 && spot_counted(#[trigger] rs[k], bsv, now_s) && rs[k].spotted
                    == call@ && rs[k].freq_tenth_khz == f by {
                if pre.contains(f) {
                    let k = choose|k: int|
                        0 <= k < ii && spot_counted(#[trigger] rs[k], bsv, now_s) && rs[k].spotted
                            == call@ && rs[k].freq_tenth_khz == f;
                    assert(0 <= k < ii + 1 && spot_counted(rs[k], bsv, now_s) && rs[k].spotted
                        == call@ && rs[k].freq_tenth_khz == f);
                } else {
                    assert(spot_counted(rs[ii], bsv, now_s) && rs[ii].spotted == call@
                        && rs[ii].freq_tenth_khz == f);
                }
            }
            assert forall|f: u64|
                (exists|k: int|
                    0 <= k < ii + 1 && spot_counted(#[trigger] rs[k], bsv, now_s) && rs[k].spotted
                        == call@ && rs[k].freq_tenth_khz == f) implies #[trigger] found@.contains(
                f,
            ) by {
                let k = choose|k: int|
                    0 <= k < ii + 1 && spot_counted(#[trigger] rs[k], bsv, now_s) && rs[k].spotted
                        == call@ && rs[k].freq_tenth_khz == f;
                if k < ii {
                    assert(pre.contains(f));
                }
            }
        }
        i = i + 1;
    }
    let r = sort_dedup_u64(&found);
    proof {
        assert forall|f: u64| #[trigger]
            r@.contains(f) <==> exists|k: int|
                0 <= k < rs.len() && spot_counted(#[trigger] rs[k], bsv, now_s) && rs[k].spotted
                    == call@ && rs[k].freq_tenth_khz == f by {
            assert(r@.contains(f) <==> found@.contains(f));
        }
    }
    r
}

/// The distinct code speeds observed for `call` among counted spots.
fn collect_wpms(spots: &Vec<Spot>, bands: &Vec<Band>, call: &str, now_s: i64) -> (r: Vec<u32>)
    ensures
        strictly_sorted_u32(r@),
        forall|w: u32| #[trigger]
            r@.contains(w) <==> exists|k: int|
                0 <= k < spots.deep_view().len() && spot_counted(
                    #[trigger] spots.deep_view()[k],
                    bands.deep_view(),
                    now_s,
                ) && spots.deep_view()[k].spotted == call@ && spots.deep_view()[k].wpm == w,
{
    let ghost rs = spots.deep_view();
    let ghost bsv = bands.deep_view();
    let mut found: Vec<u32> = Vec::new();
    let mut i: usize = 0;
    while i < spots.len()
        invariant
            rs == spots.deep_view(),
            bsv == bands.deep_view(),
            i <= spots.len(),
            forall|w: u32| #[trigger]
                found@.contains(w) <==> exists|k: int|
                    0 <= k < i && spot_counted(#[trigger] rs[k], bsv, now_s) && rs[k].spotted
                        == call@ && rs[k].wpm == w,
        decreases spots.len() - i,
    {
        let ghost pre = found@;
        let hit = is_counted(&spots[i], bands, now_s) && str_eq_exec(
            spots[i].spotted.as_str(),
            call,
        );
        if hit {
            found.push(spots[i].wpm);
            proof {
                assert(found@ =~= pre.insert(pre.len() as int, rs[i as int].wpm));
                lemma_insert_contains(pre, pre.len() as int, rs[i as int].wpm);
            }
        }
        proof {
            let ii = i as int;
            assert(hit == (spot_counted(rs[ii], bsv, now_s) && rs[ii].spotted == call@));
            assert forall|w: u32| #[trigger] found@.contains(w) implies exists|k: int|
                0 <= k < ii + 1 && spot_counted(#[trigger] rs[k], bsv, now_s) && rs[k].spotted
                    == call@ && rs[k].wpm == w by {
                if pre.contains(w) {
                    let k = choose|k: int|
                        0 <= k < ii && spot_counted(#[trigger] rs[k], bsv, now_s) && rs[k].spotted
                            == call@ && rs[k].wpm == w;
                    assert(0 <= k < ii + 1 && spot_counted(rs[k], bsv, now_s) && rs[k].spotted
                        == call@ && rs[k].wpm == w);
                } else {
                    assert(spot_counted(rs[ii], bsv, now_s) && rs[ii].spotted == call@ && rs[ii].wpm
                        == w);
                }
            }
            assert forall|w: u32|
                (exists|k: int|
                    0 <= k < ii + 1 && spot_counted(#[trigger] rs[k], bsv, now_s) && rs[k].spotted
                        == call@ && rs[k].wpm == w) implies #[trigger] found@.contains(w) by {
                let k = choose|k: int|
                    0 <= k < ii + 1 && spot_counted(#[trigger] rs[k], bsv, now_s) && rs[k].spotted
                        == call@ && rs[k].wpm == w;
                if k < ii {
                    assert(pre.contains(w));
                }
            }
        }
        i = i + 1;
    }
    let r = sort_dedup_u32(&found);
    proof {
        assert forall|w: u32| #[trigger]
            r@.contains(w) <==> exists|k: int|
                0 <= k < rs.len() && spot_counted(#[trigger] rs[k], bsv, now_s) && rs[k].spotted
                    == call@ && rs[k].wpm == w by {
            assert(r@.contains(w) <==> found@.contains(w));
        }
    }
    r
}

/// The distinct signal reports observed for `call` among counted spots.
fn collect_snrs(spots: &Vec<Spot>, bands: &Vec<Band>, call: &str, now_s: i64) -> (r: Vec<i32>)
    ensures
        strictly_sorted_i32(r@),
        forall|d: i32| #[trigger]
            r@.contains(d) <==> exists|k: int|
                0 <= k < spots.deep_view().len() && spot_counted(
                    #[trigger] spots.deep_view()[k],
                    bands.deep_view(),
                    now_s,
                ) && spots.deep_view()[k].spotted == call@ && spots.deep_view()[k].snr_db == d,
{
    let ghost rs = spots.deep_view();
    let ghost bsv = bands.deep_view();
    let mut found: Vec<i32> = Vec::new();
    let mut i: usize = 0;
    while i < spots.len()
        invariant
            rs == spots.deep_view(),
            bsv == bands.deep_view(),
            i <= spots.len(),
            forall|d: i32| #[trigger]
                found@.contains(d) <==> exists|k: int|
                    0 <= k < i && spot_counted(#[trigger] rs[k], bsv, now_s) && rs[k].spotted
                        == call@ && rs[k].snr_db == d,
        decreases spots.len() - i,
    {
        let ghost pre = found@;
        let hit = is_counted(&spots[i], bands, now_s) && str_eq_exec(
            spots[i].spotted.as_str(),
            call,
        );
        if hit {
            found.push(spots[i].snr_db);
            proof {
                assert(found@ =~= pre.insert(pre.len() as int, rs[i as int].snr_db));
                lemma_insert_contains(pre, pre.len() as int, rs[i as int].snr_db);
            }
        }
        proof {
            let ii = i as int;
            assert(hit == (spot_counted(rs[ii], bsv, now_s) && rs[ii].spotted == call@));
            assert forall|d: i32| #[trigger] found@.contains(d) implies exists|k: int|
                0 <= k < ii + 1 && spot_counted(#[trigger] rs[k], bsv, now_s) && rs[k].spotted
                    == call@ && rs[k].snr_db == d by {
                if pre.contains(d) {
                    let k = choose|k: int|
                        0 <= k < ii && spot_counted(#[trigger] rs[k], bsv, now_s) && rs[k].spotted
                            == call@ && rs[k].snr_db == d;
                    assert(0 <= k < ii + 1 && spot_counted(rs[k], bsv, now_s) && rs[k].spotted
                        == call@ && rs[k].snr_db == d);
                } else {
                    assert(spot_counted(rs[ii], bsv, now_s) && rs[ii].spotted == call@
                        && rs[ii].snr_db == d);
                }
            }
            assert forall|d: i32|
                (exists|k: int|
                    0 <= k < ii + 1 && spot_counted(#[trigger] rs[k], bsv, now_s) && rs[k].spotted
                        == call@ && rs[k].snr_db == d) implies #[trigger] found@.contains(d) by {
                let k = choose|k: int|
                    0 <= k < ii + 1 && spot_counted(#[trigger] rs[k], bsv, now_s) && rs[k].spotted
                        == call@ && rs[k].snr_db == d;
                if k < ii {
                    assert(pre.contains(d));
                }
            }
        }
        i = i + 1;
    }
    let r = sort_dedup_i32(&found);
    proof {
        assert forall|d: i32| #[trigger]
            r@.contains(d) <==> exists|k: int|
                0 <= k < rs.len() && spot_counted(#[trigger] rs[k], bsv, now_s) && rs[k].spotted
                    == call@ && rs[k].snr_db == d by {
            assert(r@.contains(d) <==> found@.contains(d));
        }
    }
    r
}

/// What one aggregate entry holds: the distinct frequencies, speeds and
/// signal reports of the counted spots of its callsign, each ascending.
pub open spec fn call_entry_ok(
    e: CallInfoEntryV,
    rs: Seq<SpotV>,
    bands: Seq<BandV>,
    now_s: i64,
) -> bool {
    &&& strictly_sorted_u64(e.info.frequencies)
    &&& forall|f: u64| #[trigger]
        e.info.frequencies.contains(f) <==> exists|k: int|
            0 <= k < rs.len() && spot_counted(#[trigger] rs[k], bands, now_s) && rs[k].spotted
                == e.call && rs[k].freq_tenth_khz == f
    &&& strictly_sorted_u32(e.info.wpm)
    &&& forall|w: u32| #[trigger]
        e.info.wpm.contains(w) <==> exists|k: int|
            0 <= k < rs.len() && spot_counted(#[trigger] rs[k], bands, now_s) && rs[k].spotted
                == e.call && rs[k].wpm == w
    &&& strictly_sorted_i32(e.info.db)
    &&& forall|d: i32| #[trigger]
        e.info.db.contains(d) <==> exists|k: int|
            0 <= k < rs.len() && spot_counted(#[trigger] rs[k], bands, now_s) && rs[k].spotted
                == e.call && rs[k].snr_db == d
}

/// Whether some entry of the aggregate table carries callsign `c`.
pub open spec fn entries_have_call(entries: Seq<CallInfoEntryV>, c: Seq<char>) -> bool {
    exists|i: int| 0 <= i < entries.len() && (#[trigger] entries[i]).call == c
}

/// Whether some counted spot is of callsign `c`.
pub open spec fn counted_call(rs: Seq<SpotV>, bands: Seq<BandV>, now_s: i64, c: Seq<char>) -> bool {
    exists|k: int|
        0 <= k < rs.len() && spot_counted(#[trigger] rs[k], bands, now_s) && rs[k].spotted == c
}

/// What the aggregate table holds: one entry per counted spotted callsign,
/// in ascending callsign order, each entry correct.
pub open spec fn call_info_ok(
    entries: Seq<CallInfoEntryV>,
    rs: Seq<SpotV>,
    bands: Seq<BandV>,
    now_s: i64,
) -> bool {
    &&& forall|i: int, j: int|
        0 <= i < j < entries.len() ==> crate::sorting::chars_lt(
            (#[trigger] entries[i]).call,
            (#[trigger] entries[j]).call,
        )
    &&& forall|i: int|
        0 <= i < entries.len() ==> call_entry_ok(#[trigger] entries[i], rs, bands, now_s)
    &&& forall|c: Seq<char>| #[trigger]
        entries_have_call(entries, c) <==> counted_call(rs, bands, now_s, c)
}

/// One aggregate entry per counted spotted callsign, ascending by callsign.
fn build_call_infos(spots: &Vec<Spot>, bands: &Vec<Band>, now_s: i64) -> (r: Vec<CallInfoEntry>)
    ensures
        call_info_ok(r.deep_view(), spots.deep_view(), bands.deep_view(), now_s),
{
    let ghost rs = spots.deep_view();
    let ghost bsv = bands.deep_view();
    let calls = collect_counted_calls(spots, bands, now_s);
    let ghost cv = calls.deep_view();
    let mut out: Vec<CallInfoEntry> = Vec::new();
    let mut i: usize = 0;
    while i < calls.len()
        invariant
            rs == spots.deep_view(),
            bsv == bands.deep_view(),
            cv == calls.deep_view(),
            i <= calls.len(),
            out.deep_view().len() == i,
            forall|t: int| 0 <= t < i ==> (#[trigger] out.deep_view()[t]).call == cv[t],
            forall|t: int|
                0 <= t < i ==> call_entry_ok(#[trigger] out.deep_view()[t], rs, bsv, now_s),
        decreases calls.len() - i,
    {
        let ghost pre = out.deep_view();
        let call = calls[i].clone();
        let freqs = collect_freqs(spots, bands, call.as_str(), now_s);
        let wpms = collect_wpms(spots, bands, call.as_str(), now_s);
        let snrs = collect_snrs(spots, bands, call.as_str(), now_s);
        let entry = CallInfoEntry {
            call,
            info: CallInfo { frequencies: freqs, wpm: wpms, db: snrs },
        };
        proof {
            assert(entry.deep_view().call == cv[i as int]);
            assert(call_entry_ok(entry.deep_view(), rs, bsv, now_s));
        }
        out.push(entry);
        proof {
            assert(out.deep_view() =~= pre.push(entry.deep_view()));
        }
        i = i + 1;
    }
    proof {
        assert forall|c: Seq<char>| #[trigger]
            entries_have_call(out.deep_view(), c) <==> counted_call(rs, bsv, now_s, c) by {
            if entries_have_call(out.deep_view(), c) {
                let t = choose|t: int|
                    0 <= t < out.deep_view().len() && (#[trigger] out.deep_view()[t]).call == c;
                assert(cv[t] == c);
                assert(cv.contains(c));
            }
            if counted_call(rs, bsv, now_s, c) {
                assert(cv.contains(c));
                let t = choose|t: int| 0 <= t < cv.len() && cv[t] == c;
                assert(out.deep_view()[t].call == c);
                assert(entries_have_call(out.deep_view(), c));
            }
        }
    }
    out
}

/// What a whole activity report holds, against the spots `rs` seen from
/// `now_s`: one entry per band of the table with its three recency
/// buckets, the distinct spotters, and the per-callsign aggregates.
pub open spec fn activity_report_ok(
    bas: Seq<BandActivityV>,
    spotters: Seq<Seq<char>>,
    infos: Seq<CallInfoEntryV>,
    rs: Seq<SpotV>,
    now_s: i64,
) -> bool {
    let bandsv = spec_hf_bands();
    &&& bas.len() == bandsv.len()
    &&& forall|b: int|
        0 <= b < bandsv.len() ==> {
            let ba = #[trigger] bas[b];
            ba.band == bandsv[b].name && bucket_list_ok(ba.active_1min, rs, bandsv[b], 0, now_s)
                && bucket_list_ok(ba.active_5min, rs, bandsv[b], 1, now_s) && bucket_list_ok(
                ba.active_15min,
                rs,
                bandsv[b],
                2,
                now_s,
            )
        }
    &&& strictly_sorted_chars(spotters)
    &&& forall|s: Seq<char>| #[trigger]
        spotters.contains(s) <==> exists|k: int| 0 <= k < rs.len() && (#[trigger] rs[k]).spotter
            == s
    &&& call_info_ok(infos, rs, spec_hf_bands(), now_s)
}

impl Region {
    /// The region's activity view against the fixed band table, seen from
    /// `now_s`: per band the distinct spotted callsigns of each recency
    /// bucket; the region's distinct spotters; and per counted spotted
    /// callsign its aggregated observations. Every list is ascending.
    #[verifier::rlimit(100)]
    pub fn get_band_activities(&self, spots: &Vec<StoredSpot>, now_s: i64) -> (r: (
        Vec<BandActivity>,
        Vec<String>,
        Vec<CallInfoEntry>,
    ))
        ensures
            activity_report_ok(
                r.0.deep_view(),
                r.1.deep_view(),
                r.2.deep_view(),
                resolve_ids(spots.deep_view(), self@.spot_ids),
                now_s,
            ),
    {
        let resolved = resolve_spots(spots, &self.spot_ids);
        let ghost rs = resolved.deep_view();
        let bands = hf_bands();
        let ghost bandsv = bands.deep_view();
        let mut out: Vec<BandActivity> = Vec::new();
        let mut b: usize = 0;
        while b < bands.len()
            invariant
                rs == resolved.deep_view(),
                bandsv == bands.deep_view(),
                bandsv == spec_hf_bands(),
                b <= bands.len(),
                out.deep_view().len() == b,
                forall|t: int|
                    0 <= t < b ==> {
                        let ba = #[trigger] out.deep_view()[t];
                        ba.band == bandsv[t].name && bucket_list_ok(
                            ba.active_1min,
                            rs,
                            bandsv[t],
                            0,
                            now_s,
                        ) && bucket_list_ok(ba.active_5min, rs, bandsv[t], 1, now_s)
                            && bucket_list_ok(ba.active_15min, rs, bandsv[t], 2, now_s)
                    },
            decreases bands.len() - b,
        {
            let ghost pre = out.deep_view();
            let band = &bands[b];
            let ba = BandActivity {
                band: band.name.clone(),
                active_1min: collect_bucket(&resolved, band, 0, now_s),
                active_5min: collect_bucket(&resolved, band, 1, now_s),
                active_15min: collect_bucket(&resolved, band, 2, now_s),
            };
            proof {
                assert(ba.deep_view().band == bandsv[b as int].name);
            }
            out.push(ba);
            proof {
                assert(out.deep_view() =~= pre.push(ba.deep_view()));
            }
            b = b + 1;
        }
        let spotters = collect_spotters(&resolved);
        let infos = build_call_infos(&resolved, &bands, now_s);
        proof {
            let rse = resolve_ids(spots.deep_view(), self@.spot_ids);
            assert(rse == rs);
            assert(out.deep_view().len() == spec_hf_bands().len());
            assert(forall|t: int|
                0 <= t < spec_hf_bands().len() ==> {
                    let ba = #[trigger] out.deep_view()[t];
                    ba.band == spec_hf_bands()[t].name && bucket_list_ok(
                        ba.active_1min,
                        rse,
                        spec_hf_bands()[t],
                        0,
                        now_s,
                    ) && bucket_list_ok(ba.active_5min, rse, spec_hf_bands()[t], 1, now_s)
                        && bucket_list_ok(ba.active_15min, rse, spec_hf_bands()[t], 2, now_s)
                });
            assert(strictly_sorted_chars(spotters.deep_view()));
            assert(forall|s: Seq<char>| #[trigger]
                spotters.deep_view().contains(s) <==> exists|k: int|
                    0 <= k < rse.len() && (#[trigger] rse[k]).spotter == s);
            assert(call_info_ok(infos.deep_view(), rse, spec_hf_bands(), now_s));
        }
        (out, spotters, infos)
    }
}

} // verus!

