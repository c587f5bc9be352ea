//! The in-memory spot database: a global list of spots plus named regions.
//!
//! Spots live in one table under stable, strictly increasing identifiers;
//! each region holds the identifiers of the spots whose spotter callsign
//! carries one of the region's prefixes. Eviction removes a spot from the
//! table and from every region together, so a region can never reach a spot
//! that the table no longer holds.

use crate::sorting::lemma_insert_contains;
use crate::text::{str_eq_exec, str_starts_with};
use vstd::prelude::*;

verus! {

/// An element is in a sequence iff it is in the head part or is the last.
pub proof fn lemma_contains_drop_last<A>(s: Seq<A>)
    requires
        s.len() > 0,
    ensures
        forall|x: A| #[trigger] s.contains(x) <==> (s.drop_last().contains(x) || x == s.last()),
{
    assert forall|x: A| #[trigger] s.contains(x) implies (s.drop_last().contains(x) || x
        == s.last()) by {
        let k = choose|k: int| 0 <= k < s.len() && s[k] == x;
        if k < s.len() - 1 {
            assert(s.drop_last()[k] == x);
        }
    }
    assert forall|x: A| (s.drop_last().contains(x) || x == s.last()) implies #[trigger] s.contains(
        x,
    ) by {
        if s.drop_last().contains(x) {
            let k = choose|k: int| 0 <= k < s.drop_last().len() && s.drop_last()[k] == x;
            assert(s[k] == x);
        } else {
            assert(s[s.len() - 1] == x);
        }
    }
}

/// What a filtered sequence holds: the elements that pass the predicate.
pub proof fn lemma_filter_membership<A>(s: Seq<A>, p: spec_fn(A) -> bool)
    ensures
        forall|x: A| #[trigger] s.filter(p).contains(x) <==> (s.contains(x) && p(x)),
    decreases s.len(),
{
    reveal(Seq::filter);
    if s.len() == 0 {
        assert(forall|x: A| !s.contains(x));
        assert(forall|x: A| !s.filter(p).contains(x));
    } else {
        lemma_filter_membership(s.drop_last(), p);
        lemma_contains_drop_last(s);
        if p(s.last()) {
            assert(s.filter(p) == s.drop_last().filter(p).push(s.last()));
            assert(s.filter(p) =~= s.drop_last().filter(p).insert(
                s.drop_last().filter(p).len() as int,
                s.last(),
            ));
            lemma_insert_contains(s.drop_last().filter(p), s.drop_last().filter(p).len() as int, s.last());
        }
    }
}

/// Filtering keeps a strictly increasing identifier order.
pub proof fn lemma_filter_sorted_spots(s: Seq<StoredSpotV>, p: spec_fn(StoredSpotV) -> bool)
    requires
        forall|i: int, j: int|
            0 <= i < j < s.len() ==> (#[trigger] s[i]).id < (#[trigger] s[j]).id,
    ensures
        forall|i: int, j: int|
            0 <= i < j < s.filter(p).len() ==> (#[trigger] s.filter(p)[i]).id < (
            #[trigger] s.filter(p)[j]).id,
    decreases s.len(),
{
    reveal(Seq::filter);
    if s.len() > 0 {
        lemma_filter_sorted_spots(s.drop_last(), p);
        lemma_filter_membership(s.drop_last(), p);
        if p(s.last()) {
            let fdl = s.drop_last().filter(p);
            assert forall|i: int, j: int| 0 <= i < j < s.filter(p).len() implies (
            #[trigger] s.filter(p)[i]).id < (#[trigger] s.filter(p)[j]).id by {
                if j == s.filter(p).len() - 1 {
                    assert(s.filter(p)[i] == fdl[i]);
                    assert(fdl.contains(fdl[i]));
                    assert(s.drop_last().contains(fdl[i]));
                    let k = choose|k: int|
                        0 <= k < s.drop_last().len() && s.drop_last()[k] == fdl[i];
                    assert(s[k] == fdl[i]);
                    assert(s[k].id < s[s.len() - 1].id);
                } else {
                    assert(s.filter(p)[i] == fdl[i]);
                    assert(s.filter(p)[j] == fdl[j]);
                }
            }
        }
    }
}

/// Filtering keeps a strictly increasing order of identifiers.
pub proof fn lemma_filter_sorted_u64(s: Seq<u64>, p: spec_fn(u64) -> bool)
    requires
        forall|i: int, j: int| 0 <= i < j < s.len() ==> s[i] < s[j],
    ensures
        forall|i: int, j: int|
            0 <= i < j < s.filter(p).len() ==> (#[trigger] s.filter(p)[i]) < (
            #[trigger] s.filter(p)[j]),
    decreases s.len(),
{
    reveal(Seq::filter);
    if s.len() > 0 {
        lemma_filter_sorted_u64(s.drop_last(), p);
        lemma_filter_membership(s.drop_last(), p);
        if p(s.last()) {
            let fdl = s.drop_last().filter(p);
            assert forall|i: int, j: int| 0 <= i < j < s.filter(p).len() implies (
            #[trigger] s.filter(p)[i]) < (#[trigger] s.filter(p)[j]) by {
                if j == s.filter(p).len() - 1 {
                    assert(s.filter(p)[i] == fdl[i]);
                    assert(fdl.contains(fdl[i]));
                    assert(s.drop_last().contains(fdl[i]));
                    let k = choose|k: int|
                        0 <= k < s.drop_last().len() && s.drop_last()[k] == fdl[i];
                    assert(s[k] == fdl[i]);
                    assert(s[k] < s[s.len() - 1]);
                } else {
                    assert(s.filter(p)[i] == fdl[i]);
                    assert(s.filter(p)[j] == fdl[j]);
                }
            }
        }
    }
}

/// Two predicates that agree on a sequence's elements filter it alike.
pub proof fn lemma_filter_agree<A>(s: Seq<A>, p: spec_fn(A) -> bool, q: spec_fn(A) -> bool)
    requires
        forall|i: int| 0 <= i < s.len() ==> (p(#[trigger] s[i]) <==> q(s[i])),
    ensures
        s.filter(p) == s.filter(q),
    decreases s.len(),
{
    reveal(Seq::filter);
    if s.len() > 0 {
        lemma_filter_agree(s.drop_last(), p, q);
        assert(forall|i: int|
            0 <= i < s.drop_last().len() ==> (#[trigger] s.drop_last()[i]) == s[i]);
        assert(p(s.last()) <==> q(s.last())) by {
            assert(s.last() == s[s.len() - 1]);
        }
    }
}

/// Mathematical value of a [`Spot`].
#[verifier::ext_equal]
pub ghost struct SpotV {
    pub spotter: Seq<char>,
    pub spotted: Seq<char>,
    pub freq_tenth_khz: u64,
    pub mode: Seq<char>,
    pub snr_db: i32,
    pub wpm: u32,
    pub msg: Seq<char>,
    pub timestamp_s: i64,
}

/// One observation of a station: who heard whom, where and how well.
///
/// Frequencies are in tenths of a kHz, timestamps in seconds since the
/// Unix epoch.
pub struct Spot {
    pub spotter: String,
    pub spotted: String,
    pub freq_tenth_khz: u64,
    pub mode: String,
    pub snr_db: i32,
    pub wpm: u32,
    pub msg: String,
    pub timestamp_s: i64,
}

impl View for Spot {
    type V = SpotV;

    open spec fn view(&self) -> SpotV {
        SpotV {
            spotter: self.spotter@,
            spotted: self.spotted@,
            freq_tenth_khz: self.freq_tenth_khz,
            mode: self.mode@,
            snr_db: self.snr_db,
            wpm: self.wpm,
            msg: self.msg@,
            timestamp_s: self.timestamp_s,
        }
    }
}

impl DeepView for Spot {
    type V = SpotV;

    open spec fn deep_view(&self) -> SpotV {
        self.view()
    }
}

impl Spot {
    /// A copy of the spot with the same value.
    pub fn duplicate(&self) -> (r: Spot)
        ensures
            r@ == self@,
    {
        Spot {
            spotter: self.spotter.clone(),
            spotted: self.spotted.clone(),
            freq_tenth_khz: self.freq_tenth_khz,
            mode: self.mode.clone(),
            snr_db: self.snr_db,
            wpm: self.wpm,
            msg: self.msg.clone(),
            timestamp_s: self.timestamp_s,
        }
    }
}

/// Mathematical value of a [`StoredSpot`].
#[verifier::ext_equal]
pub ghost struct StoredSpotV {
    pub id: u64,
    pub spot: SpotV,
}

/// A spot in the global table, under its stable identifier.
pub struct StoredSpot {
    pub id: u64,
    pub spot: Spot,
}

impl View for StoredSpot {
    type V = StoredSpotV;

    open spec fn view(&self) -> StoredSpotV {
        StoredSpotV { id: self.id, spot: self.spot@ }
    }
}

impl DeepView for StoredSpot {
    type V = StoredSpotV;

    open spec fn deep_view(&self) -> StoredSpotV {
        self.view()
    }
}

impl StoredSpot {
    /// A copy of the stored spot with the same value.
    pub fn duplicate(&self) -> (r: StoredSpot)
        ensures
            r@ == self@,
    {
        StoredSpot { id: self.id, spot: self.spot.duplicate() }
    }
}

/// Whether a spot's timestamp lies before the cutoff `now_s - max_age_s`.
pub open spec fn spot_expired(s: SpotV, now_s: i64, max_age_s: u64) -> bool {
    (s.timestamp_s as int) < now_s - max_age_s
}

/// Whether `id` names a spot of `spots` whose timestamp lies before the cutoff.
pub open spec fn id_expired(spots: Seq<StoredSpotV>, id: u64, now_s: i64, max_age_s: u64) -> bool {
    exists|k: int|
        0 <= k < spots.len() && (#[trigger] spots[k]).id == id && spot_expired(
            spots[k].spot,
            now_s,
            max_age_s,
        )
}

/// One step of [`id_expired`] along a `take` prefix.
pub proof fn lemma_id_expired_take_succ(s: Seq<StoredSpotV>, i: int, now_s: i64, max_age_s: u64)
    requires
        0 <= i < s.len(),
    ensures
        forall|x: u64|
            id_expired(s.take(i + 1), x, now_s, max_age_s) <==> (id_expired(
                s.take(i),
                x,
                now_s,
                max_age_s,
            ) || ((#[trigger] s[i]).id == x && spot_expired(s[i].spot, now_s, max_age_s))),
{
    assert forall|x: u64| id_expired(s.take(i + 1), x, now_s, max_age_s) implies (id_expired(
        s.take(i),
        x,
        now_s,
        max_age_s,
    ) || (s[i].id == x && spot_expired(s[i].spot, now_s, max_age_s))) by {
        let k = choose|k: int|
            0 <= k < s.take(i + 1).len() && (#[trigger] s.take(i + 1)[k]).id == x && spot_expired(
                s.take(i + 1)[k].spot,
                now_s,
                max_age_s,
            );
        if k < i {
            assert(s.take(i)[k] == s.take(i + 1)[k]);
        } else {
            assert(s.take(i + 1)[k] == s[i]);
        }
    }
    assert forall|x: u64|
        (id_expired(s.take(i), x, now_s, max_age_s) || ((#[trigger] s[i]).id == x && spot_expired(
            s[i].spot,
            now_s,
            max_age_s,
        ))) implies id_expired(s.take(i + 1), x, now_s, max_age_s) by {
        if id_expired(s.take(i), x, now_s, max_age_s) {
            let k = choose|k: int|
                0 <= k < s.take(i).len() && (#[trigger] s.take(i)[k]).id == x && spot_expired(
                    s.take(i)[k].spot,
                    now_s,
                    max_age_s,
                );
            assert(s.take(i + 1)[k] == s.take(i)[k]);
            assert((s.take(i + 1)[k]).id == x && spot_expired(s.take(i + 1)[k].spot, now_s, max_age_s));
        } else {
            assert(s.take(i + 1)[i] == s[i]);
            assert((s.take(i + 1)[i]).id == x && spot_expired(s.take(i + 1)[i].spot, now_s, max_age_s));
        }
    }
}

/// Whether `ts` lies before the cutoff `now_s - max_age_s`.
fn is_expired_exec(ts: i64, now_s: i64, max_age_s: u64) -> (r: bool)
    ensures
        r == ((ts as int) < now_s - max_age_s),
{
    (ts as i128) < (now_s as i128) - (max_age_s as i128)
}

/// Mathematical value of a [`Region`].
#[verifier::ext_equal]
pub ghost struct RegionV {
    pub name: Seq<char>,
    pub prefixes: Seq<Seq<char>>,
    pub spot_ids: Seq<u64>,
}

/// A named group of spots, filtered by spotter-callsign prefix.
pub struct Region {
    pub name: String,
    pub prefixes: Vec<String>,
    pub spot_ids: Vec<u64>,
}

impl View for Region {
    type V = RegionV;

    open spec fn view(&self) -> RegionV {
        RegionV { name: self.name@, prefixes: self.prefixes.deep_view(), spot_ids: self.spot_ids@ }
    }
}

impl DeepView for Region {
    type V = RegionV;

    open spec fn deep_view(&self) -> RegionV {
        self.view()
    }
}

/// Whether `callsign` starts with one of `prefixes`.
pub open spec fn matches_prefix(prefixes: Seq<Seq<char>>, callsign: Seq<char>) -> bool {
    exists|i: int| 0 <= i < prefixes.len() && (#[trigger] prefixes[i]).is_prefix_of(callsign)
}

impl Region {
    /// A fresh region with the given name and prefixes, holding no spots.
    pub fn new(name: String, prefixes: Vec<String>) -> (r: Region)
        ensures
            r@.name == name@,
            r@.prefixes == prefixes.deep_view(),
            r@.spot_ids == Seq::<u64>::empty(),
    {
        let r = Region { name, prefixes, spot_ids: Vec::new() };
        proof {
            assert(r.spot_ids@ =~= Seq::<u64>::empty());
        }
        r
    }

    /// Whether `callsign` starts with one of this region's prefixes.
    pub fn match_callsign(&self, callsign: &str) -> (r: bool)
        ensures
            r == matches_prefix(self@.prefixes, callsign@),
    {
        let mut i: usize = 0;
        while i < self.prefixes.len()
            invariant
                i <= self.prefixes.len(),
                forall|j: int|
                    0 <= j < i ==> !(#[trigger] self.prefixes.deep_view()[j]).is_prefix_of(
                        callsign@,
                    ),
            decreases self.prefixes.len() - i,
        {
            if str_starts_with(callsign, self.prefixes[i].as_str()) {
                proof {
                    assert((self.prefixes.deep_view()[i as int]).is_prefix_of(callsign@));
                }
                return true;
            }
            i = i + 1;
        }
        false
    }

    /// Records spot `id` in this region iff the spotter matches a prefix.
    pub fn add_spot(&mut self, id: u64, spot: &Spot)
        ensures
            final(self)@.name == old(self)@.name,
            final(self)@.prefixes == old(self)@.prefixes,
            final(self)@.spot_ids == if matches_prefix(old(self)@.prefixes, spot@.spotter) {
                old(self)@.spot_ids.push(id)
            } else {
                old(self)@.spot_ids
            },
    {
        if self.match_callsign(spot.spotter.as_str()) {
            self.spot_ids.push(id);
        }
    }

    /// Drops every identifier in `ids` from this region.
    pub fn remove_spots(&mut self, ids: &Vec<u64>)
        ensures
            final(self)@.name == old(self)@.name,
            final(self)@.prefixes == old(self)@.prefixes,
            final(self)@.spot_ids == old(self)@.spot_ids.filter(|x: u64| !ids@.contains(x)),
    {
        let ghost ov = old(self)@.spot_ids;
        let mut kept: Vec<u64> = Vec::new();
        let mut i: usize = 0;
        proof {
            assert(ov.take(0) =~= Seq::<u64>::empty());
            assert(ov.take(0).filter(|x: u64| !ids@.contains(x)) =~= Seq::<u64>::empty());
        }
        while i < self.spot_ids.len()
            invariant
                i <= self.spot_ids.len(),
                self.spot_ids@ == ov,
                *self == *old(self),
                kept@ == ov.take(i as int).filter(|x: u64| !ids@.contains(x)),
            decreases self.spot_ids.len() - i,
        {
            let ghost pre = kept@;
            let x = self.spot_ids[i];
            if !vec_contains_u64(ids, x) {
                kept.push(x);
            }
            proof {
                lemma_filter_take_succ(ov, i as int, |y: u64| !ids@.contains(y));
            }
            i = i + 1;
        }
        proof {
            assert(ov.take(ov.len() as int) =~= ov);
        }
        self.spot_ids = kept;
    }
}

/// Whether `v` holds `x`.
pub fn vec_contains_u64(v: &Vec<u64>, x: u64) -> (r: bool)
    ensures
        r == v@.contains(x),
{
    let mut i: usize = 0;
    while i < v.len()
        invariant
            i <= v.len(),
            forall|j: int| 0 <= j < i ==> v@[j] != x,
        decreases v.len() - i,
    {
        if v[i] == x {
            return true;
        }
        i = i + 1;
    }
    false
}

/// One step of [`Seq::filter`] along a `take` prefix.
pub proof fn lemma_filter_take_succ<A>(s: Seq<A>, i: int, p: spec_fn(A) -> bool)
    requires
        0 <= i < s.len(),
    ensures
        s.take(i + 1).filter(p) == if p(s[i]) {
            s.take(i).filter(p).push(s[i])
        } else {
            s.take(i).filter(p)
        },
{
    assert(s.take(i + 1).drop_last() =~= s.take(i));
    assert(s.take(i + 1).last() == s[i]);
    reveal(Seq::filter);
}

/// The index of the first region of `regions` named `name`, if any.
pub open spec fn spec_find_region(regions: Seq<RegionV>, name: Seq<char>) -> Option<int>
    decreases regions.len(),
{
    if regions.len() == 0 {
        None
    } else if regions[0].name == name {
        Some(0)
    } else {
        match spec_find_region(regions.drop_first(), name) {
            Some(i) => Some(i + 1),
            None => None,
        }
    }
}

/// The index of the first region of `regions` named `name`, if any.
fn find_region_index(regions: &Vec<Region>, name: &str) -> (r: Option<usize>)
    ensures
        match r {
            Some(i) => spec_find_region(regions.deep_view(), name@) == Some(i as int) && i
                < regions.len(),
            None => spec_find_region(regions.deep_view(), name@) is None,
        },
{
    let ghost orv = regions.deep_view();
    proof {
        assert(orv.skip(0) =~= orv);
    }
    let mut i: usize = 0;
    while i < regions.len()
        invariant
            orv == regions.deep_view(),
            i <= regions.len(),
            spec_find_region(orv, name@) == match spec_find_region(orv.skip(i as int), name@) {
                Some(k) => Some(k + i),
                None => None::<int>,
            },
        decreases regions.len() - i,
    {
        proof {
            assert(orv.skip(i as int)[0] == orv[i as int]);
            assert(orv.skip(i as int).drop_first() =~= orv.skip(i as int + 1));
        }
        let same = str_eq_exec(regions[i].name.as_str(), name);
        if same {
            return Some(i);
        }
        i = i + 1;
    }
    proof {
        assert(orv.skip(i as int).len() == 0);
    }
    None
}

/// A failed region lookup means no region carries the name.
pub proof fn lemma_find_region_none(regions: Seq<RegionV>, name: Seq<char>)
    ensures
        spec_find_region(regions, name) is None <==> forall|i: int|
            0 <= i < regions.len() ==> (#[trigger] regions[i]).name != name,
    decreases regions.len(),
{
    if regions.len() > 0 {
        lemma_find_region_none(regions.drop_first(), name);
        assert(forall|i: int|
            0 < i < regions.len() ==> (#[trigger] regions[i]) == regions.drop_first()[i - 1]);
    }
}

/// A successful region lookup returns the index of a region with the name.
pub proof fn lemma_find_region_some(regions: Seq<RegionV>, name: Seq<char>)
    requires
        spec_find_region(regions, name) is Some,
    ensures
        ({
            let i = spec_find_region(regions, name).unwrap();
            0 <= i < regions.len() && regions[i].name == name
        }),
    decreases regions.len(),
{
    if regions.len() > 0 && regions[0].name != name {
        lemma_find_region_some(regions.drop_first(), name);
    }
}

/// Mathematical value of a [`SpotDB`].
#[verifier::ext_equal]
pub ghost struct DbV {
    pub init_timestamp_s: i64,
    pub next_id: u64,
    pub spots: Seq<StoredSpotV>,
    pub regions: Seq<RegionV>,
}

/// The shared database: the global spot table and the named regions.
pub struct SpotDB {
    init_timestamp_s: i64,
    next_id: u64,
    spots: Vec<StoredSpot>,
    regions: Vec<Region>,
}

impl View for SpotDB {
    type V = DbV;

    closed spec fn view(&self) -> DbV {
        DbV {
            init_timestamp_s: self.init_timestamp_s,
            next_id: self.next_id,
            spots: self.spots.deep_view(),
            regions: self.regions.deep_view(),
        }
    }
}

/// Whether some spot of `spots` carries identifier `id`.
pub open spec fn has_spot_id(spots: Seq<StoredSpotV>, id: u64) -> bool {
    exists|k: int| 0 <= k < spots.len() && (#[trigger] spots[k]).id == id
}

/// Well-formedness of the database value.
pub open spec fn db_wf(v: DbV) -> bool {
    &&& v.init_timestamp_s >= 0
    &&& forall|i: int, j: int|
        0 <= i < j < v.spots.len() ==> (#[trigger] v.spots[i]).id < (#[trigger] v.spots[j]).id
    &&& forall|i: int| 0 <= i < v.spots.len() ==> (#[trigger] v.spots[i]).id < v.next_id
    &&& forall|i: int, j: int|
        0 <= i < j < v.regions.len() ==> (#[trigger] v.regions[i]).name != (
        #[trigger] v.regions[j]).name
    &&& forall|i: int, a: int, b: int|
        0 <= i < v.regions.len() && 0 <= a < b < v.regions[i].spot_ids.len() ==> (
        #[trigger] v.regions[i].spot_ids[a]) < (#[trigger] v.regions[i].spot_ids[b])
    &&& forall|i: int, k: int|
        0 <= i < v.regions.len() && 0 <= k < v.regions[i].spot_ids.len() ==> has_spot_id(
            v.spots,
            #[trigger] v.regions[i].spot_ids[k],
        )
}

impl SpotDB {
    #[verifier::type_invariant]
    spec fn wf(self) -> bool {
        db_wf(self.view())
    }

    /// A fresh, empty database, stamped with the construction time.
    pub fn new(now_s: i64) -> (r: SpotDB)
        requires
            now_s >= 0,
        ensures
            r@.init_timestamp_s == now_s,
            r@.next_id == 0,
            r@.spots == Seq::<StoredSpotV>::empty(),
            r@.regions == Seq::<RegionV>::empty(),
    {
        let r = SpotDB {
            init_timestamp_s: now_s,
            next_id: 0,
            spots: Vec::new(),
            regions: Vec::new(),
        };
        proof {
            assert(r@.spots =~= Seq::<StoredSpotV>::empty());
            assert(r@.regions =~= Seq::<RegionV>::empty());
        }
        r
    }

    /// The number of spots currently stored.
    pub fn spots_in_db(&self) -> (r: usize)
        ensures
            r == self@.spots.len(),
    {
        self.spots.len()
    }

    /// The number of regions currently registered.
    pub fn regions_in_db(&self) -> (r: usize)
        ensures
            r == self@.regions.len(),
    {
        self.regions.len()
    }

    /// The construction timestamp, seconds since the Unix epoch.
    pub fn init_timestamp_s(&self) -> (r: i64)
        ensures
            r == self@.init_timestamp_s,
            r >= 0,
    {
        proof {
            use_type_invariant(&*self);
        }
        self.init_timestamp_s
    }

    /// The identifier the next accepted spot will receive.
    pub fn next_spot_id(&self) -> (r: u64)
        ensures
            r == self@.next_id,
    {
        self.next_id
    }

    /// The global spot table, in arrival order.
    pub fn spots(&self) -> (r: &Vec<StoredSpot>)
        ensures
            r.deep_view() == self@.spots,
    {
        &self.spots
    }

    /// Registers or replaces the region named `name`.
    ///
    /// A replaced region starts over with an empty spot list; previously
    /// stored spots are not re-evaluated against the new prefixes.
    pub fn add_region(&mut self, name: String, prefixes: Vec<String>)
        ensures
            final(self)@.init_timestamp_s == old(self)@.init_timestamp_s,
            final(self)@.next_id == old(self)@.next_id,
            final(self)@.spots == old(self)@.spots,
            final(self)@.regions == ({
                let fresh = RegionV {
                    name: name@,
                    prefixes: prefixes.deep_view(),
                    spot_ids: Seq::<u64>::empty(),
                };
                match spec_find_region(old(self)@.regions, name@) {
                    Some(i) => old(self)@.regions.update(i, fresh),
                    None => old(self)@.regions.push(fresh),
                }
            }),
    {
        proof {
            use_type_invariant(&*self);
            assert(db_wf(self@));
            assert(self@.spots == self.spots.deep_view());
            assert(forall|i: int|
                0 <= i < self.spots.deep_view().len() ==> (
                #[trigger] self.spots.deep_view()[i]).id < self.next_id);
        }
        let ghost orv = self.regions.deep_view();
        let ghost fresh_v = RegionV {
            name: name@,
            prefixes: prefixes.deep_view(),
            spot_ids: Seq::<u64>::empty(),
        };
        let found = find_region_index(&self.regions, name.as_str());
        let mut regions: Vec<Region> = Vec::new();
        proof {
            assert(regions.deep_view() =~= Seq::<RegionV>::empty());
            assert(db_wf(
                DbV {
                    init_timestamp_s: self.init_timestamp_s,
                    next_id: self.next_id,
                    spots: self.spots.deep_view(),
                    regions: regions.deep_view(),
                },
            ));
        }
        core::mem::swap(&mut regions, &mut self.regions);
        let fresh = Region::new(name, prefixes);
        match found {
            Some(j) => {
                let _old_region = regions.remove(j);
                regions.insert(j, fresh);
                proof {
                    assert(regions.deep_view() =~= orv.update(j as int, fresh_v));
                    lemma_find_region_some(orv, name@);
                }
            },
            None => {
                regions.push(fresh);
                proof {
                    assert(regions.deep_view() =~= orv.push(fresh_v));
                    lemma_find_region_none(orv, name@);
                }
            },
        }
        proof {
            let post = DbV {
                init_timestamp_s: self.init_timestamp_s,
                next_id: self.next_id,
                spots: self.spots.deep_view(),
                regions: regions.deep_view(),
            };
            assert forall|a: int, b: int| 0 <= a < b < post.regions.len() implies (
            #[trigger] post.regions[a]).name != (#[trigger] post.regions[b]).name by {
                match spec_find_region(orv, name@) {
                    Some(j) => {
                        assert(orv[j].name == name@);
                        if a != j {
                            assert(post.regions[a] == orv[a]);
                        }
                        if b != j {
                            assert(post.regions[b] == orv[b]);
                        }
                    },
                    None => {
                        if b < orv.len() {
                            assert(post.regions[a] == orv[a]);
                            assert(post.regions[b] == orv[b]);
                        } else {
                            assert(post.regions[a] == orv[a]);
                            assert(post.regions[b].name == name@);
                        }
                    },
                }
            }
            assert forall|i: int, a: int, b: int|
                0 <= i < post.regions.len() && 0 <= a < b < post.regions[i].spot_ids.len() implies (
            #[trigger] post.regions[i].spot_ids[a]) < (#[trigger] post.regions[i].spot_ids[b]) by {
                if post.regions[i] != fresh_v {
                    assert(post.regions[i] == orv[i]);
                }
            }
            assert forall|i: int, k: int|
                0 <= i < post.regions.len() && 0 <= k < post.regions[i].spot_ids.len() implies
                has_spot_id(post.spots, #[trigger] post.regions[i].spot_ids[k]) by {
                if post.regions[i] != fresh_v {
                    assert(post.regions[i] == orv[i]);
                }
            }
            assert(db_wf(post));
        }
        core::mem::swap(&mut regions, &mut self.regions);
    }

    /// The region named `name`, if registered.
    pub fn get_region(&self, name: &str) -> (r: Option<&Region>)
        ensures
            match spec_find_region(self@.regions, name@) {
                Some(i) => r is Some && r.unwrap().deep_view() == self@.regions[i],
                None => r is None,
            },
    {
        match find_region_index(&self.regions, name) {
            Some(i) => Some(&self.regions[i]),
            None => None,
        }
    }

    /// All registered regions, in registration order.
    pub fn get_regions(&self) -> (r: &Vec<Region>)
        ensures
            r.deep_view() == self@.regions,
    {
        &self.regions
    }

    /// Builds a spot from the given observation and offers it to every region.
    ///
    /// The spot is appended to the global table under a fresh identifier;
    /// a region records that identifier iff the spotter callsign starts with
    /// one of the region's prefixes.
    pub fn add_spot(
        &mut self,
        spotter: &str,
        spotted: &str,
        freq_tenth_khz: u64,
        mode: &str,
        snr_db: i32,
        wpm: u32,
        msg: &str,
        timestamp_s: i64,
    )
        requires
            old(self)@.next_id < u64::MAX,
        ensures
            final(self)@ == spec_add_spot(
                old(self)@,
                SpotV {
                    spotter: spotter@,
                    spotted: spotted@,
                    freq_tenth_khz,
                    mode: mode@,
                    snr_db,
                    wpm,
                    msg: msg@,
                    timestamp_s,
                },
            ),
            final(self)@.init_timestamp_s == old(self)@.init_timestamp_s,
            final(self)@.next_id == old(self)@.next_id + 1,
            final(self)@.spots == old(self)@.spots.push(
                StoredSpotV {
                    id: old(self)@.next_id,
                    spot: SpotV {
                        spotter: spotter@,
                        spotted: spotted@,
                        freq_tenth_khz,
                        mode: mode@,
                        snr_db,
                        wpm,
                        msg: msg@,
                        timestamp_s,
                    },
                },
            ),
            final(self)@.regions.len() == old(self)@.regions.len(),
            forall|i: int|
                0 <= i < old(self)@.regions.len() ==> (#[trigger] final(self)@.regions[i]).name
                    == old(self)@.regions[i].name && final(self)@.regions[i].prefixes == old(
                    self,
                )@.regions[i].prefixes && final(self)@.regions[i].spot_ids == if matches_prefix(
                    old(self)@.regions[i].prefixes,
                    spotter@,
                ) {
                    old(self)@.regions[i].spot_ids.push(old(self)@.next_id)
                } else {
                    old(self)@.regions[i].spot_ids
                },
    {
        proof {
            use_type_invariant(&*self);
            assert(db_wf(self@));
            assert(self@.spots == self.spots.deep_view());
            assert(forall|i: int|
                0 <= i < self.spots.deep_view().len() ==> (
                #[trigger] self.spots.deep_view()[i]).id < self.next_id);
        }
        let ghost osv = self.spots.deep_view();
        let ghost orv = self.regions.deep_view();
        let id = self.next_id;
        self.next_id = id + 1;
        let spot = Spot {
            spotter: String::from_str(spotter),
            spotted: String::from_str(spotted),
            freq_tenth_khz,
            mode: String::from_str(mode),
            snr_db,
            wpm,
            msg: String::from_str(msg),
            timestamp_s,
        };
        let mut regions: Vec<Region> = Vec::new();
        proof {
            assert(regions.deep_view() =~= Seq::<RegionV>::empty());
            assert(db_wf(
                DbV {
                    init_timestamp_s: self.init_timestamp_s,
                    next_id: self.next_id,
                    spots: self.spots.deep_view(),
                    regions: regions.deep_view(),
                },
            ));
        }
        core::mem::swap(&mut regions, &mut self.regions);
        let mut spots: Vec<StoredSpot> = Vec::new();
        proof {
            assert(spots.deep_view() =~= Seq::<StoredSpotV>::empty());
            assert(db_wf(
                DbV {
                    init_timestamp_s: self.init_timestamp_s,
                    next_id: self.next_id,
                    spots: spots.deep_view(),
                    regions: self.regions.deep_view(),
                },
            ));
        }
        core::mem::swap(&mut spots, &mut self.spots);
        let stored = StoredSpot { id, spot: spot.duplicate() };
        spots.push(stored);
        proof {
            assert(spots.deep_view() =~= osv.push(StoredSpotV { id, spot: spot@ }));
        }
        let mut i: usize = 0;
        while i < regions.len()
            invariant
                spot@.spotter == spotter@,
                i <= regions.len(),
                regions.len() == orv.len(),
                forall|j: int| i <= j < orv.len() ==> (#[trigger] regions.deep_view()[j]) == orv[j],
                forall|j: int|
                    0 <= j < i ==> (#[trigger] regions.deep_view()[j]).name == orv[j].name
                        && regions.deep_view()[j].prefixes == orv[j].prefixes
                        && regions.deep_view()[j].spot_ids == if matches_prefix(
                        orv[j].prefixes,
                        spotter@,
                    ) {
                        orv[j].spot_ids.push(id)
                    } else {
                        orv[j].spot_ids
                    },
            decreases regions.len() - i,
        {
            let ghost before = regions.deep_view();
            let mut r = regions.remove(i);
            proof {
                assert(before[i as int] == orv[i as int]);
                assert(r.deep_view() == before[i as int]);
            }
            let ghost r0 = r.deep_view();
            r.add_spot(id, &spot);
            proof {
                assert(r.deep_view().name == r0.name);
                assert(r.deep_view().prefixes == r0.prefixes);
            }
            regions.insert(i, r);
            proof {
                assert forall|j: int|
                    0 <= j < regions.deep_view().len() && j != i implies (
                #[trigger] regions.deep_view()[j]) == before[j] by {
                    if j < i {
                        assert(before.remove(i as int)[j] == before[j]);
                    } else {
                        assert(before.remove(i as int)[j - 1] == before[j]);
                    }
                }
                assert(regions.deep_view()[i as int] == r.deep_view());
                assert(regions.deep_view()[i as int].name == orv[i as int].name);
                assert(regions.deep_view()[i as int].prefixes == orv[i as int].prefixes);
                assert(regions.deep_view()[i as int].spot_ids == if matches_prefix(
                    orv[i as int].prefixes,
                    spotter@,
                ) {
                    orv[i as int].spot_ids.push(id)
                } else {
                    orv[i as int].spot_ids
                });
            }
            i = i + 1;
        }
        proof {
            let pre = DbV {
                init_timestamp_s: old(self)@.init_timestamp_s,
                next_id: old(self)@.next_id,
                spots: osv,
                regions: orv,
            };
            let post = DbV {
                init_timestamp_s: old(self)@.init_timestamp_s,
                next_id: (id + 1) as u64,
                spots: spots.deep_view(),
                regions: regions.deep_view(),
            };
            lemma_add_spot_wf(pre, post, id, spot@, spotter@);
            assert(db_wf(
                DbV {
                    init_timestamp_s: self.init_timestamp_s,
                    next_id: self.next_id,
                    spots: spots.deep_view(),
                    regions: self.regions.deep_view(),
                },
            ));
        }
        core::mem::swap(&mut spots, &mut self.spots);
        core::mem::swap(&mut regions, &mut self.regions);
        proof {
            assert(self@.spots =~= old(self)@.spots.push(
                StoredSpotV {
                    id: old(self)@.next_id,
                    spot: SpotV {
                        spotter: spotter@,
                        spotted: spotted@,
                        freq_tenth_khz,
                        mode: mode@,
                        snr_db,
                        wpm,
                        msg: msg@,
                        timestamp_s,
                    },
                },
            ));
            assert(self@ =~~= spec_add_spot(
                old(self)@,
                SpotV {
                    spotter: spotter@,
                    spotted: spotted@,
                    freq_tenth_khz,
                    mode: mode@,
                    snr_db,
                    wpm,
                    msg: msg@,
                    timestamp_s,
                },
            ));
        }
    }
}

/// Whether a stored frequency lies within 0.2 kHz of the queried one,
/// both in tenths of a kHz.
pub open spec fn freq_near(f: u64, query: u64) -> bool {
    -2 <= f - query <= 2
}

/// The database value after one accepted spot: the spot joins the global
/// table under the next identifier, and exactly the regions whose prefixes
/// match the spotter record that identifier.
pub open spec fn spec_add_spot(db: DbV, s: SpotV) -> DbV {
    DbV {
        init_timestamp_s: db.init_timestamp_s,
        next_id: (db.next_id + 1) as u64,
        spots: db.spots.push(StoredSpotV { id: db.next_id, spot: s }),
        regions: Seq::new(
            db.regions.len(),
            |i: int|
                RegionV {
                    name: db.regions[i].name,
                    prefixes: db.regions[i].prefixes,
                    spot_ids: if matches_prefix(db.regions[i].prefixes, s.spotter) {
                        db.regions[i].spot_ids.push(db.next_id)
                    } else {
                        db.regions[i].spot_ids
                    },
                },
        ),
    }
}

/// The database value after a run of accepted spots, oldest first.
pub open spec fn spec_add_spots(db: DbV, obs: Seq<SpotV>) -> DbV
    decreases obs.len(),
{
    if obs.len() == 0 {
        db
    } else {
        spec_add_spots(spec_add_spot(db, obs[0]), obs.drop_first())
    }
}

/// Law: region membership goes by the spotter callsign. An accepted spot
/// joins exactly the regions one of whose prefixes starts the spotter's
/// callsign; every other region keeps its list unchanged.
pub proof fn lemma_membership_by_spotter_prefix(db: DbV, s: SpotV, i: int)
    requires
        0 <= i < db.regions.len(),
    ensures
        ({
            let post = spec_add_spot(db, s);
            post.regions[i].spot_ids == if matches_prefix(db.regions[i].prefixes, s.spotter) {
                db.regions[i].spot_ids.push(db.next_id)
            } else {
                db.regions[i].spot_ids
            }
        }),
{
}

/// Law: a run of accepted spots with no intervening cleanup grows the spot
/// count by exactly the number of spots accepted, one per call.
pub proof fn lemma_spot_count_after_adds(db: DbV, obs: Seq<SpotV>)
    ensures
        spec_add_spots(db, obs).spots.len() == db.spots.len() + obs.len(),
    decreases obs.len(),
{
    if obs.len() > 0 {
        lemma_spot_count_after_adds(spec_add_spot(db, obs[0]), obs.drop_first());
    }
}

impl SpotDB {
    /// The distinct spotted callsigns heard within 0.2 kHz of the queried
    /// frequency, over the whole table, in ascending order.
    pub fn get_frequency_users(&self, freq_tenth_khz: u64) -> (r: Vec<String>)
        ensures
            crate::sorting::strictly_sorted_chars(r.deep_view()),
            forall|s: Seq<char>| #[trigger]
                r.deep_view().contains(s) <==> exists|k: int|
                    0 <= k < self@.spots.len() && freq_near(
                        (#[trigger] self@.spots[k]).spot.freq_tenth_khz,
                        freq_tenth_khz,
                    ) && self@.spots[k].spot.spotted == s,
    {
        let ghost osv = self.spots.deep_view();
        let mut found: Vec<String> = Vec::new();
        let mut i: usize = 0;
        while i < self.spots.len()
            invariant
                osv == self.spots.deep_view(),
                i <= self.spots.len(),
                forall|s: Seq<char>| #[trigger]
                    found.deep_view().contains(s) <==> exists|k: int|
                        0 <= k < i && freq_near(
                            (#[trigger] osv[k]).spot.freq_tenth_khz,
                            freq_tenth_khz,
                        ) && osv[k].spot.spotted == s,
            decreases self.spots.len() - i,
        {
            let ghost pre = found.deep_view();
            let f = self.spots[i].spot.freq_tenth_khz;
            let near = if f >= freq_tenth_khz {
                f - freq_tenth_khz <= 2
            } else {
                freq_tenth_khz - f <= 2
            };
            if near {
                found.push(self.spots[i].spot.spotted.clone());
                proof {
                    assert(found.deep_view() =~= pre.insert(
                        pre.len() as int,
                        osv[i as int].spot.spotted,
                    ));
                    lemma_insert_contains(pre, pre.len() as int, osv[i as int].spot.spotted);
                }
            }
            proof {
                let ii = i as int;
                assert forall|s: Seq<char>| #[trigger]
                    found.deep_view().contains(s) implies exists|k: int|
                    0 <= k < ii + 1 && freq_near(
                        (#[trigger] osv[k]).spot.freq_tenth_khz,
                        freq_tenth_khz,
                    ) && osv[k].spot.spotted == s by {
                    if pre.contains(s) {
                        let k = choose|k: int|
                            0 <= k < ii && freq_near(
                                (#[trigger] osv[k]).spot.freq_tenth_khz,
                                freq_tenth_khz,
                            ) && osv[k].spot.spotted == s;
                        assert(0 <= k < ii + 1 && freq_near(
                            osv[k].spot.freq_tenth_khz,
                            freq_tenth_khz,
                        ) && osv[k].spot.spotted == s);
                    } else {
                        assert(freq_near(osv[ii].spot.freq_tenth_khz, freq_tenth_khz)
                            && osv[ii].spot.spotted == s);
                    }
                }
                assert forall|s: Seq<char>|
                    (exists|k: int|
                        0 <= k < ii + 1 && freq_near(
                            (#[trigger] osv[k]).spot.freq_tenth_khz,
                            freq_tenth_khz,
                        ) && osv[k].spot.spotted == s) implies #[trigger] found.deep_view().contains(
                    s,
                ) by {
                    let k = choose|k: int|
                        0 <= k < ii + 1 && freq_near(
                            (#[trigger] osv[k]).spot.freq_tenth_khz,
                            freq_tenth_khz,
                        ) && osv[k].spot.spotted == s;
                    if k < ii {
                        assert(pre.contains(s));
                    }
                }
            }
            i = i + 1;
        }
        let r = crate::sorting::sort_dedup_strings(&found);
        proof {
            assert forall|s: Seq<char>| #[trigger]
                r.deep_view().contains(s) <==> exists|k: int|
                    0 <= k < self@.spots.len() && freq_near(
                        (#[trigger] self@.spots[k]).spot.freq_tenth_khz,
                        freq_tenth_khz,
                    ) && self@.spots[k].spot.spotted == s by {
                assert(self@.spots == osv);
                assert(r.deep_view().contains(s) <==> found.deep_view().contains(s));
                assert(found.deep_view().contains(s) <==> exists|k: int|
                    0 <= k < osv.len() && freq_near(
                        (#[trigger] osv[k]).spot.freq_tenth_khz,
                        freq_tenth_khz,
                    ) && osv[k].spot.spotted == s);
                if r.deep_view().contains(s) {
                    let k = choose|k: int|
                        0 <= k < osv.len() && freq_near(
                            (#[trigger] osv[k]).spot.freq_tenth_khz,
                            freq_tenth_khz,
                        ) && osv[k].spot.spotted == s;
                    assert(0 <= k < self@.spots.len() && freq_near(
                        self@.spots[k].spot.freq_tenth_khz,
                        freq_tenth_khz,
                    ) && self@.spots[k].spot.spotted == s);
                }
            }
        }
        r
    }

    /// Evicts every spot observed before `now_s - max_spot_age_s`.
    ///
    /// Exactly the spots with a timestamp before the cutoff leave the global
    /// table, and their identifiers leave every region: afterwards no region
    /// holds the identifier of an evicted spot.
    pub fn cleanup_old_spots(&mut self, now_s: i64, max_spot_age_s: u64)
        ensures
            final(self)@.init_timestamp_s == old(self)@.init_timestamp_s,
            final(self)@.next_id == old(self)@.next_id,
            final(self)@.spots == old(self)@.spots.filter(
                |p: StoredSpotV| !spot_expired(p.spot, now_s, max_spot_age_s),
            ),
            final(self)@.regions.len() == old(self)@.regions.len(),
            forall|i: int|
                0 <= i < old(self)@.regions.len() ==> (#[trigger] final(self)@.regions[i]).name
                    == old(self)@.regions[i].name && final(self)@.regions[i].prefixes == old(
                    self,
                )@.regions[i].prefixes && final(self)@.regions[i].spot_ids == old(
                    self,
                )@.regions[i].spot_ids.filter(
                    |x: u64| !id_expired(old(self)@.spots, x, now_s, max_spot_age_s),
                ),
            forall|i: int, k: int|
                0 <= i < final(self)@.regions.len() && 0 <= k
                    < final(self)@.regions[i].spot_ids.len() ==> !id_expired(
                    old(self)@.spots,
                    #[trigger] final(self)@.regions[i].spot_ids[k],
                    now_s,
                    max_spot_age_s,
                ) && has_spot_id(final(self)@.spots, final(self)@.regions[i].spot_ids[k]),
    {
        proof {
            use_type_invariant(&*self);
            assert(db_wf(self@));
            assert(self@.spots == self.spots.deep_view());
            assert(self@.regions == self.regions.deep_view());
        }
        let ghost osv = self.spots.deep_view();
        let ghost orv = self.regions.deep_view();
        let ghost keep = |p: StoredSpotV| !spot_expired(p.spot, now_s, max_spot_age_s);
        let ghost keep_id = |x: u64| !id_expired(osv, x, now_s, max_spot_age_s);

        // Identifiers of the expired spots.
        let mut expired_ids: Vec<u64> = Vec::new();
        let mut i: usize = 0;
        proof {
            assert(osv.take(0) =~= Seq::<StoredSpotV>::empty());
        }
        while i < self.spots.len()
            invariant
                *self == *old(self),
                osv == self.spots.deep_view(),
                i <= self.spots.len(),
                forall|x: u64| #[trigger]
                    expired_ids@.contains(x) <==> id_expired(
                        osv.take(i as int),
                        x,
                        now_s,
                        max_spot_age_s,
                    ),
            decreases self.spots.len() - i,
        {
            let ghost pre_ids = expired_ids@;
            let e = is_expired_exec(self.spots[i].spot.timestamp_s, now_s, max_spot_age_s);
            if e {
                let x = self.spots[i].id;
                expired_ids.push(x);
                proof {
                    assert(expired_ids@ =~= pre_ids.insert(pre_ids.len() as int, x));
                    lemma_insert_contains(pre_ids, pre_ids.len() as int, x);
                }
            }
            proof {
                assert(osv[i as int] == self.spots.deep_view()[i as int]);
                assert(e == spot_expired(osv[i as int].spot, now_s, max_spot_age_s));
                lemma_id_expired_take_succ(osv, i as int, now_s, max_spot_age_s);
            }
            i = i + 1;
        }
        proof {
            assert(osv.take(osv.len() as int) =~= osv);
            assert(forall|x: u64| #[trigger]
                expired_ids@.contains(x) <==> id_expired(osv, x, now_s, max_spot_age_s));
        }

        // Drop the expired identifiers from every region.
        let mut regions: Vec<Region> = Vec::new();
        proof {
            assert(regions.deep_view() =~= Seq::<RegionV>::empty());
            assert(db_wf(
                DbV {
                    init_timestamp_s: self.init_timestamp_s,
                    next_id: self.next_id,
                    spots: self.spots.deep_view(),
                    regions: regions.deep_view(),
                },
            ));
        }
        core::mem::swap(&mut regions, &mut self.regions);
        let mut j: usize = 0;
        while j < regions.len()
            invariant
                j <= regions.len(),
                regions.len() == orv.len(),
                forall|t: int| j <= t < orv.len() ==> (#[trigger] regions.deep_view()[t]) == orv[t],
                forall|t: int|
                    0 <= t < j ==> (#[trigger] regions.deep_view()[t]).name == orv[t].name && (
                    regions.deep_view()[t]).prefixes == orv[t].prefixes && (
                    regions.deep_view()[t]).spot_ids == orv[t].spot_ids.filter(
                        |x: u64| !expired_ids@.contains(x),
                    ),
                forall|x: u64| #[trigger]
                    expired_ids@.contains(x) <==> id_expired(osv, x, now_s, max_spot_age_s),
            decreases regions.len() - j,
        {
            let ghost before = regions.deep_view();
            let mut r = regions.remove(j);
            proof {
                assert(before[j as int] == orv[j as int]);
                assert(r.deep_view() == before[j as int]);
            }
            let ghost r0 = r.deep_view();
            r.remove_spots(&expired_ids);
            proof {
                assert(r.deep_view().name == r0.name);
                assert(r.deep_view().prefixes == r0.prefixes);
                assert(r.deep_view().spot_ids == r0.spot_ids.filter(
                    |x: u64| !expired_ids@.contains(x),
                ));
            }
            regions.insert(j, r);
            proof {
                assert forall|t: int|
                    0 <= t < regions.deep_view().len() && t != j implies (
                #[trigger] regions.deep_view()[t]) == before[t] by {
                    if t < j {
                        assert(before.remove(j as int)[t] == before[t]);
                    } else {
                        assert(before.remove(j as int)[t - 1] == before[t]);
                    }
                }
                assert(regions.deep_view()[j as int] == r.deep_view());
            }
            j = j + 1;
        }

        // Rebuild the global table from the spots that stay.
        let mut spots: Vec<StoredSpot> = Vec::new();
        proof {
            assert(spots.deep_view() =~= Seq::<StoredSpotV>::empty());
            assert(db_wf(
                DbV {
                    init_timestamp_s: self.init_timestamp_s,
                    next_id: self.next_id,
                    spots: spots.deep_view(),
                    regions: self.regions.deep_view(),
                },
            ));
        }
        core::mem::swap(&mut spots, &mut self.spots);
        let mut active: Vec<StoredSpot> = Vec::new();
        let mut k: usize = 0;
        proof {
            assert(osv.take(0).filter(keep) =~= Seq::<StoredSpotV>::empty());
            assert(active.deep_view() =~= Seq::<StoredSpotV>::empty());
        }
        while k < spots.len()
            invariant
                k <= spots.len(),
                osv == spots.deep_view(),
                active.deep_view() == osv.take(k as int).filter(keep),
                keep == (|p: StoredSpotV| !spot_expired(p.spot, now_s, max_spot_age_s)),
            decreases spots.len() - k,
        {
            let ghost pre_active = active.deep_view();
            let e = is_expired_exec(spots[k].spot.timestamp_s, now_s, max_spot_age_s);
            if !e {
                active.push(spots[k].duplicate());
                proof {
                    assert(active.deep_view() =~= pre_active.push(osv[k as int]));
                }
            }
            proof {
                lemma_filter_take_succ(osv, k as int, keep);
            }
            k = k + 1;
        }
        proof {
            assert(osv.take(osv.len() as int) =~= osv);
            assert(active.deep_view() == osv.filter(keep));
            let post = DbV {
                init_timestamp_s: self.init_timestamp_s,
                next_id: self.next_id,
                spots: active.deep_view(),
                regions: regions.deep_view(),
            };
            let pre = DbV {
                init_timestamp_s: self.init_timestamp_s,
                next_id: self.next_id,
                spots: osv,
                regions: orv,
            };
            assert forall|t: int|
                0 <= t < pre.regions.len() implies (#[trigger] post.regions[t]).name
                == pre.regions[t].name && post.regions[t].prefixes == pre.regions[t].prefixes
                && post.regions[t].spot_ids == pre.regions[t].spot_ids.filter(
                |x: u64| !id_expired(pre.spots, x, now_s, max_spot_age_s),
            ) by {
                lemma_filter_agree(
                    orv[t].spot_ids,
                    |x: u64| !expired_ids@.contains(x),
                    |x: u64| !id_expired(osv, x, now_s, max_spot_age_s),
                );
            }
            lemma_cleanup_wf(pre, post, now_s, max_spot_age_s);
            assert(db_wf(
                DbV {
                    init_timestamp_s: self.init_timestamp_s,
                    next_id: self.next_id,
                    spots: active.deep_view(),
                    regions: self.regions.deep_view(),
                },
            ));
        }
        core::mem::swap(&mut active, &mut self.spots);
        core::mem::swap(&mut regions, &mut self.regions);
    }
}

/// Evicting expired spots from the table and every region together
/// preserves well-formedness.
proof fn lemma_cleanup_wf(pre: DbV, post: DbV, now_s: i64, max_age_s: u64)
    requires
        db_wf(pre),
        post.init_timestamp_s == pre.init_timestamp_s,
        post.next_id == pre.next_id,
        post.spots == pre.spots.filter(|p: StoredSpotV| !spot_expired(p.spot, now_s, max_age_s)),
        post.regions.len() == pre.regions.len(),
        forall|i: int|
            0 <= i < pre.regions.len() ==> (#[trigger] post.regions[i]).name == pre.regions[i].name
                && post.regions[i].prefixes == pre.regions[i].prefixes
                && post.regions[i].spot_ids == pre.regions[i].spot_ids.filter(
                |x: u64| !id_expired(pre.spots, x, now_s, max_age_s),
            ),
    ensures
        db_wf(post),
{
    let keep = |p: StoredSpotV| !spot_expired(p.spot, now_s, max_age_s);
    let keep_id = |x: u64| !id_expired(pre.spots, x, now_s, max_age_s);
    lemma_filter_membership(pre.spots, keep);
    lemma_filter_sorted_spots(pre.spots, keep);
    assert forall|i: int| 0 <= i < post.spots.len() implies (#[trigger] post.spots[i]).id
        < post.next_id by {
        assert(post.spots.contains(post.spots[i]));
        assert(pre.spots.contains(post.spots[i]));
        let k = choose|k: int| 0 <= k < pre.spots.len() && pre.spots[k] == post.spots[i];
        assert(pre.spots[k].id < pre.next_id);
    }
    assert forall|i: int, a: int, b: int|
        0 <= i < post.regions.len() && 0 <= a < b < post.regions[i].spot_ids.len() implies (
    #[trigger] post.regions[i].spot_ids[a]) < (#[trigger] post.regions[i].spot_ids[b]) by {
        lemma_filter_sorted_u64(pre.regions[i].spot_ids, keep_id);
    }
    assert forall|i: int, k: int|
        0 <= i < post.regions.len() && 0 <= k < post.regions[i].spot_ids.len() implies has_spot_id(
        post.spots,
        #[trigger] post.regions[i].spot_ids[k],
    ) by {
        let x = post.regions[i].spot_ids[k];
        lemma_filter_membership(pre.regions[i].spot_ids, keep_id);
        assert(post.regions[i].spot_ids.contains(x));
        assert(pre.regions[i].spot_ids.contains(x) && keep_id(x));
        let a = choose|a: int|
            0 <= a < pre.regions[i].spot_ids.len() && pre.regions[i].spot_ids[a] == x;
        assert(has_spot_id(pre.spots, x));
        let m = choose|m: int| 0 <= m < pre.spots.len() && (#[trigger] pre.spots[m]).id == x;
        assert(!spot_expired(pre.spots[m].spot, now_s, max_age_s));
        assert(keep(pre.spots[m]));
        pre.spots.lemma_filter_contains(keep, m);
        assert(post.spots.contains(pre.spots[m]));
        let n = choose|n: int| 0 <= n < post.spots.len() && post.spots[n] == pre.spots[m];
        assert(post.spots[n].id == x);
    }
}

/// Adding one spot under a fresh identifier preserves well-formedness.
proof fn lemma_add_spot_wf(pre: DbV, post: DbV, id: u64, spot: SpotV, spotter: Seq<char>)
    requires
        db_wf(pre),
        id == pre.next_id,
        id < u64::MAX,
        post.init_timestamp_s == pre.init_timestamp_s,
        post.next_id == id + 1,
        post.spots == pre.spots.push(StoredSpotV { id, spot }),
        post.regions.len() == pre.regions.len(),
        forall|j: int|
            0 <= j < pre.regions.len() ==> (#[trigger] post.regions[j]).name == pre.regions[j].name
                && post.regions[j].prefixes == pre.regions[j].prefixes
                && post.regions[j].spot_ids == if matches_prefix(pre.regions[j].prefixes, spotter) {
                pre.regions[j].spot_ids.push(id)
            } else {
                pre.regions[j].spot_ids
            },
    ensures
        db_wf(post),
{
    assert forall|i: int, j: int| 0 <= i < j < post.spots.len() implies (
    #[trigger] post.spots[i]).id < (#[trigger] post.spots[j]).id by {
        if j == post.spots.len() - 1 {
            assert(post.spots[i] == pre.spots[i]);
        }
    }
    assert forall|i: int| 0 <= i < post.spots.len() implies (#[trigger] post.spots[i]).id
        < post.next_id by {
        if i < pre.spots.len() {
            assert(post.spots[i] == pre.spots[i]);
        }
    }
    assert forall|x: u64| has_spot_id(pre.spots, x) implies has_spot_id(post.spots, x) by {
        let k = choose|k: int| 0 <= k < pre.spots.len() && pre.spots[k].id == x;
        assert(post.spots[k].id == x);
    }
    assert(has_spot_id(post.spots, id)) by {
        assert(post.spots[pre.spots.len() as int].id == id);
    }
    assert forall|i: int, a: int, b: int|
        0 <= i < post.regions.len() && 0 <= a < b < post.regions[i].spot_ids.len() implies (
    #[trigger] post.regions[i].spot_ids[a]) < (#[trigger] post.regions[i].spot_ids[b]) by {
        let pres = pre.regions[i].spot_ids;
        if matches_prefix(pre.regions[i].prefixes, spotter) && b == pres.len() {
            assert(post.regions[i].spot_ids[a] == pres[a]);
            assert(has_spot_id(pre.spots, pres[a]));
            let k = choose|k: int| 0 <= k < pre.spots.len() && pre.spots[k].id == pres[a];
            assert(pre.spots[k].id < pre.next_id);
        } else {
            assert(post.regions[i].spot_ids[a] == pres[a]);
            assert(post.regions[i].spot_ids[b] == pres[b]);
        }
    }
    assert forall|i: int, k: int|
        0 <= i < post.regions.len() && 0 <= k < post.regions[i].spot_ids.len() implies has_spot_id(
        post.spots,
        #[trigger] post.regions[i].spot_ids[k],
    ) by {
        let pres = pre.regions[i].spot_ids;
        if matches_prefix(pre.regions[i].prefixes, spotter) && k == pres.len() {
            assert(post.regions[i].spot_ids[k] == id);
        } else {
            assert(post.regions[i].spot_ids[k] == pres[k]);
            assert(has_spot_id(pre.spots, pres[k]));
        }
    }
}

} // verus!
