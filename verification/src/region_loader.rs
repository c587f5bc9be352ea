//! Registration of regions from the external entity definitions: one region
//! per current entity, plus aggregate regions per CQ zone and continent.

use crate::spot_db::{spec_find_region, RegionV, SpotDB};
use crate::text::{dec_str, u64_decimal, unicode_ws};
use vstd::prelude::*;

verus! {

/// Mathematical value of a [`Dxcc`] entity.
#[verifier::ext_equal]
pub ghost struct DxccV {
    pub continent: Seq<Seq<char>>,
    pub cq: Seq<u8>,
    pub name: Seq<char>,
    pub prefix: Seq<char>,
    pub valid_end: Seq<char>,
}

/// One entity of the external region definitions: its continents, CQ
/// zones, display name, comma-separated prefixes, and the marker that,
/// when non-empty, retires it.
pub struct Dxcc {
    pub continent: Vec<String>,
    pub cq: Vec<u8>,
    pub name: String,
    pub prefix: String,
    pub valid_end: String,
}

impl View for Dxcc {
    type V = DxccV;

    open spec fn view(&self) -> DxccV {
        DxccV {
            continent: self.continent.deep_view(),
            cq: self.cq@,
            name: self.name@,
            prefix: self.prefix@,
            valid_end: self.valid_end@,
        }
    }
}

impl DeepView for Dxcc {
    type V = DxccV;

    open spec fn deep_view(&self) -> DxccV {
        self.view()
    }
}

/// The lower-case form of `s`.
pub uninterp spec fn lower_of(s: Seq<char>) -> Seq<char>;

/// Relies on str::to_lowercase: the lower-case form, a function of the
/// characters alone.
#[verifier::external_body]
fn lowercase(s: &str) -> (r: String)
    ensures
        r@ == lower_of(s@),
{
    s.to_lowercase()
}

/// `s` with each white-space character replaced by an underscore.
pub open spec fn spec_underscored(s: Seq<char>) -> Seq<char> {
    Seq::new(s.len(), |i: int| if unicode_ws(s[i]) { '_' } else { s[i] })
}

/// Replaces each white-space character of `s` with an underscore.
fn replace_ws(s: &str) -> (r: String)
    ensures
        r@ == spec_underscored(s@),
{
    let n = s.unicode_len();
    let mut out = String::new();
    let mut i: usize = 0;
    proof {
        reveal_strlit("_");
        assert(out@ =~= spec_underscored(s@).take(0));
    }
    while i < n
        invariant
            i <= n,
            n == s@.len(),
            out@ == spec_underscored(s@).take(i as int),
        decreases n - i,
    {
        let ghost pre = out@;
        if crate::text::char_is_whitespace(s.get_char(i)) {
            out.append("_");
            proof {
                reveal_strlit("_");
                assert("_"@ =~= seq!['_']);
                assert(out@ =~= pre.push('_'));
                assert(spec_underscored(s@)[i as int] == '_');
                assert(out@ =~= spec_underscored(s@).take(i as int + 1));
            }
            i = i + 1;
        } else {
            let mut j = i + 1;
            while j < n && !crate::text::char_is_whitespace(s.get_char(j))
                invariant
                    i < j <= n,
                    n == s@.len(),
                    forall|m: int| i <= m < j ==> !unicode_ws(s@[m]),
                decreases n - j,
            {
                j = j + 1;
            }
            out.append(s.substring_char(i, j));
            proof {
                assert(forall|m: int|
                    i <= m < j ==> spec_underscored(s@)[m] == s@[m]);
                assert(out@ =~= spec_underscored(s@).take(j as int)) by {
                    assert(out@ == pre + s@.subrange(i as int, j as int));
                    assert(forall|m: int|
                        0 <= m < j ==> #[trigger] spec_underscored(s@).take(j as int)[m]
                            == spec_underscored(s@)[m]);
                }
            }
            i = j;
        }
    }
    proof {
        assert(spec_underscored(s@).take(n as int) =~= spec_underscored(s@));
    }
    out
}

/// The registry key for an entity name: lower case, white space as
/// underscores.
pub open spec fn name_key(s: Seq<char>) -> Seq<char> {
    spec_underscored(lower_of(s))
}

/// The registry key for an entity name, executable form.
pub fn normalize_region_name(s: &str) -> (r: String)
    ensures
        r@ == name_key(s@),
{
    let lowered = lowercase(s);
    replace_ws(lowered.as_str())
}

/// The name of the aggregate region for CQ zone `z`.
pub open spec fn cq_name(z: u8) -> Seq<char> {
    "CQ_"@ + dec_str(z as int)
}

/// The name of the aggregate region for CQ zone `z`, executable form.
pub fn cq_name_exec(z: u8) -> (r: String)
    ensures
        r@ == cq_name(z),
{
    let mut s = String::from_str("CQ_");
    let digits = u64_decimal(z as u64);
    s.append(digits.as_str());
    proof {
        reveal_strlit("CQ_");
    }
    s
}

/// The index of the first comma of `s`, if any.
pub open spec fn first_comma(s: Seq<char>) -> Option<int>
    decreases s.len(),
{
    if s.len() == 0 {
        None
    } else if s[0] == ',' {
        Some(0)
    } else {
        match first_comma(s.drop_first()) {
            Some(i) => Some(i + 1),
            None => None,
        }
    }
}

/// A found comma lies within the text.
pub proof fn lemma_first_comma_lt(s: Seq<char>)
    ensures
        first_comma(s) is Some ==> 0 <= first_comma(s).unwrap() < s.len(),
    decreases s.len(),
{
    if s.len() > 0 && s[0] != ',' {
        lemma_first_comma_lt(s.drop_first());
    }
}

/// The first comma is the first index holding a comma.
pub proof fn lemma_first_comma_chars(s: Seq<char>, k: int)
    requires
        0 <= k <= s.len(),
        forall|m: int| 0 <= m < k ==> s[m] != ',',
        k == s.len() || s[k] == ',',
    ensures
        first_comma(s) == if k == s.len() {
            None::<int>
        } else {
            Some(k)
        },
    decreases s.len(),
{
    if k > 0 {
        assert(forall|m: int| 0 <= m < k - 1 ==> s.drop_first()[m] == s[m + 1]);
        if k < s.len() {
            assert(s.drop_first()[k - 1] == s[k]);
        }
        lemma_first_comma_chars(s.drop_first(), k - 1);
    }
}

/// The comma-separated fields of `s`, in order, empties kept.
pub open spec fn spec_split_commas(s: Seq<char>) -> Seq<Seq<char>>
    decreases s.len(),
    via spec_split_commas_decreases
{
    match first_comma(s) {
        None => seq![s],
        Some(d) => seq![s.take(d)] + spec_split_commas(s.skip(d + 1)),
    }
}

#[via_fn]
proof fn spec_split_commas_decreases(s: Seq<char>) {
    lemma_first_comma_lt(s);
}

/// Splits `s` at its commas, keeping empty fields.
pub fn split_commas(s: &str) -> (r: Vec<String>)
    ensures
        r.deep_view() == spec_split_commas(s@),
{
    let n = s.unicode_len();
    let mut out: Vec<String> = Vec::new();
    let mut start: usize = 0;
    let mut i: usize = 0;
    proof {
        assert(s@.skip(0) =~= s@);
        assert(out.deep_view() =~= Seq::<Seq<char>>::empty());
    }
    while i < n
        invariant
            start <= i <= n,
            n == s@.len(),
            forall|m: int| start <= m < i ==> s@[m] != ',',
            spec_split_commas(s@) == out.deep_view() + spec_split_commas(s@.skip(start as int)),
        decreases n - i,
    {
        if s.get_char(i) == ',' {
            let ghost seg = s@.skip(start as int);
            proof {
                assert(forall|m: int| 0 <= m < i - start ==> seg[m] == s@[m + start]);
                assert(seg[i - start] == s@[i as int]);
                lemma_first_comma_chars(seg, i - start);
                assert(seg.take(i - start) =~= s@.subrange(start as int, i as int));
                assert(seg.skip(i - start + 1) =~= s@.skip(i as int + 1));
            }
            let field = s.substring_char(start, i);
            let ghost pre = out.deep_view();
            out.push(String::from_str(field));
            proof {
                assert(out.deep_view() =~= pre.push(s@.subrange(start as int, i as int)));
                assert(spec_split_commas(seg) == seq![s@.subrange(start as int, i as int)]
                    + spec_split_commas(s@.skip(i as int + 1)));
                assert(pre + spec_split_commas(seg) =~= out.deep_view() + spec_split_commas(
                    s@.skip(i as int + 1),
                ));
            }
            start = i + 1;
        }
        i = i + 1;
    }
    let ghost seg = s@.skip(start as int);
    proof {
        assert(forall|m: int| 0 <= m < n - start ==> seg[m] == s@[m + start]);
        lemma_first_comma_chars(seg, n - start);
        assert(first_comma(seg) is None);
        assert(spec_split_commas(seg) == seq![seg]);
    }
    let field = s.substring_char(start, n);
    let ghost pre = out.deep_view();
    out.push(String::from_str(field));
    proof {
        assert(s@.subrange(start as int, n as int) =~= seg);
        assert(out.deep_view() =~= pre.push(seg));
        assert(pre + spec_split_commas(seg) =~= out.deep_view());
    }
    out
}

/// Copies a list of strings.
fn clone_strings(v: &Vec<String>) -> (r: Vec<String>)
    ensures
        r.deep_view() == v.deep_view(),
{
    let mut out: Vec<String> = Vec::new();
    let mut i: usize = 0;
    while i < v.len()
        invariant
            i <= v.len(),
            out.deep_view() == v.deep_view().take(i as int),
        decreases v.len() - i,
    {
        let ghost pre = out.deep_view();
        let x = v[i].clone();
        let ghost xv = x@;
        proof {
            assert(xv == v.deep_view()[i as int]);
        }
        out.push(x);
        proof {
            assert(out.deep_view() =~= pre.push(xv));
            assert(pre.push(xv) =~= v.deep_view().take(i as int + 1));
        }
        i = i + 1;
    }
    proof {
        assert(v.deep_view().take(v.len() as int) =~= v.deep_view());
    }
    out
}

/// Concatenates two lists of strings into a fresh one.
fn concat_strings(a: &Vec<String>, b: &Vec<String>) -> (r: Vec<String>)
    ensures
        r.deep_view() == a.deep_view() + b.deep_view(),
{
    let mut out = clone_strings(a);
    let mut i: usize = 0;
    proof {
        assert(out.deep_view() =~= a.deep_view() + b.deep_view().take(0));
    }
    while i < b.len()
        invariant
            i <= b.len(),
            out.deep_view() == a.deep_view() + b.deep_view().take(i as int),
        decreases b.len() - i,
    {
        let ghost pre = out.deep_view();
        let x = b[i].clone();
        let ghost xv = x@;
        proof {
            assert(xv == b.deep_view()[i as int]);
        }
        out.push(x);
        proof {
            assert(out.deep_view() =~= pre.push(xv));
            assert(pre.push(xv) =~= a.deep_view() + b.deep_view().take(i as int + 1));
        }
        i = i + 1;
    }
    proof {
        assert(b.deep_view().take(b.len() as int) =~= b.deep_view());
    }
    out
}

/// A region value with no spots yet.
pub open spec fn fresh_region(name: Seq<char>, prefixes: Seq<Seq<char>>) -> RegionV {
    RegionV { name, prefixes, spot_ids: Seq::<u64>::empty() }
}

/// The region list after registering `name` with `prefixes`: a region of
/// that name is replaced, else one is appended.
pub open spec fn upsert_region(
    regions: Seq<RegionV>,
    name: Seq<char>,
    prefixes: Seq<Seq<char>>,
) -> Seq<RegionV> {
    match spec_find_region(regions, name) {
        Some(i) => regions.update(i, fresh_region(name, prefixes)),
        None => regions.push(fresh_region(name, prefixes)),
    }
}

/// The prefixes an aggregate region accumulates: the new ones, then
/// whatever the aggregate already had.
pub open spec fn merged_prefixes(
    regions: Seq<RegionV>,
    name: Seq<char>,
    prefixes: Seq<Seq<char>>,
) -> Seq<Seq<char>> {
    match spec_find_region(regions, name) {
        Some(i) => prefixes + regions[i].prefixes,
        None => prefixes,
    }
}

/// Extends the aggregate region `name` with `prefixes`.
pub open spec fn apply_aggregate(
    regions: Seq<RegionV>,
    name: Seq<char>,
    prefixes: Seq<Seq<char>>,
) -> Seq<RegionV> {
    upsert_region(regions, name, merged_prefixes(regions, name, prefixes))
}

/// Extends each zone aggregate in turn.
pub open spec fn apply_zones(
    regions: Seq<RegionV>,
    zones: Seq<u8>,
    prefixes: Seq<Seq<char>>,
) -> Seq<RegionV>
    decreases zones.len(),
{
    if zones.len() == 0 {
        regions
    } else {
        apply_zones(apply_aggregate(regions, cq_name(zones[0]), prefixes), zones.drop_first(), prefixes)
    }
}

/// Extends each continent aggregate in turn.
pub open spec fn apply_continents(
    regions: Seq<RegionV>,
    conts: Seq<Seq<char>>,
    prefixes: Seq<Seq<char>>,
) -> Seq<RegionV>
    decreases conts.len(),
{
    if conts.len() == 0 {
        regions
    } else {
        apply_continents(
            apply_aggregate(regions, conts[0], prefixes),
            conts.drop_first(),
            prefixes,
        )
    }
}

/// One entity's registrations: skipped when retired; otherwise its own
/// region under its normalized name, then its zone and continent
/// aggregates.
pub open spec fn apply_entity(regions: Seq<RegionV>, e: DxccV) -> Seq<RegionV> {
    if e.valid_end.len() > 0 {
        regions
    } else {
        let prefixes = spec_split_commas(e.prefix);
        apply_continents(
            apply_zones(upsert_region(regions, name_key(e.name), prefixes), e.cq, prefixes),
            e.continent,
            prefixes,
        )
    }
}

/// The region list after registering every entity, in order.
pub open spec fn spec_load_regions(regions: Seq<RegionV>, es: Seq<DxccV>) -> Seq<RegionV>
    decreases es.len(),
{
    if es.len() == 0 {
        regions
    } else {
        spec_load_regions(apply_entity(regions, es[0]), es.drop_first())
    }
}

/// Registers every current entity as a region, and extends the CQ-zone
/// and continent aggregates with its prefixes.
pub fn load_regions(db: &mut SpotDB, entities: &Vec<Dxcc>)
    ensures
        final(db)@.init_timestamp_s == old(db)@.init_timestamp_s,
        final(db)@.next_id == old(db)@.next_id,
        final(db)@.spots == old(db)@.spots,
        final(db)@.regions == spec_load_regions(old(db)@.regions, entities.deep_view()),
{
    let ghost ev = entities.deep_view();
    let ghost orv = old(db)@.regions;
    let mut idx: usize = 0;
    proof {
        assert(ev.skip(0) =~= ev);
    }
    while idx < entities.len()
        invariant
            ev == entities.deep_view(),
            idx <= entities.len(),
            db@.init_timestamp_s == old(db)@.init_timestamp_s,
            db@.next_id == old(db)@.next_id,
            db@.spots == old(db)@.spots,
            spec_load_regions(orv, ev) == spec_load_regions(db@.regions, ev.skip(idx as int)),
        decreases entities.len() - idx,
    {
        proof {
            assert(ev.skip(idx as int)[0] == ev[idx as int]);
            assert(ev.skip(idx as int).drop_first() =~= ev.skip(idx as int + 1));
        }
        let e = &entities[idx];
        proof {
            assert(e.deep_view() == ev[idx as int]);
        }
        if e.valid_end.as_str().is_empty() {
            let ghost r0 = db@.regions;
            let prefixes = split_commas(e.prefix.as_str());
            let key = normalize_region_name(e.name.as_str());
            db.add_region(key, clone_strings(&prefixes));
            proof {
                assert(db@.regions == upsert_region(
                    r0,
                    name_key(ev[idx as int].name),
                    spec_split_commas(ev[idx as int].prefix),
                ));
            }
            let ghost r1 = db@.regions;
            let ghost pv = prefixes.deep_view();
            let mut z: usize = 0;
            proof {
                assert(ev[idx as int].cq.skip(0) =~= ev[idx as int].cq);
            }
            while z < e.cq.len()
                invariant
                    z <= e.cq.len(),
                    e.deep_view() == ev.index(idx as int),
                    idx < entities.len(),
                    ev == entities.deep_view(),
                    pv == prefixes.deep_view(),
                    pv == spec_split_commas(ev[idx as int].prefix),
                    db@.init_timestamp_s == old(db)@.init_timestamp_s,
                    db@.next_id == old(db)@.next_id,
                    db@.spots == old(db)@.spots,
                    apply_zones(r1, ev[idx as int].cq, pv) == apply_zones(
                        db@.regions,
                        ev[idx as int].cq.skip(z as int),
                        pv,
                    ),
                decreases e.cq.len() - z,
            {
                proof {
                    assert(ev[idx as int].cq.skip(z as int)[0] == ev[idx as int].cq[z as int]);
                    assert(ev[idx as int].cq.skip(z as int).drop_first() =~= ev[idx as int].cq.skip(
                        z as int + 1,
                    ));
                }
                let ghost rc = db@.regions;
                let zone = e.cq[z];
                let zname = cq_name_exec(zone);
                let merged = match db.get_region(zname.as_str()) {
                    Some(r) => concat_strings(&prefixes, &r.prefixes),
                    None => clone_strings(&prefixes),
                };
                proof {
                    assert(merged.deep_view() == merged_prefixes(rc, cq_name(zone), pv));
                }
                db.add_region(zname, merged);
                proof {
                    assert(db@.regions == apply_aggregate(rc, cq_name(zone), pv));
                }
                z = z + 1;
            }
            proof {
                assert(ev[idx as int].cq.skip(e.cq@.len() as int).len() == 0);
            }
            let ghost r2 = db@.regions;
            let mut c: usize = 0;
            proof {
                assert(ev[idx as int].continent.skip(0) =~= ev[idx as int].continent);
            }
            while c < e.continent.len()
                invariant
                    c <= e.continent.len(),
                    e.deep_view() == ev.index(idx as int),
                    idx < entities.len(),
                    ev == entities.deep_view(),
                    pv == prefixes.deep_view(),
                    pv == spec_split_commas(ev[idx as int].prefix),
                    db@.init_timestamp_s == old(db)@.init_timestamp_s,
                    db@.next_id == old(db)@.next_id,
                    db@.spots == old(db)@.spots,
                    apply_continents(r2, ev[idx as int].continent, pv) == apply_continents(
                        db@.regions,
                        ev[idx as int].continent.skip(c as int),
                        pv,
                    ),
                decreases e.continent.len() - c,
            {
                proof {
                    assert(ev[idx as int].continent.skip(c as int)[0] == ev[idx as int].continent[c
                        as int]);
                    assert(ev[idx as int].continent.skip(c as int).drop_first()
                        =~= ev[idx as int].continent.skip(c as int + 1));
                }
                let ghost rc = db@.regions;
                let cont = e.continent[c].clone();
                let merged = match db.get_region(cont.as_str()) {
                    Some(r) => concat_strings(&prefixes, &r.prefixes),
                    None => clone_strings(&prefixes),
                };
                proof {
                    assert(merged.deep_view() == merged_prefixes(
                        rc,
                        ev[idx as int].continent[c as int],
                        pv,
                    ));
                }
                db.add_region(cont, merged);
                proof {
                    assert(db@.regions == apply_aggregate(
                        rc,
                        ev[idx as int].continent[c as int],
                        pv,
                    ));
                }
                c = c + 1;
            }
            proof {
                assert(ev[idx as int].continent.skip(e.continent@.len() as int).len() == 0);
                assert(db@.regions == apply_entity(r0, ev[idx as int]));
            }
        } else {
            proof {
                assert(ev[idx as int].valid_end.len() > 0);
                assert(db@.regions == apply_entity(db@.regions, ev[idx as int]));
            }
        }
        idx = idx + 1;
    }
    proof {
        assert(ev.skip(entities@.len() as int).len() == 0);
    }
}

} // verus!
