//! The fixed table of HF bands, with inclusive bounds in tenths of a kHz.

use vstd::prelude::*;

verus! {

/// Mathematical value of a [`Band`]: its name and inclusive bounds.
#[verifier::ext_equal]
pub ghost struct BandV {
    pub name: Seq<char>,
    pub lower_tenth_khz: u64,
    pub upper_tenth_khz: u64,
}

/// One named band with inclusive frequency bounds, held in tenths of a kHz.
pub struct Band {
    pub name: String,
    pub lower_tenth_khz: u64,
    pub upper_tenth_khz: u64,
}

impl View for Band {
    type V = BandV;

    open spec fn view(&self) -> BandV {
        BandV {
            name: self.name@,
            lower_tenth_khz: self.lower_tenth_khz,
            upper_tenth_khz: self.upper_tenth_khz,
        }
    }
}

impl DeepView for Band {
    type V = BandV;

    open spec fn deep_view(&self) -> BandV {
        self.view()
    }
}

impl Band {
    /// Constructor that receives the inclusive limits in kHz.
    pub fn new_from_khz(lower_khz: u64, upper_khz: u64, name: &str) -> (r: Band)
        requires
            lower_khz * 10 <= u64::MAX,
            upper_khz * 10 <= u64::MAX,
        ensures
            r@.name == name@,
            r@.lower_tenth_khz == lower_khz * 10,
            r@.upper_tenth_khz == upper_khz * 10,
    {
        Band {
            name: String::from_str(name),
            lower_tenth_khz: lower_khz * 10,
            upper_tenth_khz: upper_khz * 10,
        }
    }
}

/// Whether frequency `f` (tenths of a kHz) lies within band `b`, bounds inclusive.
pub open spec fn band_contains(b: BandV, f: u64) -> bool {
    b.lower_tenth_khz <= f && f <= b.upper_tenth_khz
}

/// The HF band table as a mathematical sequence, in display order.
pub open spec fn spec_hf_bands() -> Seq<BandV> {
    seq![
        BandV { name: "160m"@, lower_tenth_khz: 18_000, upper_tenth_khz: 20_000 },
        BandV { name: "80m"@, lower_tenth_khz: 35_000, upper_tenth_khz: 40_000 },
        BandV { name: "40m"@, lower_tenth_khz: 70_000, upper_tenth_khz: 72_000 },
        BandV { name: "30m"@, lower_tenth_khz: 101_000, upper_tenth_khz: 101_500 },
        BandV { name: "20m"@, lower_tenth_khz: 140_000, upper_tenth_khz: 143_500 },
        BandV { name: "17m"@, lower_tenth_khz: 180_680, upper_tenth_khz: 181_680 },
        BandV { name: "15m"@, lower_tenth_khz: 210_000, upper_tenth_khz: 214_500 },
        BandV { name: "12m"@, lower_tenth_khz: 248_900, upper_tenth_khz: 249_900 },
        BandV { name: "10m"@, lower_tenth_khz: 280_000, upper_tenth_khz: 297_000 },
        BandV { name: "6m"@, lower_tenth_khz: 500_000, upper_tenth_khz: 520_000 },
    ]
}

/// The index of the first band of `bands` that contains `f`, if any.
pub open spec fn spec_band_index(bands: Seq<BandV>, f: u64) -> Option<int>
    decreases bands.len(),
{
    if bands.len() == 0 {
        None
    } else if band_contains(bands[0], f) {
        Some(0)
    } else {
        match spec_band_index(bands.drop_first(), f) {
            Some(i) => Some(i + 1),
            None => None,
        }
    }
}

/// A band lookup succeeds exactly when some band contains the frequency.
pub proof fn lemma_band_index_exists(bands: Seq<BandV>, f: u64)
    ensures
        spec_band_index(bands, f) is Some <==> exists|i: int|
            0 <= i < bands.len() && band_contains(#[trigger] bands[i], f),
    decreases bands.len(),
{
    if bands.len() > 0 {
        lemma_band_index_exists(bands.drop_first(), f);
        if band_contains(bands[0], f) {
        } else {
            assert forall|i: int|
                0 <= i < bands.len() && band_contains(#[trigger] bands[i], f) implies exists|j: int|
                0 <= j < bands.drop_first().len() && band_contains(
                    #[trigger] bands.drop_first()[j],
                    f,
                ) by {
                assert(i != 0);
                assert(bands.drop_first()[i - 1] == bands[i]);
            }
            assert forall|j: int|
                0 <= j < bands.drop_first().len() && band_contains(
                    #[trigger] bands.drop_first()[j],
                    f,
                ) implies exists|i: int|
                0 <= i < bands.len() && band_contains(#[trigger] bands[i], f) by {
                assert(bands[j + 1] == bands.drop_first()[j]);
            }
        }
    }
}

/// The fixed, ordered HF band table.
pub fn hf_bands() -> (r: Vec<Band>)
    ensures
        r.deep_view() == spec_hf_bands(),
{
    let mut v: Vec<Band> = Vec::new();
    v.push(Band::new_from_khz(1_800, 2_000, "160m"));
    v.push(Band::new_from_khz(3_500, 4_000, "80m"));
    v.push(Band::new_from_khz(7_000, 7_200, "40m"));
    v.push(Band::new_from_khz(10_100, 10_150, "30m"));
    v.push(Band::new_from_khz(14_000, 14_350, "20m"));
    v.push(Band::new_from_khz(18_068, 18_168, "17m"));
    v.push(Band::new_from_khz(21_000, 21_450, "15m"));
    v.push(Band::new_from_khz(24_890, 24_990, "12m"));
    v.push(Band::new_from_khz(28_000, 29_700, "10m"));
    v.push(Band::new_from_khz(50_000, 52_000, "6m"));
    proof {
        assert(v.deep_view() =~= spec_hf_bands());
    }
    v
}

/// The index of the first band of `bands` that contains `f`, if any.
pub fn find_band(bands: &Vec<Band>, f: u64) -> (r: Option<usize>)
    ensures
        match r {
            Some(i) => spec_band_index(bands.deep_view(), f) == Some(i as int),
            None => spec_band_index(bands.deep_view(), f) is None,
        },
{
    proof {
        assert(bands.deep_view().skip(0) =~= bands.deep_view());
    }
    let mut i: usize = 0;
    while i < bands.len()
        invariant
            i <= bands.len(),
            forall|j: int| 0 <= j < i ==> !band_contains(bands.deep_view()[j], f),
            spec_band_index(bands.deep_view(), f) == match spec_band_index(
                bands.deep_view().skip(i as int),
                f,
            ) {
                Some(k) => Some(k + i),
                None => None::<int>,
            },
        decreases bands.len() - i,
    {
        let b = &bands[i];
        proof {
            assert(bands.deep_view().skip(i as int).drop_first() =~= bands.deep_view().skip(
                i as int + 1,
            ));
            assert(bands.deep_view().skip(i as int)[0] == b.deep_view());
        }
        if b.lower_tenth_khz <= f && f <= b.upper_tenth_khz {
            return Some(i);
        }
        i = i + 1;
    }
    proof {
        assert(bands.deep_view().skip(i as int).len() == 0);
    }
    None
}

} // verus!
