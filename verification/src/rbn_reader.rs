//! The spot-line parser: one line of feed text to a structured spot record,
//! or a failure naming the offending field.

use crate::spot_db::{SpotDB, SpotV};
use crate::text::{spec_trim, str_eq_exec, trim_ws};
use vstd::prelude::*;

verus! {

/// Why a line failed to parse, by the field that offended.
#[derive(Clone, Copy, Debug, PartialEq, Eq, Structural)]
pub enum ParseError {
    /// A positional token was missing.
    MissingToken,
    /// The leading "DX" marker was something else.
    ExpectedDx,
    /// The "de" marker was something else.
    ExpectedDe,
    /// The "dB" unit token was something else.
    ExpectedDb,
    /// The "WPM" unit token was something else.
    ExpectedWpm,
    /// The frequency field was not a plain decimal number.
    BadFrequency,
    /// The signal-to-noise field was not an integer.
    BadSnr,
    /// The speed field was not an unsigned integer.
    BadWpm,
    /// The time token was not four digits and a marker, or named no
    /// valid time of day.
    BadTime,
}

/// One parsed spot observation, before it enters the database.
#[derive(Debug)]
pub struct SpotInfo {
    pub spotter: String,
    pub freq_tenth_khz: u64,
    pub spotted: String,
    pub mode: String,
    pub snr_db: i32,
    pub wpm: u32,
    pub msg: String,
    pub timestamp_s: i64,
}

impl View for SpotInfo {
    type V = SpotV;

    open spec fn view(&self) -> SpotV {
        SpotV {
            spotter: self.spotter@,
            spotted: self.spotted@,
            freq_tenth_khz: self.freq_tenth_khz,
            mode: self.mode@,
            snr_db: self.snr_db,
            wpm: self.wpm,
            msg: self.msg@,
            timestamp_s: self.timestamp_s,
        }
    }
}

/// Whether `c` splits tokens: the ASCII white-space characters.
pub open spec fn is_split_ws(c: char) -> bool {
    c == ' ' || c == '\t' || c == '\n' || c == '\u{c}' || c == '\r'
}

/// The length of the token at the head of `s`: its longest non-white prefix.
pub open spec fn token_len(s: Seq<char>) -> nat
    decreases s.len(),
{
    if s.len() == 0 || is_split_ws(s[0]) {
        0
    } else {
        1 + token_len(s.drop_first())
    }
}

/// The head token is never longer than the text.
pub proof fn lemma_token_len_le(s: Seq<char>)
    ensures
        token_len(s) <= s.len(),
    decreases s.len(),
{
    if !(s.len() == 0 || is_split_ws(s[0])) {
        lemma_token_len_le(s.drop_first());
    }
}

/// The head token ends exactly at the first white-space character.
pub proof fn lemma_token_len_chars(s: Seq<char>, k: int)
    requires
        0 <= k <= s.len(),
        forall|m: int| 0 <= m < k ==> !is_split_ws(s[m]),
        k == s.len() || is_split_ws(s[k]),
    ensures
        token_len(s) == k,
    decreases s.len(),
{
    if k > 0 {
        assert(!is_split_ws(s[0]));
        assert(forall|m: int| 0 <= m < k - 1 ==> s.drop_first()[m] == s[m + 1]);
        if k < s.len() {
            assert(s.drop_first()[k - 1] == s[k]);
        }
        lemma_token_len_chars(s.drop_first(), k - 1);
    }
}

/// The white-space-separated tokens of `s`, in order.
pub open spec fn spec_tokens(s: Seq<char>) -> Seq<Seq<char>>
    decreases s.len(),
    via spec_tokens_decreases
{
    if s.len() == 0 {
        Seq::empty()
    } else if is_split_ws(s[0]) {
        spec_tokens(s.drop_first())
    } else {
        seq![s.take(token_len(s) as int)] + spec_tokens(s.skip(token_len(s) as int))
    }
}

#[via_fn]
proof fn spec_tokens_decreases(s: Seq<char>) {
    lemma_token_len_le(s);
    if s.len() > 0 && !is_split_ws(s[0]) {
        assert(token_len(s) >= 1);
    }
}

/// Whether `c` splits tokens, executable form.
fn is_split_ws_exec(c: char) -> (r: bool)
    ensures
        r == is_split_ws(c),
{
    c == ' ' || c == '\t' || c == '\n' || c == '\u{c}' || c == '\r'
}

/// Splits `s` into its white-space-separated tokens.
pub fn split_tokens(s: &str) -> (r: Vec<String>)
    ensures
        r.deep_view() == spec_tokens(s@),
{
    let n = s.unicode_len();
    let mut toks: Vec<String> = Vec::new();
    let mut i: usize = 0;
    proof {
        assert(s@.skip(0) =~= s@);
        assert(toks.deep_view() =~= Seq::<Seq<char>>::empty());
        assert(spec_tokens(s@) =~= toks.deep_view() + spec_tokens(s@.skip(0)));
    }
    while i < n
        invariant
            i <= n,
            n == s@.len(),
            spec_tokens(s@) == toks.deep_view() + spec_tokens(s@.skip(i as int)),
        decreases n - i,
    {
        proof {
            assert(s@.skip(i as int)[0] == s@[i as int]);
            assert(s@.skip(i as int).drop_first() =~= s@.skip(i as int + 1));
        }
        if is_split_ws_exec(s.get_char(i)) {
            i = i + 1;
        } else {
            let mut j = i + 1;
            while j < n && !is_split_ws_exec(s.get_char(j))
                invariant
                    i < j <= n,
                    n == s@.len(),
                    forall|m: int| i <= m < j ==> !is_split_ws(s@[m]),
                decreases n - j,
            {
                j = j + 1;
            }
            let ghost seg = s@.skip(i as int);
            proof {
                assert(forall|m: int| 0 <= m < j - i ==> seg[m] == s@[m + i]);
                if j < n {
                    assert(seg[j - i] == s@[j as int]);
                    assert(is_split_ws(seg[j - i]));
                }
                lemma_token_len_chars(seg, j - i);
                assert(token_len(seg) == j - i);
                assert(seg.take(j - i) =~= s@.subrange(i as int, j as int));
                assert(seg.skip(j - i) =~= s@.skip(j as int));
            }
            let tok = s.substring_char(i, j);
            let ghost pre = toks.deep_view();
            toks.push(String::from_str(tok));
            proof {
                assert(toks.deep_view() =~= pre.push(s@.subrange(i as int, j as int)));
                assert(spec_tokens(seg) == seq![s@.subrange(i as int, j as int)] + spec_tokens(
                    s@.skip(j as int),
                ));
                assert(pre + spec_tokens(seg) =~= toks.deep_view() + spec_tokens(
                    s@.skip(j as int),
                ));
            }
            i = j;
        }
    }
    proof {
        assert(s@.skip(i as int).len() == 0);
        assert(spec_tokens(s@.skip(i as int)) =~= Seq::<Seq<char>>::empty());
        assert(toks.deep_view() + spec_tokens(s@.skip(i as int)) =~= toks.deep_view());
    }
    toks
}

/// Whether `c` is a decimal digit.
pub open spec fn is_digit(c: char) -> bool {
    48 <= c as u32 <= 57
}

/// Whether every character of `s` is a decimal digit.
pub open spec fn all_digits(s: Seq<char>) -> bool {
    forall|i: int| 0 <= i < s.len() ==> is_digit(#[trigger] s[i])
}

/// The number a run of decimal digits denotes.
pub open spec fn digits_val(s: Seq<char>) -> int
    decreases s.len(),
{
    if s.len() == 0 {
        0
    } else {
        digits_val(s.drop_last()) * 10 + (s.last() as u32 - 48)
    }
}

/// A run of digits denotes a non-negative number.
pub proof fn lemma_digits_val_nonneg(s: Seq<char>)
    requires
        all_digits(s),
    ensures
        digits_val(s) >= 0,
    decreases s.len(),
{
    if s.len() > 0 {
        assert(forall|i: int| 0 <= i < s.len() - 1 ==> s.drop_last()[i] == s[i]);
        assert(all_digits(s.drop_last()));
        lemma_digits_val_nonneg(s.drop_last());
        assert(is_digit(s[s.len() - 1]));
        assert(s.last() == s[s.len() - 1]);
        assert(s.last() as u32 - 48 >= 0);
    }
}

/// Extending a digit run multiplies its value and adds the digit.
pub proof fn lemma_digits_val_take_succ(s: Seq<char>, k: int)
    requires
        0 <= k < s.len(),
    ensures
        digits_val(s.take(k + 1)) == digits_val(s.take(k)) * 10 + (s[k] as u32 - 48),
{
    assert(s.take(k + 1).drop_last() =~= s.take(k));
    assert(s.take(k + 1).last() == s[k]);
}

/// The digits of an unsigned number token, after an optional plus sign.
pub open spec fn unsigned_body(t: Seq<char>) -> Seq<char> {
    if t.len() > 0 && t[0] == '+' {
        t.drop_first()
    } else {
        t
    }
}

/// The number an unsigned decimal token denotes, if it fits in 32 bits:
/// an optional plus sign, then one or more digits.
pub open spec fn spec_parse_u32(t: Seq<char>) -> Option<u32> {
    let body = unsigned_body(t);
    if body.len() == 0 || !all_digits(body) {
        None
    } else if digits_val(body) > u32::MAX {
        None
    } else {
        Some(digits_val(body) as u32)
    }
}

/// The digits of a signed number token, after an optional sign.
pub open spec fn signed_body(t: Seq<char>) -> Seq<char> {
    if t.len() > 0 && (t[0] == '+' || t[0] == '-') {
        t.drop_first()
    } else {
        t
    }
}

/// The number a signed decimal token denotes, if it fits in 32 bits:
/// an optional sign, then one or more digits.
pub open spec fn spec_parse_i32(t: Seq<char>) -> Option<i32> {
    let body = signed_body(t);
    if body.len() == 0 || !all_digits(body) {
        None
    } else {
        let v = if t.len() > 0 && t[0] == '-' {
            -digits_val(body)
        } else {
            digits_val(body)
        };
        if v < i32::MIN || v > i32::MAX {
            None
        } else {
            Some(v as i32)
        }
    }
}

/// The index of the first decimal point of `t`, if any.
pub open spec fn first_dot(t: Seq<char>) -> Option<int>
    decreases t.len(),
{
    if t.len() == 0 {
        None
    } else if t[0] == '.' {
        Some(0)
    } else {
        match first_dot(t.drop_first()) {
            Some(i) => Some(i + 1),
            None => None,
        }
    }
}

/// The frequency a decimal kHz token denotes, in tenths of a kHz: one or
/// more digits, optionally a point and one or more digits, of which the
/// first names the tenth; further fraction digits are disregarded.
pub open spec fn spec_parse_freq(t: Seq<char>) -> Option<u64> {
    match first_dot(t) {
        None => if t.len() == 0 || !all_digits(t) {
            None
        } else if digits_val(t) * 10 > u64::MAX {
            None
        } else {
            Some((digits_val(t) * 10) as u64)
        },
        Some(d) => {
            let ip = t.take(d);
            let fp = t.skip(d + 1);
            if ip.len() == 0 || fp.len() == 0 || !all_digits(ip) || !all_digits(fp) {
                None
            } else if digits_val(ip) * 10 + (fp[0] as u32 - 48) > u64::MAX {
                None
            } else {
                Some((digits_val(ip) * 10 + (fp[0] as u32 - 48)) as u64)
            }
        },
    }
}

/// A digit run is worth at least any of its prefixes.
pub proof fn lemma_digits_val_mono(s: Seq<char>, k: int)
    requires
        all_digits(s),
        0 <= k <= s.len(),
    ensures
        digits_val(s.take(k)) <= digits_val(s),
    decreases s.len() - k,
{
    if k < s.len() {
        lemma_digits_val_take_succ(s, k);
        assert(forall|i: int| 0 <= i < k ==> s.take(k)[i] == s[i]);
        assert(all_digits(s.take(k)));
        lemma_digits_val_nonneg(s.take(k));
        assert(is_digit(s[k]));
        assert(digits_val(s.take(k + 1)) >= digits_val(s.take(k)));
        lemma_digits_val_mono(s, k + 1);
    } else {
        assert(s.take(k) =~= s);
    }
}

/// Reads the digit run `t[from..]` into a number, refusing values over
/// `cap` and runs that are empty or hold a non-digit.
fn parse_digits(t: &str, from: usize, cap: u64) -> (r: Option<u64>)
    requires
        from <= t@.len(),
        cap <= (u64::MAX - 9) / 10,
    ensures
        ({
            let body = t@.skip(from as int);
            match r {
                Some(v) => body.len() > 0 && all_digits(body) && v == digits_val(body) && v <= cap,
                None => body.len() == 0 || !all_digits(body) || digits_val(body) > cap,
            }
        }),
{
    let n = t.unicode_len();
    if from >= n {
        return None;
    }
    let ghost body = t@.skip(from as int);
    proof {
        assert(body.take(0) =~= Seq::<char>::empty());
    }
    let mut acc: u64 = 0;
    let mut k = from;
    while k < n
        invariant
            from <= k <= n,
            n == t@.len(),
            body == t@.skip(from as int),
            forall|m: int| 0 <= m < k - from ==> is_digit(#[trigger] body[m]),
            acc == digits_val(body.take(k - from)),
            acc <= cap,
            cap <= (u64::MAX - 9) / 10,
        decreases n - k,
    {
        let c = t.get_char(k);
        let cu = c as u32;
        proof {
            assert(body[k - from] == t@[k as int]);
        }
        if cu < 48 || cu > 57 {
            proof {
                assert(!is_digit(body[k - from]));
            }
            return None;
        }
        let d = (cu - 48) as u64;
        let next = acc * 10 + d;
        proof {
            lemma_digits_val_take_succ(body, k - from);
        }
        if next > cap {
            proof {
                if all_digits(body) {
                    lemma_digits_val_mono(body, k - from + 1);
                }
            }
            return None;
        }
        acc = next;
        k = k + 1;
    }
    proof {
        assert(body.take(n - from) =~= body);
    }
    Some(acc)
}

/// Reads an unsigned decimal token, as `u32` parsing accepts it.
fn parse_u32_exec(t: &str) -> (r: Option<u32>)
    ensures
        r == spec_parse_u32(t@),
{
    let n = t.unicode_len();
    let mut from: usize = 0;
    if n > 0 && t.get_char(0) == '+' {
        from = 1;
    }
    proof {
        if from == 1 {
            assert(unsigned_body(t@) =~= t@.skip(1));
        } else {
            assert(unsigned_body(t@) =~= t@.skip(0));
        }
    }
    match parse_digits(t, from, 0xFFFF_FFFF) {
        Some(v) => Some(v as u32),
        None => None,
    }
}

/// Reads a signed decimal token, as `i32` parsing accepts it.
fn parse_i32_exec(t: &str) -> (r: Option<i32>)
    ensures
        r == spec_parse_i32(t@),
{
    let n = t.unicode_len();
    let mut from: usize = 0;
    let mut neg = false;
    if n > 0 {
        let c0 = t.get_char(0);
        if c0 == '+' {
            from = 1;
        } else if c0 == '-' {
            from = 1;
            neg = true;
        }
    }
    proof {
        if from == 1 {
            assert(signed_body(t@) =~= t@.skip(1));
        } else {
            assert(signed_body(t@) =~= t@.skip(0));
        }
    }
    match parse_digits(t, from, 0x8000_0000) {
        Some(v) => {
            if neg {
                Some((-(v as i64)) as i32)
            } else if v > 0x7FFF_FFFF {
                None
            } else {
                Some(v as i32)
            }
        },
        None => None,
    }
}

/// Reads a decimal kHz token into tenths of a kHz.
fn parse_freq_exec(t: &str) -> (r: Option<u64>)
    ensures
        r == spec_parse_freq(t@),
{
    let n = t.unicode_len();
    proof {
        assert(t@.skip(0) =~= t@);
    }
    let mut i: usize = 0;
    while i < n && t.get_char(i) != '.'
        invariant
            i <= n,
            n == t@.len(),
            first_dot(t@) == match first_dot(t@.skip(i as int)) {
                Some(k) => Some(k + i),
                None => None::<int>,
            },
        decreases n - i,
    {
        proof {
            assert(t@.skip(i as int)[0] == t@[i as int]);
            assert(t@.skip(i as int).drop_first() =~= t@.skip(i as int + 1));
        }
        i = i + 1;
    }
    proof {
        if i == n {
            assert(t@.skip(i as int).len() == 0);
            assert(first_dot(t@) is None);
        } else {
            assert(t@.skip(i as int)[0] == t@[i as int]);
            assert(first_dot(t@) == Some(i as int));
        }
    }
    let e = i;
    if e == 0 && n > 0 {
        // Leading decimal point, or the whole token is one.
        return None;
    }
    if n == 0 {
        return None;
    }
    // Integer part: t[0..e], all digits, value tracked exactly.
    let ghost ip = t@.take(e as int);
    proof {
        assert(ip.take(0) =~= Seq::<char>::empty());
    }
    let mut acc: u64 = 0;
    let mut k: usize = 0;
    while k < e
        invariant
            k <= e <= n,
            n == t@.len(),
            ip == t@.take(e as int),
            first_dot(t@) == if e < n {
                Some(e as int)
            } else {
                None::<int>
            },
            forall|m: int| 0 <= m < k ==> is_digit(#[trigger] ip[m]),
            acc == digits_val(ip.take(k as int)),
        decreases e - k,
    {
        let c = t.get_char(k);
        let cu = c as u32;
        proof {
            assert(ip[k as int] == t@[k as int]);
        }
        if cu < 48 || cu > 57 {
            proof {
                assert(!is_digit(ip[k as int]));
            }
            return None;
        }
        let d = (cu - 48) as u64;
        proof {
            lemma_digits_val_take_succ(ip, k as int);
        }
        if acc > (u64::MAX - d) / 10 {
            proof {
                assert(acc * 10 + d > u64::MAX);
                if all_digits(ip) {
                    lemma_digits_val_mono(ip, k as int + 1);
                    assert(digits_val(ip) > u64::MAX);
                    lemma_digits_val_nonneg(ip);
                    assert(digits_val(ip) * 10 >= digits_val(ip));
                    if e < n {
                        let fpg = t@.skip(e as int + 1);
                        if fpg.len() > 0 && all_digits(fpg) {
                            assert(is_digit(fpg[0]));
                            assert(digits_val(ip) * 10 + (fpg[0] as u32 - 48) > u64::MAX);
                        }
                    } else {
                        assert(t@.take(e as int) =~= t@);
                        assert(digits_val(t@) * 10 > u64::MAX);
                    }
                }
            }
            return None;
        }
        acc = acc * 10 + d;
        k = k + 1;
    }
    proof {
        assert(ip.take(e as int) =~= ip);
        assert(all_digits(ip));
        lemma_digits_val_nonneg(ip);
    }
    if e == n {
        // No fraction: the value is the integer part in tenths.
        if acc > u64::MAX / 10 {
            proof {
                assert(t@.take(e as int) =~= t@);
                assert(digits_val(t@) * 10 > u64::MAX);
            }
            return None;
        }
        proof {
            assert(t@.take(e as int) =~= t@);
        }
        return Some(acc * 10);
    }
    // Fraction: at least one digit; the first names the tenth.
    if e + 1 >= n {
        proof {
            assert(t@.skip(e as int + 1).len() == 0);
        }
        return None;
    }
    let ghost fp = t@.skip(e as int + 1);
    let fc = t.get_char(e + 1);
    let fcu = fc as u32;
    proof {
        assert(fp[0] == t@[e as int + 1]);
    }
    if fcu < 48 || fcu > 57 {
        proof {
            assert(!is_digit(fp[0]));
        }
        return None;
    }
    let fd = (fcu - 48) as u64;
    let mut m = e + 2;
    while m < n
        invariant
            e + 2 <= m <= n,
            n == t@.len(),
            fp == t@.skip(e as int + 1),
            first_dot(t@) == Some(e as int),
            forall|q: int| 0 <= q < m - e - 1 ==> is_digit(#[trigger] fp[q]),
        decreases n - m,
    {
        let c = t.get_char(m);
        let cu = c as u32;
        proof {
            assert(fp[m - e - 1] == t@[m as int]);
        }
        if cu < 48 || cu > 57 {
            proof {
                assert(!is_digit(fp[m - e - 1]));
            }
            return None;
        }
        m = m + 1;
    }
    proof {
        assert(all_digits(fp));
    }
    if acc > (u64::MAX - fd) / 10 {
        proof {
            assert(acc * 10 + fd > u64::MAX);
        }
        return None;
    }
    Some(acc * 10 + fd)
}

/// Whether `t` ends in the reporting-node marker "-#:".
pub open spec fn ends_with_marker(t: Seq<char>) -> bool {
    t.len() >= 3 && t[t.len() - 3] == '-' && t[t.len() - 2] == '#' && t[t.len() - 1] == ':'
}

/// `t` with every trailing "-#:" marker removed.
pub open spec fn strip_marker(t: Seq<char>) -> Seq<char>
    decreases t.len(),
{
    if ends_with_marker(t) {
        strip_marker(t.take(t.len() - 3))
    } else {
        t
    }
}

/// `t` with every trailing dash removed.
pub open spec fn strip_dashes(t: Seq<char>) -> Seq<char>
    decreases t.len(),
{
    if t.len() > 0 && t.last() == '-' {
        strip_dashes(t.drop_last())
    } else {
        t
    }
}

/// The bare spotter callsign: the origin token with its trailing "-#:"
/// markers removed, then any trailing dashes.
pub open spec fn spec_spotter(t: Seq<char>) -> Seq<char> {
    strip_dashes(strip_marker(t))
}

/// Strips the "-#:" markers and trailing dashes off an origin token.
fn strip_spotter(t: &str) -> (r: String)
    ensures
        r@ == spec_spotter(t@),
{
    let n = t.unicode_len();
    let mut end = n;
    proof {
        assert(t@.take(n as int) =~= t@);
    }
    while end >= 3 && t.get_char(end - 3) == '-' && t.get_char(end - 2) == '#' && t.get_char(
        end - 1,
    ) == ':'
        invariant
            end <= n,
            n == t@.len(),
            strip_marker(t@) == strip_marker(t@.take(end as int)),
        decreases end,
    {
        proof {
            let seg = t@.take(end as int);
            assert(seg[end - 3] == t@[end - 3] && seg[end - 2] == t@[end - 2] && seg[end - 1]
                == t@[end - 1]);
            assert(ends_with_marker(seg));
            assert(seg.take(end - 3) =~= t@.take(end - 3));
        }
        end = end - 3;
    }
    proof {
        let seg = t@.take(end as int);
        if end >= 3 {
            assert(seg[end - 3] == t@[end - 3] && seg[end - 2] == t@[end - 2] && seg[end - 1]
                == t@[end - 1]);
        }
        assert(!ends_with_marker(seg));
        assert(strip_marker(t@) == seg);
    }
    let ghost stripped = strip_marker(t@);
    while end >= 1 && t.get_char(end - 1) == '-'
        invariant
            end <= n,
            n == t@.len(),
            stripped == strip_marker(t@),
            strip_dashes(stripped) == strip_dashes(t@.take(end as int)),
        decreases end,
    {
        proof {
            let seg = t@.take(end as int);
            assert(seg.last() == t@[end - 1]);
            assert(seg.drop_last() =~= t@.take(end as int - 1));
        }
        end = end - 1;
    }
    proof {
        let seg = t@.take(end as int);
        if end >= 1 {
            assert(seg.last() == t@[end - 1]);
        }
        assert(strip_dashes(seg) == seg);
    }
    String::from_str(t.substring_char(0, end))
}

/// The moment `hr:min` UTC names on the current day, as epoch seconds.
///
/// When the message says hour 23 while the clock already reads hour 0,
/// the previous day is meant: the message was stamped just before
/// midnight and arrived just after.
pub open spec fn spec_resolve_time(hr: u32, min: u32, now_s: i64) -> int {
    let day0 = now_s as int / 86400;
    let day = if hr == 23 && ((now_s as int / 3600) % 24) == 0 {
        day0 - 1
    } else {
        day0
    };
    day * 86400 + hr * 3600 + min * 60
}

/// What a four-digit-plus-marker time token resolves to, seen from `now_s`.
pub open spec fn spec_parse_hhmmz(t: Seq<char>, now_s: i64) -> Result<int, ParseError> {
    if t.len() != 5 {
        Err(ParseError::BadTime)
    } else {
        let hr_o = spec_parse_u32(t.take(2));
        let min_o = spec_parse_u32(t.subrange(2, 4));
        if hr_o is None || min_o is None {
            Err(ParseError::BadTime)
        } else {
            let hr = hr_o.unwrap();
            let min = min_o.unwrap();
            if hr <= 23 && min <= 59 {
                Ok(spec_resolve_time(hr, min, now_s))
            } else {
                Err(ParseError::BadTime)
            }
        }
    }
}

/// Resolves a four-digit time token against the current clock reading.
pub fn parse_hhmmz_to_utc(hhmmz: &str, now_s: i64) -> (r: Result<i64, ParseError>)
    requires
        0 <= now_s <= i64::MAX - 86400,
    ensures
        ({
            let s = spec_parse_hhmmz(hhmmz@, now_s);
            match r {
                Ok(ts) => s == Ok::<int, ParseError>(ts as int),
                Err(e) => s == Err::<int, ParseError>(e),
            }
        }),
{
    let n = hhmmz.unicode_len();
    if n != 5 {
        return Err(ParseError::BadTime);
    }
    let hr_o = parse_u32_exec(hhmmz.substring_char(0, 2));
    let min_o = parse_u32_exec(hhmmz.substring_char(2, 4));
    proof {
        assert(hhmmz@.subrange(0, 2) =~= hhmmz@.take(2));
    }
    let hr = match hr_o {
        Some(h) => h,
        None => {
            return Err(ParseError::BadTime);
        },
    };
    let min = match min_o {
        Some(m) => m,
        None => {
            return Err(ParseError::BadTime);
        },
    };
    if !(hr <= 23 && min <= 59) {
        return Err(ParseError::BadTime);
    }
    let nowu = now_s as u64;
    let day0 = nowu / 86400;
    let hour_now = (nowu / 3600) % 24;
    proof {
        assert(day0 * 86400 <= nowu) by (nonlinear_arith)
            requires
                day0 == nowu / 86400,
        ;
        assert(day0 as int == now_s as int / 86400);
        assert(hour_now as int == (now_s as int / 3600) % 24);
    }
    let day: i64 = if hr == 23 && hour_now == 0 {
        (day0 as i64) - 1
    } else {
        day0 as i64
    };
    let ts: i64 = day * 86400 + (hr as i64) * 3600 + (min as i64) * 60;
    Ok(ts)
}

/// What a spot line parses to: the record, or the first failure in
/// positional order.
///
/// The tokens are, in order: the literals "DX" and "de"; the origin
/// (spotter) token; the frequency in kHz; the spotted callsign; the mode;
/// the signal-to-noise ratio with its "dB" unit; the speed with its "WPM"
/// unit; a message tag; and a time token. After a message tag "NCDXF" one
/// extra token is passed over before the time. Anything further is ignored.
pub open spec fn spec_parse_spot(line: Seq<char>, now_s: i64) -> Result<SpotV, ParseError> {
    let toks = spec_tokens(line);
    if toks.len() == 0 {
        Err(ParseError::MissingToken)
    } else if toks[0] != "DX"@ {
        Err(ParseError::ExpectedDx)
    } else if toks.len() == 1 {
        Err(ParseError::MissingToken)
    } else if toks[1] != "de"@ {
        Err(ParseError::ExpectedDe)
    } else if toks.len() <= 3 {
        Err(ParseError::MissingToken)
    } else if spec_parse_freq(toks[3]) is None {
        Err(ParseError::BadFrequency)
    } else if toks.len() <= 6 {
        Err(ParseError::MissingToken)
    } else if spec_parse_i32(toks[6]) is None {
        Err(ParseError::BadSnr)
    } else if toks.len() <= 7 {
        Err(ParseError::MissingToken)
    } else if toks[7] != "dB"@ {
        Err(ParseError::ExpectedDb)
    } else if toks.len() <= 8 {
        Err(ParseError::MissingToken)
    } else if spec_parse_u32(toks[8]) is None {
        Err(ParseError::BadWpm)
    } else if toks.len() <= 9 {
        Err(ParseError::MissingToken)
    } else if toks[9] != "WPM"@ {
        Err(ParseError::ExpectedWpm)
    } else if toks.len() <= 10 {
        Err(ParseError::MissingToken)
    } else {
        let ti = if toks[10] == "NCDXF"@ {
            12
        } else {
            11
        };
        if toks.len() <= ti {
            Err(ParseError::MissingToken)
        } else {
            match spec_parse_hhmmz(toks[ti], now_s) {
                Err(e) => Err(e),
                Ok(ts) => Ok(
                    SpotV {
                        spotter: spec_spotter(toks[2]),
                        spotted: toks[4],
                        freq_tenth_khz: spec_parse_freq(toks[3]).unwrap(),
                        mode: toks[5],
                        snr_db: spec_parse_i32(toks[6]).unwrap(),
                        wpm: spec_parse_u32(toks[8]).unwrap(),
                        msg: toks[10],
                        timestamp_s: ts as i64,
                    },
                ),
            }
        }
    }
}

/// Parses one feed line into a spot record, or the failure that the first
/// offending field causes. The function is total: no input makes it panic.
#[verifier::rlimit(60)]
pub fn parse_spot_split(line: &str, now_s: i64) -> (r: Result<SpotInfo, ParseError>)
    requires
        0 <= now_s <= i64::MAX - 86400,
    ensures
        ({
            let s = spec_parse_spot(line@, now_s);
            match r {
                Ok(si) => s == Ok::<SpotV, ParseError>(si@),
                Err(e) => s == Err::<SpotV, ParseError>(e),
            }
        }),
{
    let toks = split_tokens(line);
    let ghost tv = spec_tokens(line@);
    if toks.len() == 0 {
        return Err(ParseError::MissingToken);
    }
    if !str_eq_exec(toks[0].as_str(), "DX") {
        return Err(ParseError::ExpectedDx);
    }
    if toks.len() == 1 {
        return Err(ParseError::MissingToken);
    }
    if !str_eq_exec(toks[1].as_str(), "de") {
        return Err(ParseError::ExpectedDe);
    }
    if toks.len() <= 3 {
        return Err(ParseError::MissingToken);
    }
    let freq = match parse_freq_exec(toks[3].as_str()) {
        Some(f) => f,
        None => {
            return Err(ParseError::BadFrequency);
        },
    };
    if toks.len() <= 6 {
        return Err(ParseError::MissingToken);
    }
    let snr = match parse_i32_exec(toks[6].as_str()) {
        Some(v) => v,
        None => {
            return Err(ParseError::BadSnr);
        },
    };
    if toks.len() <= 7 {
        return Err(ParseError::MissingToken);
    }
    if !str_eq_exec(toks[7].as_str(), "dB") {
        return Err(ParseError::ExpectedDb);
    }
    if toks.len() <= 8 {
        return Err(ParseError::MissingToken);
    }
    let wpm = match parse_u32_exec(toks[8].as_str()) {
        Some(v) => v,
        None => {
            return Err(ParseError::BadWpm);
        },
    };
    if toks.len() <= 9 {
        return Err(ParseError::MissingToken);
    }
    if !str_eq_exec(toks[9].as_str(), "WPM") {
        return Err(ParseError::ExpectedWpm);
    }
    if toks.len() <= 10 {
        return Err(ParseError::MissingToken);
    }
    let ti: usize = if str_eq_exec(toks[10].as_str(), "NCDXF") {
        12
    } else {
        11
    };
    if toks.len() <= ti {
        return Err(ParseError::MissingToken);
    }
    let ts = match parse_hhmmz_to_utc(toks[ti].as_str(), now_s) {
        Ok(v) => v,
        Err(e) => {
            return Err(e);
        },
    };
    let si = SpotInfo {
        spotter: strip_spotter(toks[2].as_str()),
        freq_tenth_khz: freq,
        spotted: toks[4].clone(),
        mode: toks[5].clone(),
        snr_db: snr,
        wpm,
        msg: toks[10].clone(),
        timestamp_s: ts,
    };
    Ok(si)
}

impl SpotDB {
    /// Parses one raw feed line, trimmed of surrounding white space, and
    /// on success stores the spot; a line that fails to parse changes
    /// nothing and reports why.
    pub fn ingest_line(&mut self, line: &str, now_s: i64) -> (r: Result<(), ParseError>)
        requires
            old(self)@.next_id < u64::MAX,
            0 <= now_s <= i64::MAX - 86400,
        ensures
            ({
                let p = spec_parse_spot(spec_trim(line@), now_s);
                match r {
                    Ok(u) => p is Ok && final(self)@ == crate::spot_db::spec_add_spot(
                        old(self)@,
                        p.unwrap(),
                    ),
                    Err(e) => p == Err::<SpotV, ParseError>(e) && *final(self) == *old(self),
                }
            }),
    {
        let trimmed = trim_ws(line);
        match parse_spot_split(trimmed.as_str(), now_s) {
            Ok(si) => {
                self.add_spot(
                    si.spotter.as_str(),
                    si.spotted.as_str(),
                    si.freq_tenth_khz,
                    si.mode.as_str(),
                    si.snr_db,
                    si.wpm,
                    si.msg.as_str(),
                    si.timestamp_s,
                );
                Ok(())
            },
            Err(e) => Err(e),
        }
    }
}

} // verus!
