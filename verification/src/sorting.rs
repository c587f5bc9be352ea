//! Lexicographic order on strings, and sorted-deduplicated copies of vectors.
//!
//! Query results are returned "sorted and deduplicated"; this module states
//! that as strict sortedness plus set-equality with the input, and provides
//! the executable routines that achieve it.

use vstd::prelude::*;

verus! {

/// Lexicographic order on character sequences, by code point.
pub open spec fn chars_le(a: Seq<char>, b: Seq<char>) -> bool
    decreases a.len(),
{
    if a.len() == 0 {
        true
    } else if b.len() == 0 {
        false
    } else if (a[0] as u32) < (b[0] as u32) {
        true
    } else if (b[0] as u32) < (a[0] as u32) {
        false
    } else {
        chars_le(a.drop_first(), b.drop_first())
    }
}

/// Strict lexicographic order on character sequences.
pub open spec fn chars_lt(a: Seq<char>, b: Seq<char>) -> bool {
    chars_le(a, b) && a != b
}

pub proof fn lemma_chars_le_refl(a: Seq<char>)
    ensures
        chars_le(a, a),
    decreases a.len(),
{
    if a.len() > 0 {
        lemma_chars_le_refl(a.drop_first());
    }
}

pub proof fn lemma_chars_le_total(a: Seq<char>, b: Seq<char>)
    ensures
        chars_le(a, b) || chars_le(b, a),
    decreases a.len(),
{
    if a.len() > 0 && b.len() > 0 && (a[0] as u32) == (b[0] as u32) {
        lemma_chars_le_total(a.drop_first(), b.drop_first());
    }
}

pub proof fn lemma_chars_le_antisym(a: Seq<char>, b: Seq<char>)
    requires
        chars_le(a, b),
        chars_le(b, a),
    ensures
        a == b,
    decreases a.len(),
{
    if a.len() == 0 {
        assert(b.len() == 0);
        assert(a =~= b);
    } else {
        assert(b.len() > 0);
        assert((a[0] as u32) == (b[0] as u32));
        vstd::utf8::char_u32_cast(a[0], a[0] as u32);
        vstd::utf8::char_u32_cast(b[0], b[0] as u32);
        assert(a[0] == b[0]);
        lemma_chars_le_antisym(a.drop_first(), b.drop_first());
        assert(a.drop_first() == b.drop_first());
        assert(a.drop_first().len() == b.drop_first().len());
        assert(a.len() == b.len());
        assert forall|i: int| 0 <= i < a.len() implies a[i] == b[i] by {
            if i > 0 {
                assert(a[i] == a.drop_first()[i - 1]);
                assert(b[i] == b.drop_first()[i - 1]);
            }
        }
        assert(a =~= b);
    }
}

pub proof fn lemma_chars_le_trans(a: Seq<char>, b: Seq<char>, c: Seq<char>)
    requires
        chars_le(a, b),
        chars_le(b, c),
    ensures
        chars_le(a, c),
    decreases a.len(),
{
    if a.len() > 0 {
        assert(b.len() > 0);
        assert(c.len() > 0);
        if (a[0] as u32) == (b[0] as u32) && (b[0] as u32) == (c[0] as u32) {
            lemma_chars_le_trans(a.drop_first(), b.drop_first(), c.drop_first());
        }
    }
}

/// Whether a sequence of character strings is strictly ascending.
pub open spec fn strictly_sorted_chars(s: Seq<Seq<char>>) -> bool {
    forall|i: int, j: int| 0 <= i < j < s.len() ==> chars_lt(s[i], s[j])
}

/// Whether a sequence of integers is strictly ascending.
pub open spec fn strictly_sorted_u64(s: Seq<u64>) -> bool {
    forall|i: int, j: int| 0 <= i < j < s.len() ==> s[i] < s[j]
}

/// Whether a sequence of integers is strictly ascending.
pub open spec fn strictly_sorted_u32(s: Seq<u32>) -> bool {
    forall|i: int, j: int| 0 <= i < j < s.len() ==> s[i] < s[j]
}

/// Whether a sequence of integers is strictly ascending.
pub open spec fn strictly_sorted_i32(s: Seq<i32>) -> bool {
    forall|i: int, j: int| 0 <= i < j < s.len() ==> s[i] < s[j]
}

pub proof fn lemma_insert_contains<A>(s: Seq<A>, i: int, x: A)
    requires
        0 <= i <= s.len(),
    ensures
        forall|y: A| #[trigger] s.insert(i, x).contains(y) <==> (s.contains(y) || y == x),
{
    assert forall|y: A| #[trigger] s.insert(i, x).contains(y) implies (s.contains(y) || y
        == x) by {
        let k = choose|k: int| 0 <= k < s.insert(i, x).len() && s.insert(i, x)[k] == y;
        if k < i {
            assert(s[k] == y);
        } else if k > i {
            assert(s[k - 1] == y);
        }
    }
    assert forall|y: A| (s.contains(y) || y == x) implies #[trigger] s.insert(i, x).contains(
        y,
    ) by {
        if y == x {
            assert(s.insert(i, x)[i] == y);
        } else {
            let k = choose|k: int| 0 <= k < s.len() && s[k] == y;
            if k < i {
                assert(s.insert(i, x)[k] == y);
            } else {
                assert(s.insert(i, x)[k + 1] == y);
            }
        }
    }
}

pub proof fn lemma_take_succ<A>(s: Seq<A>, k: int)
    requires
        0 <= k < s.len(),
    ensures
        s.take(k + 1) =~= s.take(k).push(s[k]),
        forall|y: A| #[trigger] s.take(k + 1).contains(y) <==> (s.take(k).contains(y) || y
            == s[k]),
{
    assert(s.take(k + 1) =~= s.take(k).push(s[k]));
    assert(s.take(k).push(s[k]) =~= s.take(k).insert(k, s[k]));
    lemma_insert_contains(s.take(k), k, s[k]);
}

/// Compares two strings lexicographically by code point.
pub fn str_le_exec(a: &str, b: &str) -> (r: bool)
    ensures
        r == chars_le(a@, b@),
{
    let alen = a.unicode_len();
    let blen = b.unicode_len();
    let mut i: usize = 0;
    proof {
        assert(a@.skip(0) =~= a@);
        assert(b@.skip(0) =~= b@);
    }
    loop
        invariant
            i <= alen,
            i <= blen,
            alen == a@.len(),
            blen == b@.len(),
            chars_le(a@, b@) == chars_le(a@.skip(i as int), b@.skip(i as int)),
        decreases alen - i,
    {
        if i >= alen {
            return true;
        }
        if i >= blen {
            return false;
        }
        let ca = a.get_char(i);
        let cb = b.get_char(i);
        proof {
            assert(a@.skip(i as int)[0] == a@[i as int]);
            assert(b@.skip(i as int)[0] == b@[i as int]);
        }
        if (ca as u32) < (cb as u32) {
            return true;
        }
        if (cb as u32) < (ca as u32) {
            return false;
        }
        proof {
            assert(a@.skip(i as int).drop_first() =~= a@.skip(i as int + 1));
            assert(b@.skip(i as int).drop_first() =~= b@.skip(i as int + 1));
        }
        i = i + 1;
    }
}

/// Inserts `x` into the strictly sorted vector `out`, unless already present.
fn insert_string(out: &mut Vec<String>, x: String)
    requires
        strictly_sorted_chars(old(out).deep_view()),
    ensures
        strictly_sorted_chars(final(out).deep_view()),
        forall|s: Seq<char>| #[trigger] final(out).deep_view().contains(s) <==> (old(
            out,
        ).deep_view().contains(s) || s == x@),
{
    let ghost ov = old(out).deep_view();
    let mut i: usize = 0;
    while i < out.len()
        invariant
            *out == *old(out),
            i <= out.len(),
            strictly_sorted_chars(ov),
            ov == out.deep_view(),
            forall|j: int| 0 <= j < i ==> chars_lt(ov[j], x@),
        decreases out.len() - i,
    {
        let le1 = str_le_exec(x.as_str(), out[i].as_str());
        if le1 {
            let le2 = str_le_exec(out[i].as_str(), x.as_str());
            if le2 {
                proof {
                    lemma_chars_le_antisym(x@, ov[i as int]);
                    assert(ov.contains(x@));
                }
                return ;
            }
            out.insert(i, x);
            proof {
                assert(out.deep_view() =~= ov.insert(i as int, x@));
                lemma_insert_contains(ov, i as int, x@);
                assert forall|p: int, q: int|
                    0 <= p < q < out.deep_view().len() implies chars_lt(
                    out.deep_view()[p],
                    out.deep_view()[q],
                ) by {
                    let nv = ov.insert(i as int, x@);
                    if p < i && q == i {
                        assert(nv[p] == ov[p] && nv[q] == x@);
                    } else if p == i && q > i {
                        assert(nv[p] == x@ && nv[q] == ov[q - 1]);
                        if i < q - 1 {
                            assert(chars_lt(ov[i as int], ov[q - 1]));
                            lemma_chars_le_trans(x@, ov[i as int], ov[q - 1]);
                            if x@ == ov[q - 1] {
                                lemma_chars_le_antisym(ov[i as int], ov[q - 1]);
                            }
                        }
                    } else if p < i && q > i {
                        assert(nv[p] == ov[p] && nv[q] == ov[q - 1]);
                        if p == q - 1 {
                            assert(chars_lt(ov[p], x@));
                            lemma_chars_le_trans(ov[p], x@, x@);
                        } else {
                            assert(chars_lt(ov[p], ov[q - 1]));
                        }
                    } else if p > i && q > i {
                        assert(nv[p] == ov[p - 1] && nv[q] == ov[q - 1]);
                    } else if p < i && q < i {
                        assert(nv[p] == ov[p] && nv[q] == ov[q]);
                    }
                }
            }
            return ;
        }
        proof {
            lemma_chars_le_total(x@, ov[i as int]);
            lemma_chars_le_refl(x@);
            assert(chars_lt(ov[i as int], x@));
        }
        i = i + 1;
    }
    out.push(x);
    proof {
        assert(out.deep_view() =~= ov.insert(ov.len() as int, x@));
        lemma_insert_contains(ov, ov.len() as int, x@);
    }
}

/// Returns the distinct elements of `v` in strictly ascending lexicographic order.
pub fn sort_dedup_strings(v: &Vec<String>) -> (r: Vec<String>)
    ensures
        strictly_sorted_chars(r.deep_view()),
        forall|s: Seq<char>| #[trigger] r.deep_view().contains(s) <==> v.deep_view().contains(s),
{
    let mut out: Vec<String> = Vec::new();
    let mut k: usize = 0;
    proof {
        assert(v.deep_view().take(0) =~= Seq::<Seq<char>>::empty());
    }
    while k < v.len()
        invariant
            k <= v.len(),
            strictly_sorted_chars(out.deep_view()),
            forall|s: Seq<char>| #[trigger] out.deep_view().contains(s) <==> v.deep_view().take(
                k as int,
            ).contains(s),
        decreases v.len() - k,
    {
        let x = v[k].clone();
        insert_string(&mut out, x);
        proof {
            lemma_take_succ(v.deep_view(), k as int);
        }
        k = k + 1;
    }
    proof {
        assert(v.deep_view().take(v.len() as int) =~= v.deep_view());
    }
    out
}

/// Inserts `x` into the strictly sorted vector `out`, unless already present.
fn insert_u64(out: &mut Vec<u64>, x: u64)
    requires
        strictly_sorted_u64(old(out)@),
    ensures
        strictly_sorted_u64(final(out)@),
        forall|y: u64| #[trigger] final(out)@.contains(y) <==> (old(out)@.contains(y) || y == x),
{
    let ghost ov = old(out)@;
    let mut i: usize = 0;
    while i < out.len()
        invariant
            *out == *old(out),
            i <= out.len(),
            strictly_sorted_u64(ov),
            ov == out@,
            forall|j: int| 0 <= j < i ==> ov[j] < x,
        decreases out.len() - i,
    {
        if x == out[i] {
            proof {
                assert(ov.contains(x));
            }
            return ;
        }
        if x < out[i] {
            out.insert(i, x);
            proof {
                lemma_insert_contains(ov, i as int, x);
            }
            return ;
        }
        i = i + 1;
    }
    out.push(x);
    proof {
        assert(out@ =~= ov.insert(ov.len() as int, x));
        lemma_insert_contains(ov, ov.len() as int, x);
    }
}

/// Returns the distinct elements of `v` in strictly ascending order.
pub fn sort_dedup_u64(v: &Vec<u64>) -> (r: Vec<u64>)
    ensures
        strictly_sorted_u64(r@),
        forall|y: u64| #[trigger] r@.contains(y) <==> v@.contains(y),
{
    let mut out: Vec<u64> = Vec::new();
    let mut k: usize = 0;
    proof {
        assert(v@.take(0) =~= Seq::<u64>::empty());
    }
    while k < v.len()
        invariant
            k <= v.len(),
            strictly_sorted_u64(out@),
            forall|y: u64| #[trigger] out@.contains(y) <==> v@.take(k as int).contains(y),
        decreases v.len() - k,
    {
        insert_u64(&mut out, v[k]);
        proof {
            lemma_take_succ(v@, k as int);
        }
        k = k + 1;
    }
    proof {
        assert(v@.take(v.len() as int) =~= v@);
    }
    out
}

/// Inserts `x` into the strictly sorted vector `out`, unless already present.
fn insert_u32(out: &mut Vec<u32>, x: u32)
    requires
        strictly_sorted_u32(old(out)@),
    ensures
        strictly_sorted_u32(final(out)@),
        forall|y: u32| #[trigger] final(out)@.contains(y) <==> (old(out)@.contains(y) || y == x),
{
    let ghost ov = old(out)@;
    let mut i: usize = 0;
    while i < out.len()
        invariant
            *out == *old(out),
            i <= out.len(),
            strictly_sorted_u32(ov),
            ov == out@,
            forall|j: int| 0 <= j < i ==> ov[j] < x,
        decreases out.len() - i,
    {
        if x == out[i] {
            proof {
                assert(ov.contains(x));
            }
            return ;
        }
        if x < out[i] {
            out.insert(i, x);
            proof {
                lemma_insert_contains(ov, i as int, x);
            }
            return ;
        }
        i = i + 1;
    }
    out.push(x);
    proof {
        assert(out@ =~= ov.insert(ov.len() as int, x));
        lemma_insert_contains(ov, ov.len() as int, x);
    }
}

/// Returns the distinct elements of `v` in strictly ascending order.
pub fn sort_dedup_u32(v: &Vec<u32>) -> (r: Vec<u32>)
    ensures
        strictly_sorted_u32(r@),
        forall|y: u32| #[trigger] r@.contains(y) <==> v@.contains(y),
{
    let mut out: Vec<u32> = Vec::new();
    let mut k: usize = 0;
    proof {
        assert(v@.take(0) =~= Seq::<u32>::empty());
    }
    while k < v.len()
        invariant
            k <= v.len(),
            strictly_sorted_u32(out@),
            forall|y: u32| #[trigger] out@.contains(y) <==> v@.take(k as int).contains(y),
        decreases v.len() - k,
    {
        insert_u32(&mut out, v[k]);
        proof {
            lemma_take_succ(v@, k as int);
        }
        k = k + 1;
    }
    proof {
        assert(v@.take(v.len() as int) =~= v@);
    }
    out
}

/// Inserts `x` into the strictly sorted vector `out`, unless already present.
fn insert_i32(out: &mut Vec<i32>, x: i32)
    requires
        strictly_sorted_i32(old(out)@),
    ensures
        strictly_sorted_i32(final(out)@),
        forall|y: i32| #[trigger] final(out)@.contains(y) <==> (old(out)@.contains(y) || y == x),
{
    let ghost ov = old(out)@;
    let mut i: usize = 0;
    while i < out.len()
        invariant
            *out == *old(out),
            i <= out.len(),
            strictly_sorted_i32(ov),
            ov == out@,
            forall|j: int| 0 <= j < i ==> ov[j] < x,
        decreases out.len() - i,
    {
        if x == out[i] {
            proof {
                assert(ov.contains(x));
            }
            return ;
        }
        if x < out[i] {
            out.insert(i, x);
            proof {
                lemma_insert_contains(ov, i as int, x);
            }
            return ;
        }
        i = i + 1;
    }
    out.push(x);
    proof {
        assert(out@ =~= ov.insert(ov.len() as int, x));
        lemma_insert_contains(ov, ov.len() as int, x);
    }
}

/// Returns the distinct elements of `v` in strictly ascending order.
pub fn sort_dedup_i32(v: &Vec<i32>) -> (r: Vec<i32>)
    ensures
        strictly_sorted_i32(r@),
        forall|y: i32| #[trigger] r@.contains(y) <==> v@.contains(y),
{
    let mut out: Vec<i32> = Vec::new();
    let mut k: usize = 0;
    proof {
        assert(v@.take(0) =~= Seq::<i32>::empty());
    }
    while k < v.len()
        invariant
            k <= v.len(),
            strictly_sorted_i32(out@),
            forall|y: i32| #[trigger] out@.contains(y) <==> v@.take(k as int).contains(y),
        decreases v.len() - k,
    {
        insert_i32(&mut out, v[k]);
        proof {
            lemma_take_succ(v@, k as int);
        }
        k = k + 1;
    }
    proof {
        assert(v@.take(v.len() as int) =~= v@);
    }
    out
}

} // verus!
