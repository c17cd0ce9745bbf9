//! Recovering segment order from filenames and concatenating segments.
//!
//! Each downloaded segment file carries a numeric key in its name.  Three
//! patterns are recognized, tried in a fixed priority order: a
//! `seg-<digits>-` prefix, a `_<digits>` run immediately before the `.ts`
//! extension, and a bare digit run immediately before the extension.  A
//! filename matching none of them is a fatal error: skipping it silently
//! would corrupt the concatenated output.

use crate::resolve::ts_at;
use vstd::prelude::*;

verus! {

broadcast use vstd::seq_lib::group_to_multiset_ensures;

/// Errors from recovering segment order out of filenames.
#[derive(Debug)]
pub enum ReassemblyError {
    /// No numeric-key pattern matches this filename.
    NoKey(String),
    /// The digits captured from this filename exceed the largest
    /// supported key.
    KeyTooLarge(String),
}

/// `c` is a decimal digit.
pub open spec fn is_digit(c: char) -> bool {
    48 <= c as int <= 57
}

/// End of the maximal digit run starting at `k`: the first index at or
/// after `k` that holds no digit.
pub open spec fn digit_run_end(s: Seq<char>, k: int) -> int
    decreases s.len() - k,
{
    if k < 0 || k >= s.len() || !is_digit(s[k]) {
        k
    } else {
        digit_run_end(s, k + 1)
    }
}

proof fn lemma_digit_run(s: Seq<char>, k: int)
    requires
        0 <= k <= s.len(),
    ensures
        k <= digit_run_end(s, k) <= s.len(),
        forall|j: int| k <= j < digit_run_end(s, k) ==> is_digit(s[j]),
    decreases s.len() - k,
{
    if k < s.len() && is_digit(s[k]) {
        lemma_digit_run(s, k + 1);
    }
}

proof fn lemma_digit_run_at(s: Seq<char>, k: int, e: int)
    requires
        0 <= k <= e <= s.len(),
        forall|j: int| k <= j < e ==> is_digit(s[j]),
        e == s.len() || !is_digit(s[e]),
    ensures
        digit_run_end(s, k) == e,
    decreases e - k,
{
    if k < e {
        lemma_digit_run_at(s, k + 1, e);
    }
}

/// Value of a run of decimal digits.
pub open spec fn digits_val(ds: Seq<char>) -> int
    decreases ds.len(),
{
    if ds.len() == 0 {
        0
    } else {
        digits_val(ds.drop_last()) * 10 + (ds.last() as int - 48)
    }
}

proof fn lemma_digits_val_nonneg(ds: Seq<char>)
    requires
        forall|j: int| 0 <= j < ds.len() ==> is_digit(ds[j]),
    ensures
        digits_val(ds) >= 0,
    decreases ds.len(),
{
    if ds.len() > 0 {
        lemma_digits_val_nonneg(ds.drop_last());
    }
}

/// The value of a digit run only grows as the run is extended.
proof fn lemma_digits_val_prefix(ds: Seq<char>, k: int)
    requires
        0 <= k <= ds.len(),
        forall|j: int| 0 <= j < ds.len() ==> is_digit(ds[j]),
    ensures
        digits_val(ds.take(k)) <= digits_val(ds),
    decreases ds.len() - k,
{
    if k < ds.len() {
        let t = ds.take(k + 1);
        assert(t.drop_last() =~= ds.take(k));
        assert(forall|j: int| 0 <= j < ds.take(k).len() ==> is_digit(ds.take(k)[j]));
        lemma_digits_val_nonneg(ds.take(k));
        assert(digits_val(t) == digits_val(ds.take(k)) * 10 + (t.last() as int - 48));
        lemma_digits_val_prefix(ds, k + 1);
    } else {
        assert(ds.take(k) =~= ds);
    }
}

/// The pattern `seg-<digits>-` starts at index `i` of `s`.
pub open spec fn seg_match_at(s: Seq<char>, i: int) -> bool {
    &&& 0 <= i
    &&& i + 4 <= s.len()
    &&& s[i] == 's'
    &&& s[i + 1] == 'e'
    &&& s[i + 2] == 'g'
    &&& s[i + 3] == '-'
    &&& digit_run_end(s, i + 4) > i + 4
    &&& digit_run_end(s, i + 4) < s.len()
    &&& s[digit_run_end(s, i + 4)] == '-'
}

/// The pattern `_<digits>.ts` starts at index `i` of `s`.
pub open spec fn us_match_at(s: Seq<char>, i: int) -> bool {
    &&& 0 <= i < s.len()
    &&& s[i] == '_'
    &&& digit_run_end(s, i + 1) > i + 1
    &&& ts_at(s, digit_run_end(s, i + 1))
}

/// The pattern `<digits>.ts` starts at index `i` of `s`.
pub open spec fn num_match_at(s: Seq<char>, i: int) -> bool {
    &&& 0 <= i < s.len()
    &&& is_digit(s[i])
    &&& ts_at(s, digit_run_end(s, i))
}

/// First index at or after `k` where `seg-<digits>-` matches, or `s.len()`.
pub open spec fn first_seg_from(s: Seq<char>, k: int) -> int
    decreases s.len() - k,
{
    if k < 0 || k >= s.len() {
        s.len() as int
    } else if seg_match_at(s, k) {
        k
    } else {
        first_seg_from(s, k + 1)
    }
}

/// First index at or after `k` where `_<digits>.ts` matches, or `s.len()`.
pub open spec fn first_us_from(s: Seq<char>, k: int) -> int
    decreases s.len() - k,
{
    if k < 0 || k >= s.len() {
        s.len() as int
    } else if us_match_at(s, k) {
        k
    } else {
        first_us_from(s, k + 1)
    }
}

/// First index at or after `k` where `<digits>.ts` matches, or `s.len()`.
pub open spec fn first_num_from(s: Seq<char>, k: int) -> int
    decreases s.len() - k,
{
    if k < 0 || k >= s.len() {
        s.len() as int
    } else if num_match_at(s, k) {
        k
    } else {
        first_num_from(s, k + 1)
    }
}

/// The digits that give a filename its ordering key: those of the first
/// `seg-<digits>-` match, else of the first `_<digits>.ts` match, else of
/// the first `<digits>.ts` match, in that priority order; nothing when no
/// pattern matches.
pub open spec fn key_digits(s: Seq<char>) -> Option<Seq<char>> {
    if first_seg_from(s, 0) < s.len() {
        Some(s.subrange(first_seg_from(s, 0) + 4, digit_run_end(s, first_seg_from(s, 0) + 4)))
    } else if first_us_from(s, 0) < s.len() {
        Some(s.subrange(first_us_from(s, 0) + 1, digit_run_end(s, first_us_from(s, 0) + 1)))
    } else if first_num_from(s, 0) < s.len() {
        Some(s.subrange(first_num_from(s, 0), digit_run_end(s, first_num_from(s, 0))))
    } else {
        None
    }
}

/// A filename's numeric ordering key, as an unbounded integer.
pub open spec fn key_val(s: Seq<char>) -> int {
    digits_val(key_digits(s)->Some_0)
}

/// The filename yields a key the library can hold.
pub open spec fn keyed(s: Seq<char>) -> bool {
    key_digits(s) is Some && key_val(s) <= u32::MAX
}

/// A digit stands at index `i` of `name`.
fn digit_at(name: &str, i: usize) -> (b: bool)
    requires
        i < name@.len(),
    ensures
        b == is_digit(name@[i as int]),
{
    let c: char = name.get_char(i);
    let cu: u32 = c as u32;
    48 <= cu && cu <= 57
}

/// End of the maximal digit run starting at `k`.
fn run_end(name: &str, k: usize) -> (e: usize)
    requires
        k <= name@.len(),
    ensures
        e as int == digit_run_end(name@, k as int),
        k <= e <= name@.len(),
{
    let n: usize = name.unicode_len();
    let mut e: usize = k;
    while e < n && digit_at(name, e)
        invariant
            k <= e <= n,
            n == name@.len(),
            digit_run_end(name@, k as int) == digit_run_end(name@, e as int),
        decreases n - e,
    {
        e = e + 1;
    }
    e
}

/// `.ts` stands at index `i` of `name`.
fn ts_check(name: &str, i: usize) -> (b: bool)
    requires
        i <= name@.len(),
    ensures
        b == ts_at(name@, i as int),
{
    let n: usize = name.unicode_len();
    if n - i < 3 {
        return false;
    }
    name.get_char(i) == '.' && name.get_char(i + 1) == 't' && name.get_char(i + 2) == 's'
}

/// `seg-<digits>-` matches at index `i` of `name`.
fn seg_check(name: &str, i: usize) -> (b: bool)
    requires
        i < name@.len(),
    ensures
        b == seg_match_at(name@, i as int),
{
    let n: usize = name.unicode_len();
    if n - i < 4 {
        return false;
    }
    if !(name.get_char(i) == 's' && name.get_char(i + 1) == 'e' && name.get_char(i + 2) == 'g'
        && name.get_char(i + 3) == '-') {
        return false;
    }
    let e: usize = run_end(name, i + 4);
    e > i + 4 && e < n && name.get_char(e) == '-'
}

/// `_<digits>.ts` matches at index `i` of `name`.
fn us_check(name: &str, i: usize) -> (b: bool)
    requires
        i < name@.len(),
    ensures
        b == us_match_at(name@, i as int),
{
    let n: usize = name.unicode_len();
    if name.get_char(i) != '_' {
        return false;
    }
    assert(i < n);
    let e: usize = run_end(name, i + 1);
    e > i + 1 && ts_check(name, e)
}

/// `<digits>.ts` matches at index `i` of `name`.
fn num_check(name: &str, i: usize) -> (b: bool)
    requires
        i < name@.len(),
    ensures
        b == num_match_at(name@, i as int),
{
    if !digit_at(name, i) {
        return false;
    }
    let e: usize = run_end(name, i);
    ts_check(name, e)
}

/// Parse the digits of `name` in `[lo, hi)` as an unsigned key.
/// Fails exactly when their value exceeds the largest supported key.
fn parse_digits(name: &str, lo: usize, hi: usize) -> (r: Option<u32>)
    requires
        lo <= hi <= name@.len(),
        forall|j: int| lo <= j < hi ==> is_digit(name@[j]),
    ensures
        match r {
            Some(k) => k as int == digits_val(name@.subrange(lo as int, hi as int)),
            None => digits_val(name@.subrange(lo as int, hi as int)) > u32::MAX,
        },
{
    let ghost ds = name@.subrange(lo as int, hi as int);
    let mut acc: u64 = 0;
    let mut p: usize = lo;
    while p < hi
        invariant
            lo <= p <= hi <= name@.len(),
            forall|j: int| lo <= j < hi ==> is_digit(name@[j]),
            ds == name@.subrange(lo as int, hi as int),
            acc <= u32::MAX,
            acc as int == digits_val(ds.take(p - lo)),
        decreases hi - p,
    {
        let c: char = name.get_char(p);
        let d: u32 = (c as u32) - 48;
        assert(d <= 9);
        let next: u64 = acc * 10 + (d as u64);
        proof {
            let t = ds.take(p - lo + 1);
            assert(t.drop_last() =~= ds.take(p - lo));
            assert(t.last() == name@[p as int]);
        }
        if next > 0xffff_ffff {
            proof {
                lemma_digits_val_prefix(ds, p - lo + 1);
            }
            return None;
        }
        acc = next;
        p = p + 1;
    }
    proof {
        assert(ds.take(hi - lo) =~= ds);
    }
    Some(acc as u32)
}

/// Extract the numeric ordering key of one segment filename.
///
/// The first `seg-<digits>-` match wins; failing that, the first
/// `_<digits>.ts` match; failing that, the first `<digits>.ts` match.
/// `NoKey` exactly when no pattern matches; `KeyTooLarge` exactly when
/// the captured digits exceed the largest supported key.
pub fn extract_key(name: &str) -> (r: Result<u32, ReassemblyError>)
    ensures
        match r {
            Ok(k) => keyed(name@) && k as int == key_val(name@),
            Err(ReassemblyError::NoKey(m)) => m@ == name@ && key_digits(name@) is None,
            Err(ReassemblyError::KeyTooLarge(m)) => m@ == name@ && key_digits(name@) is Some
                && key_val(name@) > u32::MAX,
        },
{
    let n: usize = name.unicode_len();
    let ghost s = name@;

    // seg-<digits>- anywhere, first occurrence.
    let mut i: usize = 0;
    while i < n && !seg_check(name, i)
        invariant
            0 <= i <= n,
            n == s.len(),
            name@ == s,
            first_seg_from(s, 0) == first_seg_from(s, i as int),
        decreases n - i,
    {
        i = i + 1;
    }
    let span: Option<(usize, usize)> = if i < n {
        Some((i + 4, run_end(name, i + 4)))
    } else {
        // _<digits>.ts, first occurrence.
        let mut u: usize = 0;
        while u < n && !us_check(name, u)
            invariant
                0 <= u <= n,
                n == s.len(),
                name@ == s,
                first_us_from(s, 0) == first_us_from(s, u as int),
            decreases n - u,
        {
            u = u + 1;
        }
        if u < n {
            Some((u + 1, run_end(name, u + 1)))
        } else {
            // <digits>.ts, first occurrence.
            let mut v: usize = 0;
            while v < n && !num_check(name, v)
                invariant
                    0 <= v <= n,
                    n == s.len(),
                    name@ == s,
                    first_num_from(s, 0) == first_num_from(s, v as int),
                decreases n - v,
            {
                v = v + 1;
            }
            if v < n {
                Some((v, run_end(name, v)))
            } else {
                None
            }
        }
    };

    match span {
        Some((lo, hi)) => {
            proof {
                lemma_digit_run(s, lo as int);
                assert(key_digits(s) == Some(s.subrange(lo as int, hi as int)));
            }
            match parse_digits(name, lo, hi) {
                Some(k) => Ok(k),
                None => Err(ReassemblyError::KeyTooLarge(name.to_owned())),
            }
        },
        None => {
            assert(key_digits(s) is None);
            Err(ReassemblyError::NoKey(name.to_owned()))
        },
    }
}

/// The names stand in ascending order of their keys.
pub open spec fn sorted_by_key(names: Seq<Seq<char>>) -> bool {
    forall|a: int, b: int|
        0 <= a < b < names.len() ==> key_val(#[trigger] names[a]) <= key_val(#[trigger] names[b])
}

/// Index of the first name that yields no usable key, or `names.len()`.
pub open spec fn first_unkeyed(names: Seq<Seq<char>>) -> int
    decreases names.len(),
{
    if names.len() == 0 {
        0
    } else if !keyed(names[0]) {
        0
    } else {
        1 + first_unkeyed(names.drop_first())
    }
}

proof fn lemma_first_unkeyed_at(names: Seq<Seq<char>>, i: int)
    requires
        0 <= i <= names.len(),
        forall|j: int| 0 <= j < i ==> keyed(#[trigger] names[j]),
        i == names.len() || !keyed(names[i]),
    ensures
        first_unkeyed(names) == i,
    decreases i,
{
    if i > 0 {
        assert(keyed(names[0]));
        let d = names.drop_first();
        assert(forall|j: int| 0 <= j < i - 1 ==> #[trigger] d[j] == names[j + 1]);
        if i - 1 < d.len() {
            assert(d[i - 1] == names[i]);
        }
        lemma_first_unkeyed_at(d, i - 1);
    }
}

/// A collected pair holds a name together with its own key.
spec fn pair_ok(p: (u32, String)) -> bool {
    keyed(p.1@) && p.0 as int == key_val(p.1@)
}

/// Order segment filenames ascending by their numeric keys.
///
/// Succeeds if and only if every name yields a usable key; the output
/// then holds exactly the input names, sorted by key.  Otherwise the
/// error carries the first offending name, in input order.
pub fn order_segments(names: &Vec<String>) -> (r: Result<Vec<String>, ReassemblyError>)
    ensures
        match r {
            Ok(out) => {
                &&& first_unkeyed(names.deep_view()) == names@.len()
                &&& forall|j: int|
                    0 <= j < names@.len() ==> keyed(#[trigger] names.deep_view()[j])
                &&& out.deep_view().to_multiset() == names.deep_view().to_multiset()
                &&& sorted_by_key(out.deep_view())
            },
            Err(e) => {
                let i = first_unkeyed(names.deep_view());
                &&& 0 <= i < names@.len()
                &&& match e {
                    ReassemblyError::NoKey(m) => m@ == names.deep_view()[i] && key_digits(m@)
                        is None,
                    ReassemblyError::KeyTooLarge(m) => m@ == names.deep_view()[i] && key_digits(
                        m@,
                    ) is Some && key_val(m@) > u32::MAX,
                }
            },
        },
{
    let ghost dv = names.deep_view();
    proof {
        assert(dv.len() == names@.len());
        assert(forall|j: int| 0 <= j < dv.len() ==> dv[j] == names@[j]@);
    }

    // Pair every name with its key, stopping at the first failure.
    let mut pairs: Vec<(u32, String)> = Vec::new();
    let mut idx: usize = 0;
    while idx < names.len()
        invariant
            0 <= idx <= names@.len(),
            dv == names.deep_view(),
            dv.len() == names@.len(),
            forall|j: int| 0 <= j < dv.len() ==> dv[j] == names@[j]@,
            pairs@.len() == idx,
            forall|j: int| 0 <= j < idx ==> keyed(#[trigger] dv[j]),
            forall|j: int|
                0 <= j < idx ==> (#[trigger] pairs@[j]).1@ == dv[j] && pair_ok(pairs@[j]),
        decreases names@.len() - idx,
    {
        let nm: &String = &names[idx];
        match extract_key(nm.as_str()) {
            Ok(k) => {
                pairs.push((k, nm.clone()));
            },
            Err(e) => {
                proof {
                    lemma_first_unkeyed_at(dv, idx as int);
                }
                return Err(e);
            },
        }
        idx = idx + 1;
    }
    proof {
        lemma_first_unkeyed_at(dv, dv.len() as int);
    }

    // Insertion sort ascending by key.
    let ghost pv = |p: (u32, String)| p.1@;
    let mut sorted: Vec<(u32, String)> = Vec::new();
    proof {
        assert(sorted@.map_values(pv) =~= Seq::<Seq<char>>::empty());
        assert(dv.take(0) =~= Seq::<Seq<char>>::empty());
        assert(Seq::<Seq<char>>::empty().to_multiset() =~= Seq::<Seq<char>>::empty().to_multiset());
    }
    let mut i: usize = 0;
    while i < pairs.len()
        invariant
            0 <= i <= pairs@.len(),
            pairs@.len() == dv.len(),
            pv == (|p: (u32, String)| p.1@),
            forall|j: int|
                0 <= j < pairs@.len() ==> (#[trigger] pairs@[j]).1@ == dv[j] && pair_ok(pairs@[j]),
            forall|j: int| 0 <= j < sorted@.len() ==> pair_ok(#[trigger] sorted@[j]),
            sorted@.map_values(pv).to_multiset() == dv.take(i as int).to_multiset(),
            forall|a: int, b: int|
                0 <= a < b < sorted@.len() ==> (#[trigger] sorted@[a]).0 <= (
                #[trigger] sorted@[b]).0,
        decreases pairs@.len() - i,
    {
        let key: u32 = pairs[i].0;
        let p: (u32, String) = (key, pairs[i].1.clone());
        let mut k: usize = 0;
        while k < sorted.len() && sorted[k].0 <= key
            invariant
                0 <= k <= sorted@.len(),
                forall|j: int| 0 <= j < k ==> (#[trigger] sorted@[j]).0 <= key,
            decreases sorted@.len() - k,
        {
            k = k + 1;
        }
        let ghost pre = sorted@;
        sorted.insert(k, p);
        proof {
            assert(sorted@ == pre.insert(k as int, p));
            pre.insert_ensures(k as int, p);
            assert(sorted@.map_values(pv) =~= pre.map_values(pv).insert(k as int, p.1@));
            assert(dv.take(i + 1) =~= dv.take(i as int).push(dv[i as int]));
            assert(p.1@ == dv[i as int]);
            assert(sorted@.map_values(pv).to_multiset() == dv.take(i + 1).to_multiset());
            assert forall|a: int, b: int| 0 <= a < b < sorted@.len() implies (
            #[trigger] sorted@[a]).0 <= (#[trigger] sorted@[b]).0 by {
                if b < k {
                    assert(sorted@[a] == pre[a] && sorted@[b] == pre[b]);
                } else if a > k {
                    assert(sorted@[a] == pre[a - 1] && sorted@[b] == pre[b - 1]);
                } else if a < k && b == k {
                    assert(sorted@[a] == pre[a]);
                } else if a == k && b > k {
                    assert(sorted@[b] == pre[b - 1]);
                    assert(pre[b - 1].0 > key);
                } else if a < k && b > k {
                    assert(sorted@[a] == pre[a] && sorted@[b] == pre[b - 1]);
                    assert(pre[b - 1].0 > key);
                }
            }
        }
        i = i + 1;
    }

    // Keep the names only, now in key order.
    proof {
        assert(dv.take(pairs@.len() as int) =~= dv);
    }
    let mut out: Vec<String> = Vec::new();
    let mut t: usize = 0;
    while t < sorted.len()
        invariant
            0 <= t <= sorted@.len(),
            out@.len() == t,
            pv == (|p: (u32, String)| p.1@),
            forall|j: int| 0 <= j < sorted@.len() ==> pair_ok(#[trigger] sorted@[j]),
            forall|a: int, b: int|
                0 <= a < b < sorted@.len() ==> (#[trigger] sorted@[a]).0 <= (
                #[trigger] sorted@[b]).0,
            sorted@.map_values(pv).to_multiset() == dv.to_multiset(),
            forall|j: int| 0 <= j < t ==> (#[trigger] out@[j])@ == sorted@[j].1@,
        decreases sorted@.len() - t,
    {
        let nm: String = sorted[t].1.clone();
        out.push(nm);
        t = t + 1;
    }
    proof {
        assert(out.deep_view() =~= sorted@.map_values(pv));
        assert forall|a: int, b: int| 0 <= a < b < out.deep_view().len() implies key_val(
            #[trigger] out.deep_view()[a],
        ) <= key_val(#[trigger] out.deep_view()[b]) by {
            assert(pair_ok(sorted@[a]) && pair_ok(sorted@[b]));
            assert(sorted@[a].0 <= sorted@[b].0);
        }
    }
    Ok(out)
}

/// The bytes of all parts, concatenated in order.
pub fn concat_all(parts: &Vec<Vec<u8>>) -> (r: Vec<u8>)
    ensures
        r@ == parts.deep_view().flatten(),
{
    let ghost dvp = parts.deep_view();
    let mut out: Vec<u8> = Vec::new();
    proof {
        assert(dvp.take(0) =~= Seq::<Seq<u8>>::empty());
        assert(out@ =~= dvp.take(0).flatten());
    }
    let mut i: usize = 0;
    while i < parts.len()
        invariant
            0 <= i <= parts@.len(),
            dvp == parts.deep_view(),
            dvp.len() == parts@.len(),
            out@ == dvp.take(i as int).flatten(),
        decreases parts@.len() - i,
    {
        let part: &Vec<u8> = &parts[i];
        let mut j: usize = 0;
        while j < part.len()
            invariant
                0 <= j <= part@.len(),
                part@ == parts@[i as int]@,
                0 <= i < parts@.len(),
                dvp == parts.deep_view(),
                dvp.len() == parts@.len(),
                out@ == dvp.take(i as int).flatten() + part@.take(j as int),
            decreases part@.len() - j,
        {
            out.push(part[j]);
            proof {
                assert(out@ =~= dvp.take(i as int).flatten() + part@.take(j + 1));
            }
            j = j + 1;
        }
        proof {
            assert(part@.take(part@.len() as int) =~= part@);
            assert(dvp.take(i + 1) =~= dvp.take(i as int).push(dvp[i as int]));
            dvp.take(i as int).lemma_flatten_push(dvp[i as int]);
            assert(dvp[i as int] == part@);
            assert(out@ == dvp.take(i + 1).flatten());
        }
        i = i + 1;
    }
    proof {
        assert(dvp.take(dvp.len() as int) =~= dvp);
    }
    out
}

/// Law: any filename of the shape `seg-<digits>-…` yields exactly those
/// digits as its ordering key, whatever follows them.
pub proof fn lemma_seg_prefix_key(ds: Seq<char>, rest: Seq<char>)
    requires
        ds.len() > 0,
        forall|j: int| 0 <= j < ds.len() ==> is_digit(#[trigger] ds[j]),
    ensures
        key_digits(seq!['s', 'e', 'g', '-'] + ds + seq!['-'] + rest) == Some(ds),
        key_val(seq!['s', 'e', 'g', '-'] + ds + seq!['-'] + rest) == digits_val(ds),
{
    let s = seq!['s', 'e', 'g', '-'] + ds + seq!['-'] + rest;
    let e = 4 + ds.len() as int;
    assert(forall|j: int| 4 <= j < e ==> s[j] == ds[j - 4]);
    assert(s[e] == '-');
    assert(!is_digit('-'));
    lemma_digit_run_at(s, 4, e);
    assert(s[0] == 's' && s[1] == 'e' && s[2] == 'g' && s[3] == '-');
    assert(seg_match_at(s, 0));
    assert(first_seg_from(s, 0) == 0);
    assert(s.subrange(4, e) =~= ds);
}

/// Law: reassembly order is canonical.  Two orderings of the same
/// segment files, each sorted by key, are the same ordering whenever no
/// two distinct names share a key — directory listing order cannot
/// influence the concatenated output.
pub proof fn lemma_order_canonical(r1: Seq<Seq<char>>, r2: Seq<Seq<char>>)
    requires
        r1.to_multiset() == r2.to_multiset(),
        sorted_by_key(r1),
        sorted_by_key(r2),
        forall|x: Seq<char>, y: Seq<char>|
            r1.contains(x) && r1.contains(y) && key_val(x) == key_val(y) ==> x == y,
    ensures
        r1 == r2,
    decreases r1.len(),
{
    if r1.len() == 0 {
        assert(r2.len() == r1.to_multiset().len());
        assert(r1 =~= r2);
    } else {
        assert(r2.len() == r2.to_multiset().len());
        assert(r1.len() == r2.len());
        assert(r1.to_multiset().contains(r1[0]));
        assert(r2.to_multiset().contains(r2[0]));
        assert(r1.contains(r2[0]));
        assert(r2.contains(r1[0]));
        let a = choose|a: int| 0 <= a < r1.len() && r1[a] == r2[0];
        let b = choose|b: int| 0 <= b < r2.len() && r2[b] == r1[0];
        assert(key_val(r1[0]) <= key_val(r1[a]));
        assert(key_val(r2[0]) <= key_val(r2[b]));
        assert(key_val(r1[0]) == key_val(r2[0]));
        assert(r1.contains(r2[0]) && r1.contains(r1[0]));
        assert(r1[0] == r2[0]);
        let d1 = r1.drop_first();
        let d2 = r2.drop_first();
        assert(d1.to_multiset() =~= r1.to_multiset().remove(r1[0])) by {
            assert(r1.remove(0) =~= d1);
        }
        assert(d2.to_multiset() =~= r2.to_multiset().remove(r2[0])) by {
            assert(r2.remove(0) =~= d2);
        }
        assert(forall|j: int| 0 <= j < d1.len() ==> #[trigger] d1[j] == r1[j + 1]);
        assert(forall|j: int| 0 <= j < d2.len() ==> #[trigger] d2[j] == r2[j + 1]);
        assert forall|x: Seq<char>, y: Seq<char>|
            d1.contains(x) && d1.contains(y) && key_val(x) == key_val(y) implies x == y by {
            let xi = choose|xi: int| 0 <= xi < d1.len() && d1[xi] == x;
            let yi = choose|yi: int| 0 <= yi < d1.len() && d1[yi] == y;
            assert(r1[xi + 1] == x && r1[yi + 1] == y);
            assert(r1.contains(x) && r1.contains(y));
        }
        assert forall|a: int, b: int| 0 <= a < b < d1.len() implies key_val(#[trigger] d1[a])
            <= key_val(#[trigger] d1[b]) by {
            assert(d1[a] == r1[a + 1] && d1[b] == r1[b + 1]);
        }
        assert forall|a: int, b: int| 0 <= a < b < d2.len() implies key_val(#[trigger] d2[a])
            <= key_val(#[trigger] d2[b]) by {
            assert(d2[a] == r2[a + 1] && d2[b] == r2[b + 1]);
        }
        lemma_order_canonical(d1, d2);
        assert forall|j: int| 0 <= j < r1.len() implies r1[j] == r2[j] by {
            if j > 0 {
                assert(d1[j - 1] == r1[j]);
                assert(d2[j - 1] == r2[j]);
            }
        }
        assert(r1 =~= r2);
    }
}

} // verus!
