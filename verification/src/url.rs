//! The path part of a link into a site, and facts about finding things in
//! strings that the link laws rest on.
use vstd::prelude::*;
use crate::text::{
    back_class_from, chars_of, find_class_exec, find_class_from, find_from, in_class, matches_at,
    opt_int, rfind, rfind_before, rfind_exec, skip_class_from, slice_range, split_from,
    trim_class, CharClass, trim_end_pat, ends_with, before_first, lemma_find_class_from_bounds,
};

verus! {

/// `s` up to its first `?` or `#`: a URL without query and fragment
/// (`split(['?', '#']).next()`).
pub open spec fn strip_query(s: Seq<char>) -> Seq<char> {
    match find_class_from(s, CharClass::QueryStart, 0) {
        Some(i) => s.take(i),
        None => s,
    }
}

/// What follows the last occurrence of `pat` in `s`, or all of `s` when `pat`
/// does not occur (`rsplit(pat).next()`).
pub open spec fn after_last(s: Seq<char>, pat: Seq<char>) -> Seq<char> {
    match rfind(s, pat) {
        Some(i) => s.skip(i + pat.len()),
        None => s,
    }
}

/// The path of `url` on the site named `host`: what follows the host's last
/// occurrence, before any query or fragment.
pub open spec fn site_path(url: Seq<char>, host: Seq<char>) -> Seq<char> {
    after_last(strip_query(url), host)
}

/// Where `rfind_before` finds `pat`, it occurs there, below `k`.
pub proof fn lemma_rfind_before_bounds(s: Seq<char>, pat: Seq<char>, k: int)
    ensures
        rfind_before(s, pat, k) matches Some(i) ==> i < k && matches_at(s, pat, i),
    decreases k,
{
    if k > 0 && !matches_at(s, pat, k - 1) {
        lemma_rfind_before_bounds(s, pat, k - 1);
    }
}

/// The path of `url` on the site named `host`.
pub fn site_path_of(url: &str, host: &str) -> (r: Vec<char>)
    ensures
        r@ == site_path(url@, host@),
{
    let cs = chars_of(url);
    let end = match find_class_exec(cs.as_slice(), CharClass::QueryStart, 0) {
        Some(i) => i,
        None => cs.len(),
    };
    proof {
        lemma_find_class_from_bounds(url@, CharClass::QueryStart, 0);
    }
    let before = slice_range(cs.as_slice(), 0, end);
    assert(before@ == strip_query(url@));
    let h = chars_of(host);
    let found = rfind_exec(before.as_slice(), h.as_slice());
    proof {
        lemma_rfind_before_bounds(before@, h@, before@.len() - h@.len() + 1);
    }
    match found {
        Some(i) => slice_range(before.as_slice(), i + h.len(), before.len()),
        None => before,
    }
}

// ---------------------------------------------------------------------------
// Facts for reasoning about concrete links
// ---------------------------------------------------------------------------

/// Where no character from `i` on is in `cls`, none is found.
pub proof fn lemma_find_class_none(s: Seq<char>, cls: CharClass, i: int)
    requires
        i >= 0,
        forall|j: int| i <= j < s.len() ==> !#[trigger] in_class(s[j], cls),
    ensures
        find_class_from(s, cls, i) is None,
    decreases s.len() - i,
{
    if i < s.len() {
        lemma_find_class_none(s, cls, i + 1);
    }
}

/// The first character of `cls` at or after `i` is at `j`.
pub proof fn lemma_find_class_at(s: Seq<char>, cls: CharClass, i: int, j: int)
    requires
        0 <= i <= j < s.len(),
        in_class(s[j], cls),
        forall|k: int| i <= k < j ==> !#[trigger] in_class(s[k], cls),
    ensures
        find_class_from(s, cls, i) == Some(j),
    decreases j - i,
{
    if i < j {
        lemma_find_class_at(s, cls, i + 1, j);
    }
}

/// A URL without `?` and `#` is its own path part.
pub proof fn lemma_strip_query_plain(s: Seq<char>)
    requires
        forall|j: int| 0 <= j < s.len() ==> !#[trigger] in_class(s[j], CharClass::QueryStart),
    ensures
        strip_query(s) == s,
{
    lemma_find_class_none(s, CharClass::QueryStart, 0);
}

/// What follows a `?` or `#` does not matter.
pub proof fn lemma_strip_query_suffix(s: Seq<char>, c: char, rest: Seq<char>)
    requires
        forall|j: int| 0 <= j < s.len() ==> !#[trigger] in_class(s[j], CharClass::QueryStart),
        c == '?' || c == '#',
    ensures
        strip_query(s.push(c) + rest) == s,
{
    let t = s.push(c) + rest;
    assert forall|k: int| 0 <= k < s.len() implies !#[trigger] in_class(t[k], CharClass::QueryStart) by {
        assert(t[k] == s[k]);
    }
    lemma_find_class_at(t, CharClass::QueryStart, 0, s.len() as int);
    assert(t.take(s.len() as int) =~= s);
}

/// Where `pat` occurs nowhere in `[lo, k)`, searching below `k` backwards is
/// searching below `lo`.
pub proof fn lemma_rfind_before_skip(s: Seq<char>, pat: Seq<char>, lo: int, k: int)
    requires
        lo <= k,
        forall|i: int| lo <= i < k ==> !#[trigger] matches_at(s, pat, i),
    ensures
        rfind_before(s, pat, k) == rfind_before(s, pat, lo),
    decreases k - lo,
{
    if lo < k {
        lemma_rfind_before_skip(s, pat, lo, k - 1);
    }
}

/// The last occurrence of `pat` in `s` is at `p`.
pub proof fn lemma_rfind_at(s: Seq<char>, pat: Seq<char>, p: int)
    requires
        matches_at(s, pat, p),
        forall|i: int| p < i ==> !#[trigger] matches_at(s, pat, i),
    ensures
        rfind(s, pat) == Some(p),
{
    let k = s.len() - pat.len() + 1;
    lemma_rfind_before_skip(s, pat, p + 1, k);
}

/// `pat` occurs at `i` only where `s[i]` is `pat[0]`.
pub proof fn lemma_matches_first_char(s: Seq<char>, pat: Seq<char>, i: int)
    requires
        pat.len() > 0,
        matches_at(s, pat, i),
    ensures
        s[i] == pat[0],
{
    assert(s.subrange(i, i + pat.len())[0] == s[i]);
}

/// Where `pat` occurs nowhere from `i` on, it is not found.
pub proof fn lemma_find_from_none(s: Seq<char>, pat: Seq<char>, i: int)
    requires
        i >= 0,
        forall|k: int| i <= k ==> !#[trigger] matches_at(s, pat, k),
    ensures
        find_from(s, pat, i) is None,
    decreases s.len() - i,
{
    if i + pat.len() <= s.len() && i < s.len() {
        lemma_find_from_none(s, pat, i + 1);
    }
}

/// The first occurrence of `pat` at or after `i` is at `j`.
pub proof fn lemma_find_from_at(s: Seq<char>, pat: Seq<char>, i: int, j: int)
    requires
        0 <= i <= j,
        matches_at(s, pat, j),
        forall|k: int| i <= k < j ==> !#[trigger] matches_at(s, pat, k),
    ensures
        find_from(s, pat, i) == Some(j),
    decreases j - i,
{
    if i < j {
        lemma_find_from_at(s, pat, i + 1, j);
    }
}

/// Where `pat` occurs at `i`, `s` holds `pat` from `i` on.
pub proof fn lemma_matches_char(s: Seq<char>, pat: Seq<char>, i: int, k: int)
    requires
        matches_at(s, pat, i),
        0 <= k < pat.len(),
    ensures
        s[i + k] == pat[k],
{
    assert(s.subrange(i, i + pat.len())[k] == s[i + k]);
}

/// A one-character pattern occurs exactly where the character is.
pub proof fn lemma_matches_single(s: Seq<char>, c: char, i: int)
    ensures
        matches_at(s, seq![c], i) <==> (0 <= i < s.len() && s[i] == c),
{
    if 0 <= i < s.len() && s[i] == c {
        assert(s.subrange(i, i + 1) =~= seq![c]);
    }
    if matches_at(s, seq![c], i) {
        lemma_matches_char(s, seq![c], i, 0);
    }
}

/// Cutting at `/`: where the first `/` at or after `i` is at `k`, the first
/// piece is `s[i..k]` and the rest is cut from `k + 1`.
pub proof fn lemma_split_slash_at(s: Seq<char>, i: int, k: int)
    requires
        0 <= i <= k < s.len(),
        s[k] == '/',
        forall|j: int| i <= j < k ==> #[trigger] s[j] != '/',
    ensures
        split_from(s, seq!['/'], i) == seq![s.subrange(i, k)] + split_from(s, seq!['/'], k + 1),
{
    assert forall|j: int| i <= j < k implies !#[trigger] matches_at(s, seq!['/'], j) by {
        lemma_matches_single(s, '/', j);
    }
    lemma_matches_single(s, '/', k);
    lemma_find_from_at(s, seq!['/'], i, k);
}

/// Cutting at `/` a tail without `/` leaves it whole.
pub proof fn lemma_split_slash_last(s: Seq<char>, i: int)
    requires
        0 <= i <= s.len(),
        forall|j: int| i <= j < s.len() ==> #[trigger] s[j] != '/',
    ensures
        split_from(s, seq!['/'], i) == seq![s.subrange(i, s.len() as int)],
{
    assert forall|j: int| i <= j implies !#[trigger] matches_at(s, seq!['/'], j) by {
        lemma_matches_single(s, '/', j);
    }
    lemma_find_from_none(s, seq!['/'], i);
}

/// `s` trimmed of `/` at both ends, where it begins with one `/` and ends
/// with something else.
pub proof fn lemma_trim_one_leading_slash(s: Seq<char>)
    requires
        s.len() >= 2,
        s[0] == '/',
        s[1] != '/',
        s[s.len() - 1] != '/',
    ensures
        trim_class(s, CharClass::Slash) == s.skip(1),
{
    assert(skip_class_from(s, CharClass::Slash, 1) == 1);
    assert(skip_class_from(s, CharClass::Slash, 0) == 1);
    let t = s.skip(1);
    assert(t[t.len() - 1] == s[s.len() - 1]);
    assert(back_class_from(t, CharClass::Slash, t.len() as int) == t.len());
    assert(t.take(t.len() as int) == t);
}

/// The path of a URL is unchanged by a query or a fragment after it.
pub proof fn lemma_site_path_ignores_query(url: Seq<char>, c: char, rest: Seq<char>, host: Seq<char>)
    requires
        forall|j: int| 0 <= j < url.len() ==> !#[trigger] in_class(url[j], CharClass::QueryStart),
        c == '?' || c == '#',
    ensures
        site_path(url.push(c) + rest, host) == site_path(url, host),
{
    lemma_strip_query_suffix(url, c, rest);
    lemma_strip_query_plain(url);
}

/// Trimming repeated copies of `pat` from `x + pat`, where `x` does not end
/// with the last character of `pat`, gives `x`.
pub proof fn lemma_trim_end_pat_once(x: Seq<char>, pat: Seq<char>)
    requires
        pat.len() > 0,
        x.len() > 0,
        x[x.len() - 1] != pat[pat.len() - 1],
    ensures
        trim_end_pat(x + pat, pat) == x,
        trim_end_pat(x, pat) == x,
{
    let s = x + pat;
    assert(s.skip(s.len() - pat.len()) =~= pat);
    assert(s.take(s.len() - pat.len()) =~= x);
    if ends_with(x, pat) {
        assert(x.skip(x.len() - pat.len())[pat.len() - 1] == x[x.len() - 1]);
    }
    assert(trim_end_pat(x, pat) == x);
    assert(ends_with(s, pat));
    assert(trim_end_pat(s, pat) == trim_end_pat(s.take(s.len() - pat.len()), pat));
}

/// `x` has no character `c`, so nothing comes before a `c` in it.
pub proof fn lemma_before_first_none(x: Seq<char>, c: char)
    requires
        forall|j: int| 0 <= j < x.len() ==> #[trigger] x[j] != c,
    ensures
        before_first(x, seq![c]) == x,
{
    assert forall|j: int| 0 <= j implies !#[trigger] matches_at(x, seq![c], j) by {
        lemma_matches_single(x, c, j);
    }
    lemma_find_from_none(x, seq![c], 0);
}

} // verus!
