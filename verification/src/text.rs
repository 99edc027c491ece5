//! Character-sequence primitives with exact specifications: searching,
//! splitting, trimming and replacing, the way `str`'s methods do them.
use vstd::prelude::*;

verus! {

// ---------------------------------------------------------------------------
// Building strings
// ---------------------------------------------------------------------------

/// Appends `c` to `s` (`String::push`).
#[verifier::external_body]
pub(crate) fn push_char(s: &mut String, c: char)
    ensures
        final(s)@ == old(s)@.push(c),
{
    s.push(c);
}

/// The characters of `s`, in order.
pub fn chars_of(s: &str) -> (res: Vec<char>)
    ensures
        res@ == s@,
{
    let mut out: Vec<char> = Vec::new();
    for c in it: s.chars()
        invariant
            out@ == it.seq().take(it.index() as int),
            it.seq() == s@,
    {
        out.push(c);
    }
    out
}

/// Appends the characters of `cs` to `out`.
pub fn push_chars(out: &mut String, cs: &[char])
    ensures
        final(out)@ == old(out)@ + cs@,
{
    let mut i: usize = 0;
    while i < cs.len()
        invariant
            i <= cs.len(),
            out@ == old(out)@ + cs@.take(i as int),
        decreases cs.len() - i,
    {
        push_char(out, cs[i]);
        i += 1;
        assert(cs@.take(i as int) == cs@.take(i - 1).push(cs@[i - 1]));
    }
    assert(cs@.take(cs.len() as int) == cs@);
}

/// The string made of `cs`.
pub fn string_of(cs: &[char]) -> (res: String)
    ensures
        res@ == cs@,
{
    let mut out = String::new();
    push_chars(&mut out, cs);
    out
}

/// The string made of the characters `cs[from..to]`.
pub fn string_of_range(cs: &[char], from: usize, to: usize) -> (res: String)
    requires
        from <= to <= cs@.len(),
    ensures
        res@ == cs@.subrange(from as int, to as int),
{
    let mut out = String::new();
    let mut i: usize = from;
    while i < to
        invariant
            from <= i <= to <= cs@.len(),
            out@ == cs@.subrange(from as int, i as int),
        decreases to - i,
    {
        push_char(&mut out, cs[i]);
        i += 1;
    }
    out
}

/// `a` followed by `b`.
pub fn concat2(a: &str, b: &str) -> (res: String)
    ensures
        res@ == a@ + b@,
{
    let mut out = a.to_owned();
    out.append(b);
    out
}

/// `a`, `b` and `c`, one after the other.
pub fn concat3(a: &str, b: &str, c: &str) -> (res: String)
    ensures
        res@ == a@ + b@ + c@,
{
    let mut out = a.to_owned();
    out.append(b);
    out.append(c);
    out
}

// ---------------------------------------------------------------------------
// Character classes
// ---------------------------------------------------------------------------

/// Unicode `White_Space`, the set that `char::is_whitespace` and `str::trim` use.
pub open spec fn is_white_space(c: char) -> bool {
    ||| ('\u{9}' <= c && c <= '\u{d}')
    ||| c == ' '
    ||| c == '\u{85}'
    ||| c == '\u{a0}'
    ||| c == '\u{1680}'
    ||| ('\u{2000}' <= c && c <= '\u{200a}')
    ||| c == '\u{2028}'
    ||| c == '\u{2029}'
    ||| c == '\u{202f}'
    ||| c == '\u{205f}'
    ||| c == '\u{3000}'
}

/// Whether `c` has the Unicode `White_Space` property, as `char::is_whitespace`
/// and `str::trim` read it.
pub fn is_whitespace(c: char) -> (r: bool)
    ensures
        r == is_white_space(c),
{
    ('\u{9}' <= c && c <= '\u{d}') || c == ' ' || c == '\u{85}' || c == '\u{a0}' || c
        == '\u{1680}' || ('\u{2000}' <= c && c <= '\u{200a}') || c == '\u{2028}' || c
        == '\u{2029}' || c == '\u{202f}' || c == '\u{205f}' || c == '\u{3000}'
}

/// An ASCII digit, `0` to `9`.
pub open spec fn is_ascii_digit(c: char) -> bool {
    '0' <= c && c <= '9'
}

/// Classes of characters that the sources split and trim on.
#[derive(Clone, Copy, PartialEq, Eq, Structural, Debug)]
pub enum CharClass {
    /// Unicode whitespace.
    Whitespace,
    /// `/`.
    Slash,
    /// `?` and `#`, which end the path of a URL.
    QueryStart,
    /// A full-width or an ASCII colon.
    Colon,
    /// What separates the tags of a Wenku8 detail page: space, `/`, `、` and `,`.
    TagSeparator,
    /// What may stand between a novel's title, a volume number and a volume name.
    LabelSeparator,
}

/// Whether `c` belongs to the class `cls`.
pub open spec fn in_class(c: char, cls: CharClass) -> bool {
    match cls {
        CharClass::Whitespace => is_white_space(c),
        CharClass::Slash => c == '/',
        CharClass::QueryStart => c == '?' || c == '#',
        CharClass::Colon => c == '：' || c == ':',
        CharClass::TagSeparator => c == ' ' || c == '/' || c == '、' || c == ',',
        CharClass::LabelSeparator => is_white_space(c) || c == '-' || c == '—' || c == '–' || c
            == ':' || c == '：' || c == '·',
    }
}

/// Whether `c` belongs to `cls`.
pub fn is_in_class(c: char, cls: CharClass) -> (r: bool)
    ensures
        r == in_class(c, cls),
{
    match cls {
        CharClass::Whitespace => is_whitespace(c),
        CharClass::Slash => c == '/',
        CharClass::QueryStart => c == '?' || c == '#',
        CharClass::Colon => c == '：' || c == ':',
        CharClass::TagSeparator => c == ' ' || c == '/' || c == '、' || c == ',',
        CharClass::LabelSeparator => is_whitespace(c) || c == '-' || c == '—' || c == '–' || c
            == ':' || c == '：' || c == '·',
    }
}

// ---------------------------------------------------------------------------
// Identifiers and numbers
// ---------------------------------------------------------------------------

/// A non-empty run of ASCII digits: the shape of every numeric id on the three sites.
pub open spec fn spec_is_id(s: Seq<char>) -> bool {
    s.len() > 0 && forall|i: int| 0 <= i < s.len() ==> #[trigger] is_ascii_digit(s[i])
}

/// Whether `s` is a non-empty run of ASCII digits.
pub fn is_id_chars(s: &[char]) -> (r: bool)
    ensures
        r == spec_is_id(s@),
{
    if s.len() == 0 {
        return false;
    }
    let mut i: usize = 0;
    while i < s.len()
        invariant
            i <= s.len(),
            forall|j: int| 0 <= j < i ==> #[trigger] is_ascii_digit(s@[j]),
        decreases s.len() - i,
    {
        if !('0' <= s[i] && s[i] <= '9') {
            assert(!is_ascii_digit(s@[i as int]));
            return false;
        }
        i += 1;
    }
    true
}

/// Whether `value` is a non-empty string of ASCII digits.
pub fn is_id(value: &str) -> (r: bool)
    ensures
        r == spec_is_id(value@),
{
    let cs = chars_of(value);
    is_id_chars(cs.as_slice())
}

/// The ASCII digit for `d` (below 10).
pub open spec fn digit_char(d: nat) -> char
    recommends
        d < 10,
{
    if d == 0 {
        '0'
    } else if d == 1 {
        '1'
    } else if d == 2 {
        '2'
    } else if d == 3 {
        '3'
    } else if d == 4 {
        '4'
    } else if d == 5 {
        '5'
    } else if d == 6 {
        '6'
    } else if d == 7 {
        '7'
    } else if d == 8 {
        '8'
    } else {
        '9'
    }
}

/// The decimal numeral of `n`, without leading zeros (what `to_string` prints).
pub open spec fn decimal(n: nat) -> Seq<char>
    decreases n,
{
    if n < 10 {
        seq![digit_char(n)]
    } else {
        decimal(n / 10).push(digit_char(n % 10))
    }
}

fn digit_of(d: u64) -> (c: char)
    requires
        d < 10,
    ensures
        c == digit_char(d as nat),
{
    if d == 0 {
        '0'
    } else if d == 1 {
        '1'
    } else if d == 2 {
        '2'
    } else if d == 3 {
        '3'
    } else if d == 4 {
        '4'
    } else if d == 5 {
        '5'
    } else if d == 6 {
        '6'
    } else if d == 7 {
        '7'
    } else if d == 8 {
        '8'
    } else {
        '9'
    }
}

/// Appends the decimal numeral of `n` to `out`.
pub fn push_decimal(out: &mut String, n: u64)
    ensures
        final(out)@ == old(out)@ + decimal(n as nat),
    decreases n,
{
    if n >= 10 {
        push_decimal(out, n / 10);
    }
    push_char(out, digit_of(n % 10));
}

/// The decimal numeral of `n`.
pub fn decimal_string(n: u64) -> (res: String)
    ensures
        res@ == decimal(n as nat),
{
    let mut out = String::new();
    push_decimal(&mut out, n);
    out
}

/// A decimal numeral is an id.
pub proof fn lemma_decimal_is_id(n: nat)
    ensures
        spec_is_id(decimal(n)),
    decreases n,
{
    if n >= 10 {
        lemma_decimal_is_id(n / 10);
        let d = decimal(n / 10);
        assert forall|i: int| 0 <= i < decimal(n).len() implies #[trigger] is_ascii_digit(
            decimal(n)[i],
        ) by {
            if i < d.len() {
                assert(decimal(n)[i] == d[i]);
            }
        }
    }
}

/// The value of an ASCII digit.
pub open spec fn digit_value(c: char) -> nat {
    (c as nat - '0' as nat) as nat
}

/// The value of a string of decimal digits read left to right.
pub open spec fn digits_value(s: Seq<char>) -> nat
    decreases s.len(),
{
    if s.len() == 0 {
        0
    } else {
        digits_value(s.drop_last()) * 10 + digit_value(s.last())
    }
}

/// What `str::parse::<u32>` gives: an optional `+`, then one or more ASCII
/// digits whose value fits in a `u32`.
pub open spec fn spec_parse_u32(s: Seq<char>) -> Option<u32> {
    let d = if s.len() > 0 && s[0] == '+' {
        s.skip(1)
    } else {
        s
    };
    if spec_is_id(d) && digits_value(d) <= u32::MAX {
        Some(digits_value(d) as u32)
    } else {
        None
    }
}

proof fn lemma_digits_value_monotone(s: Seq<char>, i: int)
    requires
        0 <= i <= s.len(),
    ensures
        digits_value(s.take(i)) <= digits_value(s),
    decreases s.len() - i,
{
    if i < s.len() {
        lemma_digits_value_monotone(s, i + 1);
        assert(s.take(i + 1).drop_last() == s.take(i));
        assert(digits_value(s.take(i + 1)) == digits_value(s.take(i)) * 10 + digit_value(
            s.take(i + 1).last(),
        ));
    } else {
        assert(s.take(i) == s);
    }
}

/// `str::parse::<u32>`.
pub fn parse_u32(s: &str) -> (r: Option<u32>)
    ensures
        r == spec_parse_u32(s@),
{
    let cs = chars_of(s);
    let start: usize = if cs.len() > 0 && cs[0] == '+' {
        1
    } else {
        0
    };
    let ghost d = if s@.len() > 0 && s@[0] == '+' {
        s@.skip(1)
    } else {
        s@
    };
    assert(d == cs@.skip(start as int));
    if start >= cs.len() {
        return None;
    }
    let mut v: u64 = 0;
    let mut i: usize = start;
    while i < cs.len()
        invariant
            start <= i <= cs@.len(),
            cs@ == s@,
            d == (if s@.len() > 0 && s@[0] == '+' {
                s@.skip(1)
            } else {
                s@
            }),
            d == cs@.skip(start as int),
            v as nat == digits_value(d.take(i - start)),
            v <= u32::MAX,
            forall|j: int| 0 <= j < i - start ==> #[trigger] is_ascii_digit(d[j]),
        decreases cs.len() - i,
    {
        let c = cs[i];
        assert(c == d[i - start]);
        if !('0' <= c && c <= '9') {
            assert(!is_ascii_digit(d[(i - start) as int]));
            assert(!spec_is_id(d));
            return None;
        }
        let ghost k = (i - start) as int;
        assert(d.take(k + 1).drop_last() == d.take(k));
        assert(d.take(k + 1).last() == c);
        let nv = v * 10 + (c as u64 - '0' as u64);
        assert(nv as nat == digits_value(d.take(k + 1)));
        if nv > u32::MAX as u64 {
            proof {
                lemma_digits_value_monotone(d, k + 1);
            }
            return None;
        }
        v = nv;
        i += 1;
    }
    assert(d.take(d.len() as int) == d);
    assert(spec_is_id(d));
    Some(v as u32)
}

// ---------------------------------------------------------------------------
// Searching
// ---------------------------------------------------------------------------

/// `pat` occurs in `s` at index `i`.
pub open spec fn matches_at(s: Seq<char>, pat: Seq<char>, i: int) -> bool {
    0 <= i && i + pat.len() <= s.len() && s.subrange(i, i + pat.len()) == pat
}

/// The first index at or after `i` where `pat` occurs in `s`.
pub open spec fn find_from(s: Seq<char>, pat: Seq<char>, i: int) -> Option<int>
    decreases s.len() - i,
{
    if i < 0 || i + pat.len() > s.len() {
        None
    } else if matches_at(s, pat, i) {
        Some(i)
    } else if i >= s.len() {
        None
    } else {
        find_from(s, pat, i + 1)
    }
}

/// The first index where `pat` occurs in `s` (`str::find`).
pub open spec fn find(s: Seq<char>, pat: Seq<char>) -> Option<int> {
    find_from(s, pat, 0)
}

/// The last index below `k` where `pat` occurs in `s`.
pub open spec fn rfind_before(s: Seq<char>, pat: Seq<char>, k: int) -> Option<int>
    decreases k,
{
    if k <= 0 {
        None
    } else if matches_at(s, pat, k - 1) {
        Some(k - 1)
    } else {
        rfind_before(s, pat, k - 1)
    }
}

/// The last index where `pat` occurs in `s` (`str::rfind`).
pub open spec fn rfind(s: Seq<char>, pat: Seq<char>) -> Option<int> {
    rfind_before(s, pat, s.len() - pat.len() + 1)
}

/// An optional index as an optional integer.
pub open spec fn opt_int(o: Option<usize>) -> Option<int> {
    match o {
        Some(k) => Some(k as int),
        None => None,
    }
}

/// Whether `pat` occurs in `s` at index `i`.
pub fn matches_at_exec(s: &[char], pat: &[char], i: usize) -> (r: bool)
    ensures
        r == matches_at(s@, pat@, i as int),
{
    if pat.len() > s.len() || i > s.len() - pat.len() {
        return false;
    }
    let mut k: usize = 0;
    while k < pat.len()
        invariant
            k <= pat.len(),
            i + pat.len() <= s.len(),
            forall|j: int| 0 <= j < k ==> s@[i + j] == pat@[j],
        decreases pat.len() - k,
    {
        if s[i + k] != pat[k] {
            assert(s@.subrange(i as int, i + pat.len())[k as int] != pat@[k as int]);
            return false;
        }
        k += 1;
    }
    assert(s@.subrange(i as int, i + pat.len()) =~= pat@);
    true
}

/// The first index at or after `from` where `pat` occurs in `s`.
pub fn find_from_exec(s: &[char], pat: &[char], from: usize) -> (r: Option<usize>)
    ensures
        opt_int(r) == find_from(s@, pat@, from as int),
{
    if pat.len() > s.len() {
        return None;
    }
    let mut i = from;
    while i <= s.len() - pat.len()
        invariant
            from <= i,
            pat.len() <= s.len(),
            find_from(s@, pat@, from as int) == find_from(s@, pat@, i as int),
        decreases s.len() - i,
    {
        if matches_at_exec(s, pat, i) {
            return Some(i);
        }
        if i == s.len() - pat.len() {
            assert(find_from(s@, pat@, i + 1) is None);
            return None;
        }
        i += 1;
    }
    None
}

/// The last index where `pat` occurs in `s`.
pub fn rfind_exec(s: &[char], pat: &[char]) -> (r: Option<usize>)
    ensures
        opt_int(r) == rfind(s@, pat@),
{
    if pat.len() > s.len() {
        return None;
    }
    if pat.len() == 0 {
        assert(matches_at(s@, pat@, s@.len() as int)) by {
            assert(s@.subrange(s@.len() as int, s@.len() as int) =~= pat@);
        }
        return Some(s.len());
    }
    let mut k: usize = s.len() - pat.len() + 1;
    while k > 0
        invariant
            k <= s.len() - pat.len() + 1,
            pat.len() <= s.len(),
            rfind(s@, pat@) == rfind_before(s@, pat@, k as int),
        decreases k,
    {
        if matches_at_exec(s, pat, k - 1) {
            return Some(k - 1);
        }
        k -= 1;
    }
    None
}

/// The first index at or after `i` whose character belongs to `cls`.
pub open spec fn find_class_from(s: Seq<char>, cls: CharClass, i: int) -> Option<int>
    decreases s.len() - i,
{
    if i < 0 || i >= s.len() {
        None
    } else if in_class(s[i], cls) {
        Some(i)
    } else {
        find_class_from(s, cls, i + 1)
    }
}

/// The first index at or after `from` whose character is in `cls`.
pub fn find_class_exec(s: &[char], cls: CharClass, from: usize) -> (r: Option<usize>)
    ensures
        opt_int(r) == find_class_from(s@, cls, from as int),
{
    let mut i = from;
    while i < s.len()
        invariant
            from <= i,
            find_class_from(s@, cls, from as int) == find_class_from(s@, cls, i as int),
        decreases s.len() - i,
    {
        if is_in_class(s[i], cls) {
            return Some(i);
        }
        i += 1;
    }
    None
}

/// Whether `pat` occurs in `s` (`str::contains`).
pub open spec fn contains(s: Seq<char>, pat: Seq<char>) -> bool {
    find(s, pat) is Some
}

/// Whether `pat` occurs in `s`.
pub fn contains_exec(s: &[char], pat: &str) -> (r: bool)
    ensures
        r == contains(s@, pat@),
{
    let p = chars_of(pat);
    find_from_exec(s, p.as_slice(), 0).is_some()
}

/// `str::contains` for two strings.
pub fn str_contains(s: &str, pat: &str) -> (r: bool)
    ensures
        r == contains(s@, pat@),
{
    let cs = chars_of(s);
    contains_exec(cs.as_slice(), pat)
}

/// `s` begins with `pat`.
pub open spec fn starts_with(s: Seq<char>, pat: Seq<char>) -> bool {
    pat.len() <= s.len() && s.take(pat.len() as int) == pat
}

/// `s` ends with `pat`.
pub open spec fn ends_with(s: Seq<char>, pat: Seq<char>) -> bool {
    pat.len() <= s.len() && s.skip(s.len() - pat.len()) == pat
}

/// Whether `s` begins with `pat`.
pub fn starts_with_exec(s: &[char], pat: &str) -> (r: bool)
    ensures
        r == starts_with(s@, pat@),
{
    let p = chars_of(pat);
    let r = matches_at_exec(s, p.as_slice(), 0);
    assert(s@.subrange(0, p@.len() as int) == s@.take(p@.len() as int));
    r
}

/// Whether `s` ends with `pat`.
pub fn ends_with_exec(s: &[char], pat: &str) -> (r: bool)
    ensures
        r == ends_with(s@, pat@),
{
    let p = chars_of(pat);
    if p.len() > s.len() {
        return false;
    }
    let r = matches_at_exec(s, p.as_slice(), s.len() - p.len());
    assert(s@.subrange(s.len() - p@.len(), s.len() as int) == s@.skip(s.len() - p@.len()));
    r
}

// ---------------------------------------------------------------------------
// Trimming
// ---------------------------------------------------------------------------

/// The first index at or after `i` whose character is not in `cls` (or the length).
pub open spec fn skip_class_from(s: Seq<char>, cls: CharClass, i: int) -> int
    decreases s.len() - i,
{
    if 0 <= i < s.len() && in_class(s[i], cls) {
        skip_class_from(s, cls, i + 1)
    } else {
        i
    }
}

/// The end of `s.take(j)` once the characters of `cls` at its end are dropped.
pub open spec fn back_class_from(s: Seq<char>, cls: CharClass, j: int) -> int
    decreases j,
{
    if 0 < j <= s.len() && in_class(s[j - 1], cls) {
        back_class_from(s, cls, j - 1)
    } else {
        j
    }
}

/// `s` without its leading characters of `cls` (`trim_start_matches`).
pub open spec fn trim_start_class(s: Seq<char>, cls: CharClass) -> Seq<char> {
    s.skip(skip_class_from(s, cls, 0))
}

/// `s` without its trailing characters of `cls` (`trim_end_matches`).
pub open spec fn trim_end_class(s: Seq<char>, cls: CharClass) -> Seq<char> {
    s.take(back_class_from(s, cls, s.len() as int))
}

/// `s` without its leading and trailing characters of `cls` (`trim_matches`).
pub open spec fn trim_class(s: Seq<char>, cls: CharClass) -> Seq<char> {
    trim_end_class(trim_start_class(s, cls), cls)
}

/// `str::trim`.
pub open spec fn trim(s: Seq<char>) -> Seq<char> {
    trim_class(s, CharClass::Whitespace)
}

proof fn lemma_skip_class_bounds(s: Seq<char>, cls: CharClass, i: int)
    requires
        0 <= i <= s.len(),
    ensures
        i <= skip_class_from(s, cls, i) <= s.len(),
    decreases s.len() - i,
{
    if i < s.len() && in_class(s[i], cls) {
        lemma_skip_class_bounds(s, cls, i + 1);
    }
}

proof fn lemma_back_class_bounds(s: Seq<char>, cls: CharClass, j: int)
    requires
        0 <= j <= s.len(),
    ensures
        0 <= back_class_from(s, cls, j) <= j,
    decreases j,
{
    if 0 < j && in_class(s[j - 1], cls) {
        lemma_back_class_bounds(s, cls, j - 1);
    }
}

/// The bounds `[start, end)` of `s` trimmed of `cls` at both ends.
pub fn trim_bounds(s: &[char], cls: CharClass) -> (r: (usize, usize))
    ensures
        r.0 <= r.1 <= s@.len(),
        s@.subrange(r.0 as int, r.1 as int) == trim_class(s@, cls),
{
    let mut i: usize = 0;
    while i < s.len() && is_in_class(s[i], cls)
        invariant
            i <= s.len(),
            skip_class_from(s@, cls, 0) == skip_class_from(s@, cls, i as int),
        decreases s.len() - i,
    {
        i += 1;
    }
    let ghost t = s@.skip(i as int);
    assert(t == trim_start_class(s@, cls));
    let mut j: usize = s.len();
    while j > i && is_in_class(s[j - 1], cls)
        invariant
            i <= j <= s.len(),
            t == s@.skip(i as int),
            back_class_from(t, cls, t.len() as int) == back_class_from(t, cls, j - i),
        decreases j,
    {
        assert(t[j - i - 1] == s@[j - 1]);
        j -= 1;
    }
    proof {
        if j > i {
            assert(t[j - i - 1] == s@[j - 1]);
        }
        assert(back_class_from(t, cls, j - i) == j - i);
        assert(s@.subrange(i as int, j as int) =~= t.take(j - i));
    }
    (i, j)
}

/// `str::trim`: `s` without leading and trailing whitespace.
pub fn trim_string(s: &str) -> (res: String)
    ensures
        res@ == trim(s@),
{
    let cs = chars_of(s);
    let (a, b) = trim_bounds(cs.as_slice(), CharClass::Whitespace);
    string_of_range(cs.as_slice(), a, b)
}

/// `s` without its leading characters of `cls`.
pub fn trim_start_exec(s: &[char], cls: CharClass) -> (r: usize)
    ensures
        r <= s@.len(),
        s@.skip(r as int) == trim_start_class(s@, cls),
{
    let mut i: usize = 0;
    while i < s.len() && is_in_class(s[i], cls)
        invariant
            i <= s.len(),
            skip_class_from(s@, cls, 0) == skip_class_from(s@, cls, i as int),
        decreases s.len() - i,
    {
        i += 1;
    }
    i
}

/// `s` with every trailing copy of `pat` removed, one after another
/// (`trim_end_matches` with a string pattern).
pub open spec fn trim_end_pat(s: Seq<char>, pat: Seq<char>) -> Seq<char>
    decreases s.len(),
{
    if pat.len() > 0 && ends_with(s, pat) {
        trim_end_pat(s.take(s.len() - pat.len()), pat)
    } else {
        s
    }
}

/// The length of `s` once every trailing copy of `pat` is removed.
pub fn trim_end_pat_exec(s: &[char], pat: &str) -> (r: usize)
    ensures
        r <= s@.len(),
        s@.take(r as int) == trim_end_pat(s@, pat@),
{
    let p = chars_of(pat);
    if p.len() == 0 {
        assert(s@.take(s@.len() as int) == s@);
        return s.len();
    }
    let mut end: usize = s.len();
    assert(s@.take(end as int) == s@);
    while end >= p.len() && matches_at_exec(s, p.as_slice(), end - p.len())
        invariant
            end <= s.len(),
            p@ == pat@,
            p@.len() > 0,
            trim_end_pat(s@, pat@) == trim_end_pat(s@.take(end as int), pat@),
        decreases end,
    {
        let ghost t = s@.take(end as int);
        assert(t.skip(t.len() - p@.len()) == s@.subrange(end - p@.len(), end as int));
        assert(t.take(t.len() - p@.len()) == s@.take(end - p@.len()));
        end -= p.len();
    }
    proof {
        let t = s@.take(end as int);
        if end >= p@.len() {
            assert(t.skip(t.len() - p@.len()) == s@.subrange(end - p@.len(), end as int));
        }
    }
    end
}

// ---------------------------------------------------------------------------
// Splitting
// ---------------------------------------------------------------------------

/// The pieces of `s` from index `i` on, cut at each non-overlapping occurrence of `pat`
/// (`str::split`).
pub open spec fn split_from(s: Seq<char>, pat: Seq<char>, i: int) -> Seq<Seq<char>>
    decreases s.len() - i,
{
    if pat.len() == 0 || i < 0 || i > s.len() {
        seq![s.subrange(i, s.len() as int)]
    } else {
        match find_from(s, pat, i) {
            None => seq![s.subrange(i, s.len() as int)],
            Some(k) => if i <= k && k + pat.len() <= s.len() {
                seq![s.subrange(i, k)] + split_from(s, pat, k + pat.len())
            } else {
                seq![]
            },
        }
    }
}

/// `str::split` by a non-empty pattern.
pub open spec fn split(s: Seq<char>, pat: Seq<char>) -> Seq<Seq<char>> {
    split_from(s, pat, 0)
}

/// Where `find_from` finds `pat`, it occurs there, at or after `i`.
pub proof fn lemma_find_from_bounds(s: Seq<char>, pat: Seq<char>, i: int)
    requires
        i >= 0,
    ensures
        find_from(s, pat, i) matches Some(k) ==> i <= k && matches_at(s, pat, k),
        find_from(s, pat, i) is None ==> forall|k: int| i <= k ==> !#[trigger] matches_at(
            s,
            pat,
            k,
        ),
    decreases s.len() - i,
{
    if i + pat.len() > s.len() {
    } else if matches_at(s, pat, i) {
    } else if i >= s.len() {
    } else {
        lemma_find_from_bounds(s, pat, i + 1);
        assert forall|k: int| i <= k && find_from(s, pat, i) is None implies !#[trigger] matches_at(
            s,
            pat,
            k,
        ) by {
            if k > i {
                assert(i + 1 <= k);
            }
        }
    }
}

/// The views of a sequence of character vectors.
pub open spec fn views(v: Seq<Vec<char>>) -> Seq<Seq<char>> {
    Seq::new(v.len(), |i: int| v[i]@)
}

/// The pieces of `s` cut at each occurrence of `pat`.
pub(crate) fn split_exec(s: &[char], pat: &str) -> (r: Vec<Vec<char>>)
    requires
        pat@.len() > 0,
    ensures
        views(r@) == split(s@, pat@),
{
    let p = chars_of(pat);
    let mut out: Vec<Vec<char>> = Vec::new();
    let mut i: usize = 0;
    loop
        invariant
            i <= s.len(),
            p@ == pat@,
            p@.len() > 0,
            views(out@) + split_from(s@, pat@, i as int) == split(s@, pat@),
        decreases s.len() - i,
    {
        let found = find_from_exec(s, p.as_slice(), i);
        proof {
            lemma_find_from_bounds(s@, pat@, i as int);
        }
        match found {
            None => {
                let piece = slice_range(s, i, s.len());
                let ghost before = views(out@);
                out.push(piece);
                assert(views(out@) =~= before.push(s@.subrange(i as int, s@.len() as int)));
                return out;
            },
            Some(k) => {
                let piece = slice_range(s, i, k);
                let ghost before = views(out@);
                out.push(piece);
                assert(views(out@) =~= before.push(s@.subrange(i as int, k as int)));
                assert(split_from(s@, pat@, i as int) == seq![s@.subrange(i as int, k as int)]
                    + split_from(s@, pat@, k + pat@.len()));
                i = k + p.len();
            },
        }
    }
}

/// A copy of `s[from..to]`.
pub fn slice_range(s: &[char], from: usize, to: usize) -> (r: Vec<char>)
    requires
        from <= to <= s@.len(),
    ensures
        r@ == s@.subrange(from as int, to as int),
{
    let mut out: Vec<char> = Vec::new();
    let mut i = from;
    while i < to
        invariant
            from <= i <= to <= s@.len(),
            out@ == s@.subrange(from as int, i as int),
        decreases to - i,
    {
        out.push(s[i]);
        i += 1;
    }
    out
}

// ---------------------------------------------------------------------------
// Replacing
// ---------------------------------------------------------------------------

/// `s` from index `i` on with every non-overlapping occurrence of `pat`, found
/// from the left, replaced by `rep` (`str::replace`).
pub open spec fn replace_from(s: Seq<char>, pat: Seq<char>, rep: Seq<char>, i: int) -> Seq<char>
    decreases s.len() - i,
{
    if pat.len() == 0 || i < 0 || i > s.len() {
        s.subrange(i, s.len() as int)
    } else {
        match find_from(s, pat, i) {
            None => s.subrange(i, s.len() as int),
            Some(k) => if i <= k && k + pat.len() <= s.len() {
                s.subrange(i, k) + rep + replace_from(s, pat, rep, k + pat.len())
            } else {
                seq![]
            },
        }
    }
}

/// `str::replace` with a non-empty pattern.
pub open spec fn replace(s: Seq<char>, pat: Seq<char>, rep: Seq<char>) -> Seq<char> {
    replace_from(s, pat, rep, 0)
}

/// `s` with every occurrence of `pat` replaced by `rep`.
pub(crate) fn replace_exec(s: &str, pat: &str, rep: &str) -> (r: String)
    requires
        pat@.len() > 0,
    ensures
        r@ == replace(s@, pat@, rep@),
{
    let cs = chars_of(s);
    let p = chars_of(pat);
    let mut out = String::new();
    let mut i: usize = 0;
    loop
        invariant
            i <= cs@.len(),
            cs@ == s@,
            p@ == pat@,
            p@.len() > 0,
            out@ + replace_from(s@, pat@, rep@, i as int) == replace(s@, pat@, rep@),
        decreases cs@.len() - i,
    {
        let found = find_from_exec(cs.as_slice(), p.as_slice(), i);
        proof {
            lemma_find_from_bounds(s@, pat@, i as int);
        }
        match found {
            None => {
                let ghost before = out@;
                let piece = slice_range(cs.as_slice(), i, cs.len());
                push_chars(&mut out, piece.as_slice());
                return out;
            },
            Some(k) => {
                assert(matches_at(s@, pat@, k as int));
                assert(k + p.len() <= cs.len());
                let piece = slice_range(cs.as_slice(), i, k);
                let ghost before = out@;
                push_chars(&mut out, piece.as_slice());
                out.append(rep);
                assert(replace_from(s@, pat@, rep@, i as int) == s@.subrange(i as int, k as int)
                    + rep@ + replace_from(s@, pat@, rep@, k + pat@.len()));
                assert(out@ == before + s@.subrange(i as int, k as int) + rep@);
                i = k + p.len();
            },
        }
    }
}

} // verus!

verus! {

/// Whether the characters `s` spell `lit`.
pub fn chars_eq(s: &[char], lit: &str) -> (r: bool)
    ensures
        r == (s@ == lit@),
{
    let p = chars_of(lit);
    if p.len() != s.len() {
        return false;
    }
    let mut i: usize = 0;
    while i < s.len()
        invariant
            i <= s.len(),
            p@.len() == s@.len(),
            p@ == lit@,
            forall|j: int| 0 <= j < i ==> s@[j] == p@[j],
        decreases s.len() - i,
    {
        if s[i] != p[i] {
            return false;
        }
        i += 1;
    }
    assert(s@ =~= p@);
    true
}

/// Whether two strings are equal.
pub fn str_eq(a: &str, b: &str) -> (r: bool)
    ensures
        r == (a@ == b@),
{
    let cs = chars_of(a);
    chars_eq(cs.as_slice(), b)
}

} // verus!

verus! {

/// `s` without the prefix `pre`, if it has it (`str::strip_prefix`).
pub open spec fn strip_prefix(s: Seq<char>, pre: Seq<char>) -> Option<Seq<char>> {
    if starts_with(s, pre) {
        Some(s.skip(pre.len() as int))
    } else {
        None
    }
}

/// `s` without the suffix `suf`, if it has it (`str::strip_suffix`).
pub open spec fn strip_suffix(s: Seq<char>, suf: Seq<char>) -> Option<Seq<char>> {
    if ends_with(s, suf) {
        Some(s.take(s.len() - suf.len()))
    } else {
        None
    }
}

/// `s` without the prefix `pre`, if it has it.
pub fn strip_prefix_exec(s: &[char], pre: &str) -> (r: Option<Vec<char>>)
    ensures
        match r {
            Some(v) => strip_prefix(s@, pre@) == Some(v@),
            None => strip_prefix(s@, pre@) is None,
        },
{
    if starts_with_exec(s, pre) {
        let n = pre.unicode_len();
        Some(slice_range(s, n, s.len()))
    } else {
        None
    }
}

/// `s` without the suffix `suf`, if it has it.
pub fn strip_suffix_exec(s: &[char], suf: &str) -> (r: Option<Vec<char>>)
    ensures
        match r {
            Some(v) => strip_suffix(s@, suf@) == Some(v@),
            None => strip_suffix(s@, suf@) is None,
        },
{
    if ends_with_exec(s, suf) {
        let n = suf.unicode_len();
        Some(slice_range(s, 0, s.len() - n))
    } else {
        None
    }
}

/// The pieces of `s` from index `i` on, cut at each character of `cls`
/// (`str::split` with a set of characters).
pub open spec fn split_class_from(s: Seq<char>, cls: CharClass, i: int) -> Seq<Seq<char>>
    decreases s.len() - i,
{
    if i < 0 || i > s.len() {
        seq![]
    } else {
        match find_class_from(s, cls, i) {
            None => seq![s.subrange(i, s.len() as int)],
            Some(k) => if i <= k < s.len() {
                seq![s.subrange(i, k)] + split_class_from(s, cls, k + 1)
            } else {
                seq![]
            },
        }
    }
}

/// The pieces of `s` cut at each character of `cls`.
pub open spec fn split_class(s: Seq<char>, cls: CharClass) -> Seq<Seq<char>> {
    split_class_from(s, cls, 0)
}

/// Where `find_class_from` finds a character, it lies at or after `i` and
/// belongs to the class.
pub proof fn lemma_find_class_from_bounds(s: Seq<char>, cls: CharClass, i: int)
    requires
        i >= 0,
    ensures
        find_class_from(s, cls, i) matches Some(k) ==> i <= k < s.len() && in_class(s[k], cls),
    decreases s.len() - i,
{
    if i < s.len() && !in_class(s[i], cls) {
        lemma_find_class_from_bounds(s, cls, i + 1);
    }
}

/// The pieces of `s` cut at each character of `cls`.
pub fn split_class_exec(s: &[char], cls: CharClass) -> (r: Vec<Vec<char>>)
    ensures
        views(r@) == split_class(s@, cls),
{
    let mut out: Vec<Vec<char>> = Vec::new();
    let mut i: usize = 0;
    loop
        invariant
            i <= s.len(),
            views(out@) + split_class_from(s@, cls, i as int) == split_class(s@, cls),
        decreases s.len() - i,
    {
        let found = find_class_exec(s, cls, i);
        proof {
            lemma_find_class_from_bounds(s@, cls, i as int);
        }
        match found {
            None => {
                let piece = slice_range(s, i, s.len());
                let ghost before = views(out@);
                out.push(piece);
                assert(views(out@) =~= before.push(s@.subrange(i as int, s@.len() as int)));
                return out;
            },
            Some(k) => {
                let piece = slice_range(s, i, k);
                let ghost before = views(out@);
                out.push(piece);
                assert(views(out@) =~= before.push(s@.subrange(i as int, k as int)));
                i = k + 1;
            },
        }
    }
}

/// `s` up to the first occurrence of `pat`, or all of `s` (`split(pat).next()`).
pub open spec fn before_first(s: Seq<char>, pat: Seq<char>) -> Seq<char> {
    match find(s, pat) {
        Some(i) => s.take(i),
        None => s,
    }
}

/// What precedes the first `pat` in `s`, or all of `s`.
pub fn before_first_exec(s: &[char], pat: &str) -> (r: Vec<char>)
    ensures
        r@ == before_first(s@, pat@),
{
    let p = chars_of(pat);
    let found = find_from_exec(s, p.as_slice(), 0);
    proof {
        lemma_find_from_bounds(s@, pat@, 0);
    }
    match found {
        Some(i) => slice_range(s, 0, i),
        None => slice_range(s, 0, s.len()),
    }
}

} // verus!

verus! {

/// `tok` is one of the whitespace-separated words of `s`
/// (`s.split_whitespace().any(|w| w == tok)`).
pub open spec fn has_token(s: Seq<char>, tok: Seq<char>) -> bool {
    &&& tok.len() > 0
    &&& forall|k: int| 0 <= k < tok.len() ==> !#[trigger] is_white_space(tok[k])
    &&& exists|i: int|
        #![trigger matches_at(s, tok, i)]
        matches_at(s, tok, i) && (i == 0 || is_white_space(s[i - 1])) && (i + tok.len() == s.len()
            || is_white_space(s[i + tok.len()]))
}

/// Whether `tok` is one of the whitespace-separated words of `s`.
pub fn has_token_exec(s: &[char], tok: &str) -> (r: bool)
    ensures
        r == has_token(s@, tok@),
{
    let t = chars_of(tok);
    if t.len() == 0 || t.len() > s.len() {
        return false;
    }
    let mut k: usize = 0;
    while k < t.len()
        invariant
            k <= t@.len(),
            t@ == tok@,
            forall|j: int| 0 <= j < k ==> !#[trigger] is_white_space(t@[j]),
        decreases t.len() - k,
    {
        if is_whitespace(t[k]) {
            return false;
        }
        k += 1;
    }
    let mut i: usize = 0;
    while i <= s.len() - t.len()
        invariant
            t@ == tok@,
            t@.len() > 0,
            t@.len() <= s@.len(),
            forall|j: int| 0 <= j < t@.len() ==> !#[trigger] is_white_space(t@[j]),
            forall|j: int|
                #![trigger matches_at(s@, tok@, j)]
                0 <= j < i ==> !(matches_at(s@, tok@, j) && (j == 0 || is_white_space(s@[j - 1]))
                    && (j + tok@.len() == s@.len() || is_white_space(s@[j + tok@.len()]))),
        decreases s.len() - i,
    {
        if matches_at_exec(s, t.as_slice(), i) && (i == 0 || is_whitespace(s[i - 1])) && (i
            + t.len() == s.len() || is_whitespace(s[i + t.len()])) {
            return true;
        }
        if i == s.len() - t.len() {
            assert forall|j: int| #![trigger matches_at(s@, tok@, j)] matches_at(s@, tok@, j) implies !(
            (j == 0 || is_white_space(s@[j - 1])) && (j + tok@.len() == s@.len() || is_white_space(
                s@[j + tok@.len()],
            ))) by {
                assert(j <= i);
            }
            return false;
        }
        i += 1;
    }
    false
}

} // verus!

verus! {

/// The number of bytes that `c` takes in UTF-8.
pub open spec fn utf8_width(c: char) -> nat {
    if (c as u32) < 0x80 {
        1
    } else if (c as u32) < 0x800 {
        2
    } else if (c as u32) < 0x10000 {
        3
    } else {
        4
    }
}

/// The number of bytes that `s` takes in UTF-8 (`str::len`).
pub open spec fn utf8_len(s: Seq<char>) -> nat
    decreases s.len(),
{
    if s.len() == 0 {
        0
    } else {
        utf8_len(s.drop_last()) + utf8_width(s.last())
    }
}

proof fn lemma_utf8_len_monotone(s: Seq<char>, i: int)
    requires
        0 <= i <= s.len(),
    ensures
        utf8_len(s.take(i)) <= utf8_len(s),
    decreases s.len() - i,
{
    if i < s.len() {
        lemma_utf8_len_monotone(s, i + 1);
        assert(s.take(i + 1).drop_last() == s.take(i));
    } else {
        assert(s.take(i) == s);
    }
}

/// Whether `s` takes more than `n` bytes in UTF-8.
pub fn utf8_longer_than(s: &str, n: u64) -> (r: bool)
    requires
        n < u64::MAX - 4,
    ensures
        r == (utf8_len(s@) > n),
{
    let cs = chars_of(s);
    let mut total: u64 = 0;
    let mut i: usize = 0;
    while i < cs.len()
        invariant
            i <= cs@.len(),
            cs@ == s@,
            n < u64::MAX - 4,
            total as nat == utf8_len(cs@.take(i as int)),
            total <= n,
        decreases cs.len() - i,
    {
        let c = cs[i] as u32;
        let w: u64 = if c < 0x80 {
            1
        } else if c < 0x800 {
            2
        } else if c < 0x10000 {
            3
        } else {
            4
        };
        assert(cs@.take(i + 1).drop_last() == cs@.take(i as int));
        total = total + w;
        if total > n {
            proof {
                lemma_utf8_len_monotone(cs@, i + 1);
            }
            return true;
        }
        i += 1;
    }
    assert(cs@.take(cs@.len() as int) == cs@);
    false
}

} // verus!

verus! {

/// What `str::to_lowercase` makes of a string: its Unicode lowercase mapping.
pub uninterp spec fn lowercase(s: Seq<char>) -> Seq<char>;

/// `str::to_lowercase`. Its result is named by `lowercase`; nothing more
/// about it is stated.
#[verifier::external_body]
pub(crate) fn to_lowercase(s: &str) -> (r: String)
    ensures
        r@ == lowercase(s@),
{
    s.to_lowercase()
}

/// Trimming the leading characters of a class leaves none in front.
pub proof fn lemma_trim_start_no_leading(s: Seq<char>, cls: CharClass)
    ensures
        ({
            let t = trim_start_class(s, cls);
            t.len() == 0 || !in_class(t[0], cls)
        }),
{
    lemma_skip_class_end(s, cls, 0);
}

/// Law: trimming the leading characters of a class removes only characters of
/// that class, leaves a suffix of the text, and a second trim changes nothing.
pub proof fn lemma_trim_start_class(s: Seq<char>, cls: CharClass)
    ensures
        ({
            let t = trim_start_class(s, cls);
            &&& t.len() <= s.len()
            &&& t == s.skip(s.len() - t.len())
            &&& forall|i: int| 0 <= i < s.len() - t.len() ==> #[trigger] in_class(s[i], cls)
            &&& trim_start_class(t, cls) == t
        }),
{
    lemma_skip_class_end(s, cls, 0);
    lemma_skip_class_all(s, cls, 0);
    let t = trim_start_class(s, cls);
    let k = skip_class_from(s, cls, 0);
    assert(t.len() == s.len() - k);
    if t.len() > 0 {
        assert(!in_class(t[0], cls));
        assert(skip_class_from(t, cls, 0) == 0);
    } else {
        assert(skip_class_from(t, cls, 0) == 0);
    }
    assert(t.skip(0) =~= t);
}

proof fn lemma_skip_class_all(s: Seq<char>, cls: CharClass, i: int)
    requires
        0 <= i <= s.len(),
    ensures
        forall|j: int| i <= j < skip_class_from(s, cls, i) ==> #[trigger] in_class(s[j], cls),
    decreases s.len() - i,
{
    if i < s.len() && in_class(s[i], cls) {
        lemma_skip_class_all(s, cls, i + 1);
    }
}

/// Law: trimming a trimmed text changes nothing.
pub proof fn lemma_trim_idempotent(s: Seq<char>)
    ensures
        trim(trim(s)) == trim(s),
{
    let cls = CharClass::Whitespace;
    let a = trim_start_class(s, cls);
    lemma_skip_class_end(a, cls, 0);
    lemma_skip_class_end(s, cls, 0);
    lemma_back_class_end(a, cls, a.len() as int);
    let t = trim(s);
    let j = back_class_from(a, cls, a.len() as int);
    assert(t == a.take(j));
    if t.len() > 0 {
        assert(t[0] == a[0]);
        assert(skip_class_from(t, cls, 0) == 0);
        assert(!in_class(t[t.len() - 1], cls));
        assert(back_class_from(t, cls, t.len() as int) == t.len());
    } else {
        assert(skip_class_from(t, cls, 0) == 0);
    }
    assert(t.skip(0) =~= t);
    assert(t.take(t.len() as int) =~= t);
}

proof fn lemma_back_class_end(s: Seq<char>, cls: CharClass, j: int)
    requires
        0 <= j <= s.len(),
    ensures
        0 <= back_class_from(s, cls, j) <= j,
        back_class_from(s, cls, j) > 0 ==> !in_class(s[back_class_from(s, cls, j) - 1], cls),
    decreases j,
{
    if 0 < j && in_class(s[j - 1], cls) {
        lemma_back_class_end(s, cls, j - 1);
    }
}

proof fn lemma_skip_class_end(s: Seq<char>, cls: CharClass, i: int)
    requires
        0 <= i <= s.len(),
    ensures
        i <= skip_class_from(s, cls, i) <= s.len(),
        skip_class_from(s, cls, i) < s.len() ==> !in_class(s[skip_class_from(s, cls, i)], cls),
    decreases s.len() - i,
{
    if i < s.len() && in_class(s[i], cls) {
        lemma_skip_class_end(s, cls, i + 1);
    }
}

/// Nothing matches before the first match.
pub proof fn lemma_find_from_first(s: Seq<char>, pat: Seq<char>, i: int)
    requires
        i >= 0,
    ensures
        find_from(s, pat, i) matches Some(k) ==> forall|j: int|
            i <= j < k ==> !#[trigger] matches_at(s, pat, j),
    decreases s.len() - i,
{
    if i + pat.len() <= s.len() && !matches_at(s, pat, i) && i < s.len() {
        lemma_find_from_first(s, pat, i + 1);
    }
}

proof fn lemma_digit_value_of(d: nat)
    requires
        d < 10,
    ensures
        digit_value(digit_char(d)) == d,
{
}

/// Reading a decimal numeral gives back its number.
pub proof fn lemma_digits_value_decimal(n: nat)
    ensures
        digits_value(decimal(n)) == n,
    decreases n,
{
    if n < 10 {
        lemma_digit_value_of(n);
        let s = decimal(n);
        assert(s.drop_last() =~= Seq::<char>::empty());
        assert(digits_value(s.drop_last()) == 0);
        assert(s.last() == digit_char(n));
    } else {
        lemma_digits_value_decimal(n / 10);
        lemma_digit_value_of(n % 10);
        let s = decimal(n);
        assert(s.drop_last() =~= decimal(n / 10));
        assert(s.last() == digit_char(n % 10));
        assert(digits_value(s) == digits_value(s.drop_last()) * 10 + digit_value(s.last()));
        assert((n / 10) * 10 + n % 10 == n);
    }
}

/// Law: `parse::<u32>` reads back what `to_string` writes.
pub proof fn lemma_parse_u32_decimal(n: u32)
    ensures
        spec_parse_u32(decimal(n as nat)) == Some(n),
{
    lemma_decimal_is_id(n as nat);
    lemma_digits_value_decimal(n as nat);
    let s = decimal(n as nat);
    assert(is_ascii_digit(s[0]));
}

} // verus!
