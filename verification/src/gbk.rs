//! GBK, the legacy Chinese encoding that www.wenku8.net serves and expects,
//! through `encoding_rs`; and percent-encoding of bytes for a query string.
use vstd::prelude::*;
use vstd::utf8::{decode_utf8, encode_utf8, is_ascii_chars, valid_utf8};

verus! {

/// What `encoding_rs::GBK.encode` makes of a string: its GBK bytes, with
/// characters that GBK cannot represent written as decimal numeric character
/// references.
pub uninterp spec fn gbk_encoding(s: Seq<char>) -> Seq<u8>;

/// What `encoding_rs::GBK.decode` makes of bytes: GBK decoding after BOM
/// sniffing, with malformed sequences replaced by U+FFFD.
pub uninterp spec fn gbk_decoding(bytes: Seq<u8>) -> Seq<char>;

/// `encoding_rs::GBK.encode(s).0`. Its result is named by `gbk_encoding`; the
/// crate's source returns the input's own bytes when the input is ASCII.
#[verifier::external_body]
pub(crate) fn gbk_encode(s: &str) -> (r: Vec<u8>)
    ensures
        r@ == gbk_encoding(s@),
        is_ascii_chars(s@) ==> r@ == encode_utf8(s@),
{
    let (bytes, _, _) = encoding_rs::GBK.encode(s);
    bytes.into_owned()
}

/// `encoding_rs::GBK.decode(bytes).0`. Its result is named by `gbk_decoding`;
/// nothing more about it is stated.
#[verifier::external_body]
pub(crate) fn gbk_decode(bytes: &[u8]) -> (r: String)
    ensures
        r@ == gbk_decoding(bytes@),
{
    let (text, _, _) = encoding_rs::GBK.decode(bytes);
    text.into_owned()
}

/// `core::str::from_utf8`: the text the bytes encode, when they are valid UTF-8.
#[verifier::external_body]
pub(crate) fn utf8_text(bytes: &[u8]) -> (r: Option<String>)
    ensures
        r is Some <==> valid_utf8(bytes@),
        r matches Some(s) ==> s@ == decode_utf8(bytes@),
{
    match core::str::from_utf8(bytes) {
        Ok(s) => Some(s.to_owned()),
        Err(_) => None,
    }
}

/// The text of a page: its bytes read as UTF-8 when they are valid UTF-8, as
/// GBK otherwise.
pub open spec fn page_text(bytes: Seq<u8>) -> Seq<char> {
    if valid_utf8(bytes) {
        decode_utf8(bytes)
    } else {
        gbk_decoding(bytes)
    }
}

/// The text of a page served in UTF-8 or in GBK.
pub fn decode_page(bytes: &[u8]) -> (r: String)
    ensures
        r@ == page_text(bytes@),
{
    match utf8_text(bytes) {
        Some(s) => s,
        None => gbk_decode(bytes),
    }
}

// ---------------------------------------------------------------------------
// Percent-encoding
// ---------------------------------------------------------------------------

/// ASCII letters and digits and `-`, `_`, `.`, `~` stand for themselves.
pub open spec fn is_unreserved(b: u8) -> bool {
    (48 <= b <= 57) || (65 <= b <= 90) || (97 <= b <= 122) || b == 45 || b == 95 || b == 46
        || b == 126
}

/// An upper-case hexadecimal digit.
pub open spec fn hex_digit(n: nat) -> char {
    if n < 10 {
        (48 + n) as char
    } else {
        (55 + n) as char
    }
}

/// A byte, percent-encoded.
pub open spec fn percent_byte(b: u8) -> Seq<char> {
    if is_unreserved(b) {
        seq![b as char]
    } else {
        seq!['%', hex_digit((b / 16) as nat), hex_digit((b % 16) as nat)]
    }
}

/// Bytes, percent-encoded one after another.
pub open spec fn percent_encoded(bs: Seq<u8>) -> Seq<char>
    decreases bs.len(),
{
    if bs.len() == 0 {
        seq![]
    } else {
        percent_byte(bs[0]) + percent_encoded(bs.drop_first())
    }
}

/// Encoding one more byte appends its encoding.
pub proof fn lemma_percent_encoded_push(bs: Seq<u8>, b: u8)
    ensures
        percent_encoded(bs.push(b)) == percent_encoded(bs) + percent_byte(b),
    decreases bs.len(),
{
    if bs.len() == 0 {
        assert(bs.push(b).drop_first() =~= Seq::<u8>::empty());
        assert(percent_encoded(Seq::<u8>::empty()) == Seq::<char>::empty());
    } else {
        lemma_percent_encoded_push(bs.drop_first(), b);
        assert(bs.push(b).drop_first() =~= bs.drop_first().push(b));
    }
}

fn hex_char(n: u8) -> (c: char)
    requires
        n < 16,
    ensures
        c == hex_digit(n as nat),
{
    if n < 10 {
        (48 + n) as char
    } else {
        (55 + n) as char
    }
}

/// `bytes`, percent-encoded.
pub fn percent_encode(bytes: &[u8]) -> (r: String)
    ensures
        r@ == percent_encoded(bytes@),
{
    let mut out = String::new();
    let mut i: usize = 0;
    while i < bytes.len()
        invariant
            i <= bytes@.len(),
            out@ == percent_encoded(bytes@.take(i as int)),
        decreases bytes.len() - i,
    {
        let b = bytes[i];
        if (48 <= b && b <= 57) || (65 <= b && b <= 90) || (97 <= b && b <= 122) || b == 45 || b
            == 95 || b == 46 || b == 126 {
            crate::text::push_char(&mut out, b as char);
        } else {
            crate::text::push_char(&mut out, '%');
            crate::text::push_char(&mut out, hex_char(b / 16));
            crate::text::push_char(&mut out, hex_char(b % 16));
        }
        proof {
            lemma_percent_encoded_push(bytes@.take(i as int), b);
            assert(bytes@.take(i + 1) == bytes@.take(i as int).push(b));
        }
        i += 1;
    }
    assert(bytes@.take(bytes@.len() as int) == bytes@);
    out
}

/// The percent-encoding of the GBK bytes of `value`: how the site wants a
/// search key.
pub fn percent_encode_gbk(value: &str) -> (r: String)
    ensures
        r@ == percent_encoded(gbk_encoding(value@)),
        is_ascii_chars(value@) ==> r@ == percent_encoded(encode_utf8(value@)),
{
    let bytes = gbk_encode(value);
    percent_encode(bytes.as_slice())
}

/// A character that stands for itself in a percent-encoded string: an ASCII
/// letter or digit, `-`, `_`, `.` or `~`.
pub open spec fn is_unreserved_char(c: char) -> bool {
    ('0' <= c <= '9') || ('A' <= c <= 'Z') || ('a' <= c <= 'z') || c == '-' || c == '_' || c
        == '.' || c == '~'
}

/// An upper-case hexadecimal digit.
pub open spec fn is_upper_hex(c: char) -> bool {
    ('0' <= c <= '9') || ('A' <= c <= 'F')
}

/// The length of the percent-encoding of `bs`: one character per unreserved
/// byte, three per other byte.
pub open spec fn encoded_len(bs: Seq<u8>) -> nat
    decreases bs.len(),
{
    if bs.len() == 0 {
        0
    } else {
        (if is_unreserved(bs[0]) {
            1nat
        } else {
            3nat
        }) + encoded_len(bs.drop_first())
    }
}

/// Law: a percent-encoding has one character per unreserved byte and three per
/// other byte; it holds only unreserved characters and `%`; and every `%` is
/// followed by two upper-case hexadecimal digits.
pub proof fn lemma_percent_encoded_shape(bs: Seq<u8>)
    ensures
        percent_encoded(bs).len() == encoded_len(bs),
        forall|i: int|
            0 <= i < percent_encoded(bs).len() ==> is_unreserved_char(
                #[trigger] percent_encoded(bs)[i],
            ) || percent_encoded(bs)[i] == '%',
        forall|i: int|
            0 <= i < percent_encoded(bs).len() && #[trigger] percent_encoded(bs)[i] == '%' ==> {
                &&& i + 2 < percent_encoded(bs).len()
                &&& is_upper_hex(percent_encoded(bs)[i + 1])
                &&& is_upper_hex(percent_encoded(bs)[i + 2])
            },
    decreases bs.len(),
{
    if bs.len() > 0 {
        let b = bs[0];
        lemma_percent_encoded_shape(bs.drop_first());
        let rest = percent_encoded(bs.drop_first());
        let p = percent_byte(b);
        let e = p + rest;
        assert(percent_encoded(bs) == e);
        if is_unreserved(b) {
            assert(p.len() == 1);
            assert(is_unreserved_char(b as char));
        } else {
            let hi = (b / 16) as nat;
            let lo = (b % 16) as nat;
            assert(p.len() == 3);
            assert(is_upper_hex(hex_digit(hi)));
            assert(is_upper_hex(hex_digit(lo)));
        }
        assert forall|i: int| 0 <= i < e.len() implies is_unreserved_char(#[trigger] e[i]) || e[i]
            == '%' by {
            if i >= p.len() {
                assert(e[i] == rest[i - p.len()]);
            }
        }
        assert forall|i: int| 0 <= i < e.len() && #[trigger] e[i] == '%' implies {
            &&& i + 2 < e.len()
            &&& is_upper_hex(e[i + 1])
            &&& is_upper_hex(e[i + 2])
        } by {
            if i >= p.len() {
                assert(e[i] == rest[i - p.len()]);
                assert(e[i + 1] == rest[i - p.len() + 1]);
                assert(e[i + 2] == rest[i - p.len() + 2]);
            } else if is_unreserved(b) {
                assert(e[i] == b as char);
            }
        }
    }
}

// ---------------------------------------------------------------------------
// Decoding
// ---------------------------------------------------------------------------

/// The value of a hexadecimal digit, either case (0 for any other character).
pub open spec fn hex_value(c: char) -> nat {
    if '0' <= c <= '9' {
        (c as nat - 48) as nat
    } else if 'A' <= c <= 'F' {
        (c as nat - 55) as nat
    } else if 'a' <= c <= 'f' {
        (c as nat - 87) as nat
    } else {
        0
    }
}

/// The bytes a percent-encoded string stands for: `%` and two hex digits
/// for one byte, any other character for its own code.
pub open spec fn percent_decoded(cs: Seq<char>) -> Seq<u8>
    decreases cs.len(),
{
    if cs.len() == 0 {
        seq![]
    } else if cs[0] == '%' && cs.len() >= 3 {
        seq![(hex_value(cs[1]) * 16 + hex_value(cs[2])) as u8] + percent_decoded(cs.skip(3))
    } else {
        seq![cs[0] as u8] + percent_decoded(cs.drop_first())
    }
}

/// Law: percent-decoding gives back the bytes that were encoded.
pub proof fn lemma_percent_round_trip(bs: Seq<u8>)
    ensures
        percent_decoded(percent_encoded(bs)) == bs,
    decreases bs.len(),
{
    if bs.len() > 0 {
        let b = bs[0];
        let rest = percent_encoded(bs.drop_first());
        lemma_percent_round_trip(bs.drop_first());
        let e = percent_byte(b) + rest;
        if is_unreserved(b) {
            assert(e[0] == b as char);
            assert(e.drop_first() =~= rest);
            assert((b as char) as u8 == b);
        } else {
            let hi = (b / 16) as nat;
            let lo = (b % 16) as nat;
            assert(e[0] == '%');
            assert(e[1] == hex_digit(hi));
            assert(e[2] == hex_digit(lo));
            assert(hex_value(hex_digit(hi)) == hi);
            assert(hex_value(hex_digit(lo)) == lo);
            assert(e.skip(3) =~= rest);
        }
        assert(bs =~= seq![b] + bs.drop_first());
    }
}

/// Law: a percent-encoded string is ASCII, whatever the bytes.
pub proof fn lemma_percent_encoded_ascii(bs: Seq<u8>)
    ensures
        is_ascii_chars(percent_encoded(bs)),
    decreases bs.len(),
{
    if bs.len() > 0 {
        lemma_percent_encoded_ascii(bs.drop_first());
        let e = percent_byte(bs[0]);
        let rest = percent_encoded(bs.drop_first());
        assert forall|i: int| 0 <= i < (e + rest).len() implies '\0' <= #[trigger] (e + rest)[i]
            <= '\u{7f}' by {
            if i >= e.len() {
                assert((e + rest)[i] == rest[i - e.len()]);
            }
        }
    }
}

} // verus!
