//! 輕小說文庫 (www.wenku8.net): an HTML site served in UTF-8 or GBK.
use vstd::prelude::*;
use crate::model::{
    ContentRating, MangaInfo, MangaStatus, MangaView, mangas_view, strings_view,
    ChapterInfo, ChapterView, DeepLink, DeepLinkView, chapters_view, join_title,
    join_title_exec, opt_link_view, opt_view, or_empty, reverse_chapters, text_or_empty,
};
use crate::text::{
    before_first, before_first_exec, chars_eq, chars_of, concat2, concat3, contains,
    contains_exec, decimal, decimal_string, ends_with, ends_with_exec, find, find_class_exec,
    find_class_from, find_from_exec, is_id_chars, lemma_find_from_bounds, opt_int, push_char,
    push_chars, rfind, rfind_exec, slice_range, spec_is_id, spec_parse_u32, split, split_exec,
    starts_with, starts_with_exec, strip_prefix, strip_prefix_exec, strip_suffix,
    strip_suffix_exec, string_of, string_of_range, trim, trim_bounds, trim_class, trim_end_pat,
    trim_end_pat_exec, views, CharClass, parse_u32, has_token, has_token_exec, trim_string,
};
use crate::text::{replace_from, lemma_trim_idempotent, lemma_find_class_from_bounds, split_from, in_class, is_ascii_digit, matches_at, replace, replace_exec, split_class, split_class_exec};
use crate::text::{utf8_len, utf8_longer_than, push_decimal, str_contains, str_eq};
use crate::gbk::{gbk_encoding, percent_encode_gbk, percent_encoded};
use crate::markdown::{convert_children, md_nodes, Flavor, HtmlNode};
use crate::model::SourceError;
use crate::url::{
    lemma_find_from_at, lemma_find_from_none, lemma_matches_char, lemma_site_path_ignores_query,
    lemma_split_slash_at, lemma_split_slash_last, lemma_trim_end_pat_once,
    lemma_trim_one_leading_slash,
    lemma_matches_first_char, lemma_rfind_at, lemma_strip_query_plain,
    lemma_rfind_before_bounds, site_path, site_path_of,
    strip_query,
};

verus! {

/// The site's address.
pub open spec fn base_url() -> Seq<char> {
    "https://www.wenku8.net"@
}

/// The detail page of the novel `key`: `{BASE_URL}/book/{key}.htm`.
pub open spec fn spec_book_url(key: Seq<char>) -> Seq<char> {
    base_url() + "/book/"@ + key + ".htm"@
}

/// The detail page of the novel `key`.
pub fn book_url(key: &str) -> (r: String)
    ensures
        r@ == spec_book_url(key@),
{
    let mut out = concat2("https://www.wenku8.net", "/book/");
    out.append(key);
    out.append(".htm");
    out
}

// ---------------------------------------------------------------------------
// Deep links
// ---------------------------------------------------------------------------

/// The novel a path `/book/{id}.htm` names.
pub open spec fn book_link_key(path: Seq<char>) -> Option<Seq<char>> {
    match strip_prefix(path, "/book/"@) {
        Some(rest) => match strip_suffix(rest, ".htm"@) {
            Some(key) => if spec_is_id(key) {
                Some(key)
            } else {
                None
            },
            None => None,
        },
        None => None,
    }
}

/// The chapter a path `/novel/{group}/{id}/{chapter}.htm` names.
pub open spec fn chapter_link(path: Seq<char>) -> Option<DeepLinkView> {
    let segments = split(trim_class(path, CharClass::Slash), "/"@);
    if segments.len() == 4 && segments[0] == "novel"@ && spec_is_id(segments[2]) && ends_with(
        segments[3],
        ".htm"@,
    ) {
        Some(
            DeepLinkView::Chapter {
                manga_key: segments[2],
                key: if starts_with(path, "/"@) {
                    path
                } else {
                    seq!['/'] + path
                },
            },
        )
    } else {
        None
    }
}

/// What a link into www.wenku8.net points at.
pub open spec fn deep_link(url: Seq<char>) -> Option<DeepLinkView> {
    let path = site_path(url, "wenku8.net"@);
    match book_link_key(path) {
        Some(key) => Some(DeepLinkView::Manga { key }),
        None => chapter_link(path),
    }
}

/// The novel or chapter that a link into the site points at, if any.
pub fn handle_deep_link(url: &str) -> (r: Option<DeepLink>)
    ensures
        opt_link_view(r) == deep_link(url@),
{
    let path = site_path_of(url, "wenku8.net");
    let p = path.as_slice();
    if let Some(rest) = strip_prefix_exec(p, "/book/") {
        if let Some(key) = strip_suffix_exec(rest.as_slice(), ".htm") {
            if is_id_chars(key.as_slice()) {
                return Some(DeepLink::Manga { key: string_of(key.as_slice()) });
            }
        }
    }
    let (a, b) = trim_bounds(p, CharClass::Slash);
    let trimmed = slice_range(p, a, b);
    proof {
        reveal_strlit("/");
    }
    let segments = split_exec(trimmed.as_slice(), "/");
    assert(segments@.len() == views(segments@).len());
    if segments.len() == 4 {
        assert(views(segments@)[0] == segments@[0]@);
        assert(views(segments@)[2] == segments@[2]@);
        assert(views(segments@)[3] == segments@[3]@);
        if chars_eq(segments[0].as_slice(), "novel") && is_id_chars(segments[2].as_slice())
            && ends_with_exec(segments[3].as_slice(), ".htm") {
            let key = if starts_with_exec(p, "/") {
                string_of(p)
            } else {
                let mut s = String::new();
                push_char(&mut s, '/');
                push_chars(&mut s, p);
                assert(s@ == seq!['/'] + p@);
                s
            };
            return Some(
                DeepLink::Chapter { manga_key: string_of(segments[2].as_slice()), key },
            );
        }
    }
    None
}


/// Law: the link to a novel's detail page, as the library writes it, points
/// back at that novel.
pub proof fn lemma_book_link_round_trip(key: Seq<char>)
    requires
        spec_is_id(key),
    ensures
        deep_link(spec_book_url(key)) == Some(DeepLinkView::Manga { key }),
{
    reveal_strlit("https://www.wenku8.net");
    reveal_strlit("/book/");
    reveal_strlit(".htm");
    reveal_strlit("wenku8.net");
    let u = spec_book_url(key);
    let n = key.len();
    assert(u.len() == 32 + n);
    assert forall|j: int| 0 <= j < u.len() implies !#[trigger] in_class(
        u[j],
        CharClass::QueryStart,
    ) by {
        if 28 <= j < 28 + n {
            assert(u[j] == key[j - 28]);
            assert(is_ascii_digit(key[j - 28]));
        }
    }
    lemma_strip_query_plain(u);
    let w = "wenku8.net"@;
    assert(u.subrange(12, 22) =~= w);
    assert forall|i: int| 12 < i implies !#[trigger] matches_at(u, w, i) by {
        if matches_at(u, w, i) {
            lemma_matches_first_char(u, w, i);
            if 28 <= i < 28 + n {
                assert(u[i] == key[i - 28]);
                assert(is_ascii_digit(key[i - 28]));
            }
        }
    }
    lemma_rfind_at(u, w, 12);
    let path = u.skip(22);
    assert(site_path(u, w) == path);
    assert(path.take(6) =~= "/book/"@);
    let rest = path.skip(6);
    assert(rest =~= key + ".htm"@);
    assert(rest.skip(rest.len() - 4) =~= ".htm"@);
    assert(rest.take(rest.len() - 4) =~= key);
}


// ---------------------------------------------------------------------------
// Keys and addresses
// ---------------------------------------------------------------------------

/// `s` without what follows its first `?` or `#`.
pub fn strip_query_exec(s: &[char]) -> (r: Vec<char>)
    ensures
        r@ == strip_query(s@),
{
    let found = find_class_exec(s, CharClass::QueryStart, 0);
    proof {
        lemma_find_class_from_bounds(s@, CharClass::QueryStart, 0);
    }
    match found {
        Some(i) => slice_range(s, 0, i),
        None => slice_range(s, 0, s.len()),
    }
}

/// The novel id in a detail-page address: what follows the first `/book/`, up
/// to the next `/book/`, `?` or `#`, without trailing `.htm`s.
pub open spec fn spec_book_key(url: Seq<char>) -> Option<Seq<char>> {
    let parts = split(url, "/book/"@);
    if parts.len() < 2 {
        None
    } else {
        let key = trim_end_pat(strip_query(parts[1]), ".htm"@);
        if spec_is_id(key) {
            Some(key)
        } else {
            None
        }
    }
}

/// The novel id in a detail-page address, if it has one.
pub fn book_key(url: &str) -> (r: Option<String>)
    ensures
        opt_view(r) == spec_book_key(url@),
{
    let cs = chars_of(url);
    proof {
        reveal_strlit("/book/");
    }
    let parts = split_exec(cs.as_slice(), "/book/");
    if parts.len() < 2 {
        return None;
    }
    assert(views(parts@)[1] == parts@[1]@);
    let q = strip_query_exec(parts[1].as_slice());
    let end = trim_end_pat_exec(q.as_slice(), ".htm");
    let key = slice_range(q.as_slice(), 0, end);
    assert(key@ == q@.take(end as int));
    if is_id_chars(key.as_slice()) {
        Some(string_of(key.as_slice()))
    } else {
        None
    }
}

/// The novel id in a vote link: what follows the first `id=`, up to the next
/// `id=` or `&`.
pub open spec fn spec_detail_book_key(href: Seq<char>) -> Option<Seq<char>> {
    let parts = split(href, "id="@);
    if parts.len() < 2 {
        None
    } else {
        let id = before_first(parts[1], "&"@);
        if spec_is_id(id) {
            Some(id)
        } else {
            None
        }
    }
}

/// The novel id in the address of a detail page's vote link, if it has one.
pub fn detail_book_key(href: &str) -> (r: Option<String>)
    ensures
        opt_view(r) == spec_detail_book_key(href@),
{
    let cs = chars_of(href);
    proof {
        reveal_strlit("id=");
    }
    let parts = split_exec(cs.as_slice(), "id=");
    if parts.len() < 2 {
        return None;
    }
    assert(views(parts@)[1] == parts@[1]@);
    let id = before_first_exec(parts[1].as_slice(), "&");
    if is_id_chars(id.as_slice()) {
        Some(string_of(id.as_slice()))
    } else {
        None
    }
}

/// The value of a `label：value` table cell: what follows the first colon
/// (full-width or ASCII), trimmed.
pub open spec fn spec_field_value(text: Seq<char>) -> Option<Seq<char>> {
    match find_class_from(text, CharClass::Colon, 0) {
        Some(i) => Some(trim(text.skip(i + 1))),
        None => None,
    }
}

/// The value in the text of a `label：value` table cell, if it has a colon.
pub fn field_value(text: &str) -> (r: Option<String>)
    ensures
        opt_view(r) == spec_field_value(text@),
{
    let cs = chars_of(text);
    let found = find_class_exec(cs.as_slice(), CharClass::Colon, 0);
    proof {
        lemma_find_class_from_bounds(text@, CharClass::Colon, 0);
    }
    match found {
        Some(i) => {
            assert(i + 1 <= cs.len());
            let rest = slice_range(cs.as_slice(), i + 1, cs.len());
            assert(rest@ == text@.skip(i + 1));
            let (a, b) = trim_bounds(rest.as_slice(), CharClass::Whitespace);
            Some(string_of_range(rest.as_slice(), a, b))
        },
        None => None,
    }
}

/// What stands between the first `start` and the next `end` (or the end of
/// `text`), trimmed; `None` when `start` does not occur.
pub open spec fn spec_extract_between(text: Seq<char>, start: Seq<char>, end: Seq<char>) -> Option<
    Seq<char>,
> {
    match find(text, start) {
        Some(i) => Some(trim(before_first(text.skip(i + start.len()), end))),
        None => None,
    }
}

/// What stands between `start` and `end` in `text`, trimmed.
pub fn extract_between(text: &str, start: &str, end: &str) -> (r: Option<String>)
    ensures
        opt_view(r) == spec_extract_between(text@, start@, end@),
{
    let cs = chars_of(text);
    let st = chars_of(start);
    let found = find_from_exec(cs.as_slice(), st.as_slice(), 0);
    proof {
        lemma_find_from_bounds(text@, start@, 0);
    }
    match found {
        Some(i) => {
            assert(i + st.len() <= cs.len());
            let rest = slice_range(cs.as_slice(), i + st.len(), cs.len());
            assert(rest@ == text@.skip(i + start@.len()));
            let value = before_first_exec(rest.as_slice(), end);
            let (a, b) = trim_bounds(value.as_slice(), CharClass::Whitespace);
            Some(string_of_range(value.as_slice(), a, b))
        },
        None => None,
    }
}

/// `href` made absolute against the page at `base`: absolute addresses stay,
/// rooted paths go under the site, others go next to `base`.
pub open spec fn spec_resolve_url(base: Seq<char>, href: Seq<char>) -> Seq<char> {
    if starts_with(href, "http://"@) || starts_with(href, "https://"@) {
        href
    } else if starts_with(href, "/"@) {
        base_url() + href
    } else {
        let directory = match rfind(base, "/"@) {
            Some(i) => base.take(i),
            None => base,
        };
        directory + "/"@ + href
    }
}

/// `href` made absolute against the page at `base`.
pub fn resolve_url(base: &str, href: &str) -> (r: String)
    ensures
        r@ == spec_resolve_url(base@, href@),
{
    let h = chars_of(href);
    if starts_with_exec(h.as_slice(), "http://") || starts_with_exec(h.as_slice(), "https://") {
        return href.to_owned();
    }
    if starts_with_exec(h.as_slice(), "/") {
        return concat2("https://www.wenku8.net", href);
    }
    let b = chars_of(base);
    let slash = chars_of("/");
    let found = rfind_exec(b.as_slice(), slash.as_slice());
    proof {
        lemma_rfind_before_bounds(b@, slash@, b@.len() - slash@.len() + 1);
    }
    let mut out = match found {
        Some(i) => string_of_range(b.as_slice(), 0, i),
        None => base.to_owned(),
    };
    out.append("/");
    out.append(href);
    out
}

/// The address of a chapter page: the key when it is already absolute (it
/// begins with `http`), else the key under the site.
pub open spec fn spec_page_url(key: Seq<char>) -> Seq<char> {
    if starts_with(key, "http"@) {
        key
    } else {
        base_url() + key
    }
}

/// The address of the chapter page with key `key`.
pub fn page_url(key: &str) -> (r: String)
    ensures
        r@ == spec_page_url(key@),
{
    let k = chars_of(key);
    if starts_with_exec(k.as_slice(), "http") {
        key.to_owned()
    } else {
        concat2("https://www.wenku8.net", key)
    }
}

/// The catalog of the novel `key`, whose key must parse as a `u32`.
pub open spec fn spec_catalog_url(key: Seq<char>) -> Option<Seq<char>> {
    match spec_parse_u32(key) {
        Some(n) => Some(base_url() + "/modules/article/reader.php?aid="@ + decimal(n as nat)),
        None => None,
    }
}

/// The catalog page of the novel `key`; `None` when the key is not a valid
/// novel id.
pub fn catalog_url(key: &str) -> (r: Option<String>)
    ensures
        opt_view(r) == spec_catalog_url(key@),
{
    match parse_u32(key) {
        Some(n) => {
            let mut out = concat2("https://www.wenku8.net", "/modules/article/reader.php?aid=");
            let d = decimal_string(n as u64);
            out.append(d.as_str());
            Some(out)
        },
        None => None,
    }
}


// ---------------------------------------------------------------------------
// The catalog
// ---------------------------------------------------------------------------

/// The first link of a catalog cell: its `href` and `abs:href` attributes and
/// its text.
#[derive(Clone, Debug, PartialEq, Eq)]
pub struct CatalogLink {
    pub href: Option<String>,
    pub abs_href: Option<String>,
    pub text: Option<String>,
}

/// A `td` cell of the catalog table: its `class` attribute, its text and its
/// first link.
#[derive(Clone, Debug, PartialEq, Eq)]
pub struct CatalogCell {
    pub class: Option<String>,
    pub text: Option<String>,
    pub link: Option<CatalogLink>,
}

/// The link target of a catalog link: `href`, or `abs:href` when it has no `href`.
pub open spec fn link_target(link: CatalogLink) -> Option<String> {
    if link.href is Some {
        link.href
    } else {
        link.abs_href
    }
}

/// One step through the catalog: a `vcss` cell names the volume that follows;
/// a `ccss` cell with a reader link to `cid=` and a non-empty title adds a
/// chapter numbered one past the last.
pub open spec fn catalog_step(
    state: (Seq<char>, Seq<ChapterView>),
    cell: CatalogCell,
    base: Seq<char>,
) -> (Seq<char>, Seq<ChapterView>) {
    let class = or_empty(cell.class);
    if has_token(class, "vcss"@) {
        (trim(or_empty(cell.text)), state.1)
    } else if !has_token(class, "ccss"@) {
        state
    } else {
        match cell.link {
            None => state,
            Some(link) => match link_target(link) {
                None => state,
                Some(href) => {
                    let url = spec_resolve_url(base, href@);
                    let title = trim(or_empty(link.text));
                    if !contains(url, "reader.php?"@) || !contains(url, "cid="@) || title.len()
                        == 0 {
                        state
                    } else {
                        (
                            state.0,
                            state.1.push(
                                ChapterView {
                                    key: url,
                                    title: Some(join_title(state.0, title)),
                                    chapter_number: (state.1.len() + 1) as u64,
                                    volume_number: None,
                                    url: Some(url),
                                    language: Some("zh"@),
                                    published_at: None,
                                },
                            ),
                        )
                    }
                },
            },
        }
    }
}

/// The volume label and the chapters after reading the cells in order.
pub open spec fn catalog_fold(cells: Seq<CatalogCell>, base: Seq<char>) -> (
    Seq<char>,
    Seq<ChapterView>,
)
    decreases cells.len(),
{
    if cells.len() == 0 {
        (Seq::empty(), Seq::empty())
    } else {
        catalog_step(catalog_fold(cells.drop_last(), base), cells.last(), base)
    }
}

/// The chapters of a catalog, newest first.
pub open spec fn spec_parse_chapters(cells: Seq<CatalogCell>, base: Seq<char>) -> Seq<ChapterView> {
    catalog_fold(cells, base).1.reverse()
}

/// A chapter title as the catalog writes it: a trimmed, non-empty chapter
/// title after the trimmed label of its volume, if that is not empty.
pub open spec fn catalog_title(title: Option<Seq<char>>) -> bool {
    exists|v: Seq<char>, t: Seq<char>|
        #![trigger join_title(v, t)]
        title == Some(join_title(v, t)) && t.len() > 0 && trim(t) == t && trim(v) == v
}

proof fn lemma_catalog_fold(cells: Seq<CatalogCell>, base: Seq<char>)
    requires
        cells.len() <= u64::MAX,
    ensures
        catalog_fold(cells, base).1.len() <= cells.len(),
        trim(catalog_fold(cells, base).0) == catalog_fold(cells, base).0,
        forall|j: int|
            0 <= j < catalog_fold(cells, base).1.len() ==> {
                let c = #[trigger] catalog_fold(cells, base).1[j];
                &&& c.chapter_number == j + 1
                &&& contains(c.key, "reader.php?"@)
                &&& contains(c.key, "cid="@)
                &&& c.url == Some(c.key)
                &&& c.language == Some("zh"@)
                &&& catalog_title(c.title)
            },
    decreases cells.len(),
{
    if cells.len() > 0 {
        let prev = cells.drop_last();
        lemma_catalog_fold(prev, base);
        let st = catalog_fold(prev, base);
        let st2 = catalog_fold(cells, base);
        let cell = cells.last();
        assert(st2 == catalog_step(st, cell, base));
        lemma_trim_idempotent(or_empty(cell.text));
        match cell.link {
            Some(link) => lemma_trim_idempotent(or_empty(link.text)),
            None => {},
        }
        assert forall|j: int| 0 <= j < st2.1.len() implies {
            let c = #[trigger] st2.1[j];
            &&& c.chapter_number == j + 1
            &&& contains(c.key, "reader.php?"@)
            &&& contains(c.key, "cid="@)
            &&& c.url == Some(c.key)
            &&& c.language == Some("zh"@)
            &&& catalog_title(c.title)
        } by {
            if j < st.1.len() {
                assert(st2.1[j] == st.1[j]);
            } else {
                let link = cell.link->0;
                let t = trim(or_empty(link.text));
                assert(st2.1[j].title == Some(join_title(st.0, t)));
            }
        }
    } else {
        assert(trim(Seq::<char>::empty()) =~= Seq::<char>::empty()) by {
            assert(crate::text::skip_class_from(Seq::<char>::empty(), CharClass::Whitespace, 0)
                == 0);
        }
    }
}

proof fn lemma_fold_keeps_volume(pre: Seq<CatalogCell>, mid: Seq<CatalogCell>, base: Seq<char>)
    requires
        forall|k: int| 0 <= k < mid.len() ==> !has_token(or_empty(#[trigger] mid[k].class), "vcss"@),
    ensures
        catalog_fold(pre + mid, base).0 == catalog_fold(pre, base).0,
    decreases mid.len(),
{
    if mid.len() == 0 {
        assert(pre + mid =~= pre);
    } else {
        let m2 = mid.drop_last();
        assert forall|k: int| 0 <= k < m2.len() implies !has_token(
            or_empty(#[trigger] m2[k].class),
            "vcss"@,
        ) by {
            assert(m2[k] == mid[k]);
        }
        lemma_fold_keeps_volume(pre, m2, base);
        assert((pre + mid).drop_last() =~= pre + m2);
        assert((pre + mid).last() == mid[mid.len() - 1]);
    }
}

/// Law: a chapter of the catalog is titled under the last volume header
/// (`vcss` cell) before it: `{volume} — {chapter}`, with both trimmed, or the
/// chapter's title alone where that header is blank; it is the newest chapter
/// when its cell is the last, and it is read at its link.
pub proof fn lemma_chapter_under_last_volume(
    prefix: Seq<CatalogCell>,
    header: CatalogCell,
    between: Seq<CatalogCell>,
    cell: CatalogCell,
    base: Seq<char>,
)
    requires
        has_token(or_empty(header.class), "vcss"@),
        forall|k: int|
            0 <= k < between.len() ==> !has_token(or_empty(#[trigger] between[k].class), "vcss"@),
        !has_token(or_empty(cell.class), "vcss"@),
        has_token(or_empty(cell.class), "ccss"@),
        cell.link matches Some(link) && link.href matches Some(h) && contains(
            spec_resolve_url(base, h@),
            "reader.php?"@,
        ) && contains(spec_resolve_url(base, h@), "cid="@) && trim(or_empty(link.text)).len() > 0,
    ensures
        ({
            let r = spec_parse_chapters(prefix + seq![header] + between + seq![cell], base);
            let v = trim(or_empty(header.text));
            let t = trim(or_empty(cell.link->0.text));
            &&& r.len() > 0
            &&& r[0].title == Some(
                if v.len() == 0 {
                    t
                } else {
                    v + " — "@ + t
                },
            )
            &&& r[0].key == spec_resolve_url(base, cell.link->0.href->0@)
        }),
{
    let pre = prefix + seq![header];
    assert(pre.drop_last() =~= prefix);
    assert(pre.last() == header);
    lemma_fold_keeps_volume(pre, between, base);
    let before = pre + between;
    let all = prefix + seq![header] + between + seq![cell];
    assert(all =~= before + seq![cell]);
    assert(all.drop_last() =~= before);
    assert(all.last() == cell);
    let st = catalog_fold(before, base);
    let f = catalog_fold(all, base).1;
    assert(f == st.1.push(f[f.len() - 1]));
    assert(f.reverse()[0] == f[f.len() - 1]);
}

/// Law: a chapter with no volume header (`vcss` cell) before it is titled by
/// its own trimmed title alone.
pub proof fn lemma_chapter_without_volume(
    before: Seq<CatalogCell>,
    cell: CatalogCell,
    base: Seq<char>,
)
    requires
        forall|k: int|
            0 <= k < before.len() ==> !has_token(or_empty(#[trigger] before[k].class), "vcss"@),
        !has_token(or_empty(cell.class), "vcss"@),
        has_token(or_empty(cell.class), "ccss"@),
        cell.link matches Some(link) && link.href matches Some(h) && contains(
            spec_resolve_url(base, h@),
            "reader.php?"@,
        ) && contains(spec_resolve_url(base, h@), "cid="@) && trim(or_empty(link.text)).len() > 0,
    ensures
        ({
            let r = spec_parse_chapters(before + seq![cell], base);
            r.len() > 0 && r[0].title == Some(trim(or_empty(cell.link->0.text)))
        }),
{
    let empty = Seq::<CatalogCell>::empty();
    lemma_fold_keeps_volume(empty, before, base);
    assert(empty + before =~= before);
    let all = before + seq![cell];
    assert(all.drop_last() =~= before);
    assert(all.last() == cell);
    let f = catalog_fold(all, base).1;
    assert(f.reverse()[0] == f[f.len() - 1]);
}

/// The chapters listed in a catalog page at `catalog_url`, newest first. The
/// oldest chapter is number 1, and each is one past the one before it; each
/// is read at its key, which is a reader address, has a title of the catalog's
/// shape and is in Chinese.
pub fn parse_chapters(cells: &[CatalogCell], catalog_url: &str) -> (r: Vec<ChapterInfo>)
    ensures
        chapters_view(r@) == spec_parse_chapters(cells@, catalog_url@),
        forall|i: int|
            0 <= i < r@.len() ==> {
                &&& (#[trigger] r@[i]).chapter_number == r@.len() - i
                &&& contains(r@[i].key@, "reader.php?"@)
                &&& contains(r@[i].key@, "cid="@)
                &&& r@[i]@.url == Some(r@[i]@.key)
                &&& r@[i]@.language == Some("zh"@)
                &&& catalog_title(r@[i]@.title)
            },
{
    let mut volume = String::new();
    let mut chapters: Vec<ChapterInfo> = Vec::new();
    let mut i: usize = 0;
    while i < cells.len()
        invariant
            i <= cells@.len(),
            (volume@, chapters_view(chapters@)) == catalog_fold(cells@.take(i as int), catalog_url@),
            chapters@.len() <= i,
        decreases cells.len() - i,
    {
        proof {
            lemma_catalog_fold(cells@.take(i as int), catalog_url@);
            assert(cells@.take(i + 1).drop_last() == cells@.take(i as int));
            assert(cells@.take(i + 1).last() == cells@[i as int]);
        }
        let cell = &cells[i];
        let class = text_or_empty(&cell.class);
        let cls = chars_of(class.as_str());
        if has_token_exec(cls.as_slice(), "vcss") {
            let text = text_or_empty(&cell.text);
            volume = trim_string(text.as_str());
        } else if has_token_exec(cls.as_slice(), "ccss") {
            match &cell.link {
                None => {},
                Some(link) => {
                    let target = match &link.href {
                        Some(h) => Some(h),
                        None => match &link.abs_href {
                            Some(h) => Some(h),
                            None => None,
                        },
                    };
                    match target {
                        None => {},
                        Some(href) => {
                            let url = resolve_url(catalog_url, href.as_str());
                            let u = chars_of(url.as_str());
                            let link_text = text_or_empty(&link.text);
                            let title = trim_string(link_text.as_str());
                            if contains_exec(u.as_slice(), "reader.php?") && contains_exec(
                                u.as_slice(),
                                "cid=",
                            ) && !title.as_str().is_empty() {
                                let ghost before = chapters@;
                                let n = (chapters.len() + 1) as u64;
                                chapters.push(
                                    ChapterInfo {
                                        key: url.clone(),
                                        title: Some(join_title_exec(volume.as_str(), title.as_str())),
                                        chapter_number: n,
                                        volume_number: None,
                                        url: Some(url),
                                        language: Some("zh".to_owned()),
                                        published_at: None,
                                    },
                                );
                                proof {
                                    reveal_strlit("zh");
                                    assert(chapters_view(chapters@) =~= chapters_view(before).push(
                                        chapters@[before.len() as int]@,
                                    ));
                                }
                            }
                        },
                    }
                },
            }
        }
        i += 1;
    }
    proof {
        assert(cells@.take(cells@.len() as int) == cells@);
        lemma_catalog_fold(cells@, catalog_url@);
    }
    let r = reverse_chapters(chapters);
    proof {
        assert forall|i: int| 0 <= i < r@.len() implies {
            &&& (#[trigger] r@[i]).chapter_number == r@.len() - i
            &&& contains(r@[i].key@, "reader.php?"@)
            &&& contains(r@[i].key@, "cid="@)
            &&& r@[i]@.url == Some(r@[i]@.key)
            &&& r@[i]@.language == Some("zh"@)
            &&& catalog_title(r@[i]@.title)
        } by {
            let f = catalog_fold(cells@, catalog_url@).1;
            let n = r@.len();
            assert(chapters_view(r@).len() == n);
            assert(f.len() == n);
            assert(chapters_view(r@)[i] == r@[i]@);
            assert(f.reverse()[i] == f[n - 1 - i]);
        }
    }
    r
}


// ---------------------------------------------------------------------------
// Result grids
// ---------------------------------------------------------------------------

/// One entry of a result grid (`table.grid td > div`): the `abs:href` of its
/// first link to `/book/`, the `title` attribute and the text of its title
/// link (the first link with a title, else that link), its text and the
/// `abs:src` of its first image.
#[derive(Clone, Debug, PartialEq, Eq)]
pub struct GridItem {
    pub href: Option<String>,
    pub title_attr: Option<String>,
    pub title_text: Option<String>,
    pub text: Option<String>,
    pub cover: Option<String>,
}

/// A grid entry's title: the title attribute, else the link text, else empty.
pub open spec fn grid_title(item: GridItem) -> Seq<char> {
    match item.title_attr {
        Some(t) => t@,
        None => or_empty(item.title_text),
    }
}

/// Whether some novel in `entries` has the key `key`.
pub open spec fn has_key(entries: Seq<MangaView>, key: Seq<char>) -> bool {
    exists|j: int| 0 <= j < entries.len() && (#[trigger] entries[j]).key == key
}

/// One step through a result grid: an entry with a novel link, a key not seen
/// before and a non-empty title adds a novel.
pub open spec fn grid_step(entries: Seq<MangaView>, item: GridItem) -> Seq<MangaView> {
    match item.href {
        None => entries,
        Some(href) => match spec_book_key(href@) {
            None => entries,
            Some(key) => if has_key(entries, key) || grid_title(item).len() == 0 {
                entries
            } else {
                entries.push(
                    MangaView {
                        key,
                        title: grid_title(item),
                        cover: opt_view(item.cover),
                        authors: match spec_extract_between(
                            or_empty(item.text),
                            "作者:"@,
                            "/"@,
                        ) {
                            Some(author) => Some(seq![author]),
                            None => None,
                        },
                        description: None,
                        url: Some(href@),
                        tags: None,
                        status: MangaStatus::Unknown,
                        content_rating: ContentRating::Suggestive,
                    },
                )
            },
        },
    }
}

/// The novels of a result grid, in order.
pub open spec fn spec_parse_grid(items: Seq<GridItem>) -> Seq<MangaView>
    decreases items.len(),
{
    if items.len() == 0 {
        Seq::empty()
    } else {
        grid_step(spec_parse_grid(items.drop_last()), items.last())
    }
}

/// Law: the novels of a grid have distinct keys, and every key is an id.
pub proof fn lemma_grid_keys(items: Seq<GridItem>)
    ensures
        forall|i: int, j: int|
            0 <= i < j < spec_parse_grid(items).len() ==> (#[trigger] spec_parse_grid(items)[i]).key
                != (#[trigger] spec_parse_grid(items)[j]).key,
        forall|i: int|
            0 <= i < spec_parse_grid(items).len() ==> spec_is_id(
                (#[trigger] spec_parse_grid(items)[i]).key,
            ),
    decreases items.len(),
{
    if items.len() > 0 {
        lemma_grid_keys(items.drop_last());
        let before = spec_parse_grid(items.drop_last());
        let after = spec_parse_grid(items);
        if after.len() > before.len() {
            assert forall|i: int, j: int| 0 <= i < j < after.len() implies (#[trigger] after[i]).key
                != (#[trigger] after[j]).key by {
                assert(after[i] == before[i]);
                if j < before.len() {
                    assert(after[j] == before[j]);
                } else {
                    assert(!has_key(before, after[j].key));
                }
            }
            assert forall|i: int| 0 <= i < after.len() implies spec_is_id(
                (#[trigger] after[i]).key,
            ) by {
                if i < before.len() {
                    assert(after[i] == before[i]);
                }
            }
        }
    }
}

/// Whether one of `entries` has the key `key`.
fn has_key_exec(entries: &Vec<MangaInfo>, key: &String) -> (r: bool)
    ensures
        r == has_key(mangas_view(entries@), key@),
{
    let mut i: usize = 0;
    while i < entries.len()
        invariant
            i <= entries@.len(),
            forall|j: int| 0 <= j < i ==> (#[trigger] mangas_view(entries@)[j]).key != key@,
        decreases entries.len() - i,
    {
        if entries[i].key == *key {
            assert(mangas_view(entries@)[i as int].key == key@);
            return true;
        }
        i += 1;
    }
    false
}

/// The novels of a search or ranking result grid, in order, without repeats.
pub fn parse_grid(items: &[GridItem]) -> (r: Vec<MangaInfo>)
    ensures
        mangas_view(r@) == spec_parse_grid(items@),
        forall|i: int, j: int|
            0 <= i < j < r@.len() ==> (#[trigger] r@[i]).key@ != (#[trigger] r@[j]).key@,
{
    let mut entries: Vec<MangaInfo> = Vec::new();
    let mut i: usize = 0;
    while i < items.len()
        invariant
            i <= items@.len(),
            mangas_view(entries@) == spec_parse_grid(items@.take(i as int)),
        decreases items.len() - i,
    {
        proof {
            assert(items@.take(i + 1).drop_last() == items@.take(i as int));
            assert(items@.take(i + 1).last() == items@[i as int]);
        }
        let item = &items[i];
        if let Some(href) = &item.href {
            if let Some(key) = book_key(href.as_str()) {
                let title = match &item.title_attr {
                    Some(t) => t.clone(),
                    None => text_or_empty(&item.title_text),
                };
                if !has_key_exec(&entries, &key) && !title.as_str().is_empty() {
                    let text = text_or_empty(&item.text);
                    proof {
                        reveal_strlit("作者:");
                        reveal_strlit("/");
                    }
                    let authors = match extract_between(text.as_str(), "作者:", "/") {
                        Some(author) => {
                            let mut v: Vec<String> = Vec::new();
                            v.push(author);
                            assert(strings_view(v@) =~= seq![v@[0]@]);
                            Some(v)
                        },
                        None => None,
                    };
                    let cover = match &item.cover {
                        Some(c) => Some(c.clone()),
                        None => None,
                    };
                    let ghost before = entries@;
                    entries.push(
                        MangaInfo {
                            key,
                            title,
                            cover,
                            authors,
                            description: None,
                            url: Some(href.clone()),
                            tags: None,
                            status: MangaStatus::Unknown,
                            content_rating: ContentRating::Suggestive,
                        },
                    );
                    assert(mangas_view(entries@) =~= mangas_view(before).push(
                        entries@[before.len() as int]@,
                    ));
                }
            }
        }
        i += 1;
    }
    proof {
        assert(items@.take(items@.len() as int) == items@);
        lemma_grid_keys(items@);
        assert forall|i: int, j: int| 0 <= i < j < entries@.len() implies (
        #[trigger] entries@[i]).key@ != (#[trigger] entries@[j]).key@ by {
            assert(mangas_view(entries@)[i] == entries@[i]@);
            assert(mangas_view(entries@)[j] == entries@[j]@);
        }
    }
    entries
}


// ---------------------------------------------------------------------------
// Detail pages
// ---------------------------------------------------------------------------

/// What the detail page shows: the title (`#content span b`), the texts of
/// the table cells holding 文章状态 and 小说作者, the text of the 作品Tags
/// line, the cover's `abs:src`, and the texts of the `#content span`s in order.
#[derive(Clone, Debug, PartialEq, Eq)]
pub struct DetailPage {
    pub title: Option<String>,
    pub status_cell: Option<String>,
    pub author_cell: Option<String>,
    pub tags_line: Option<String>,
    pub cover: Option<String>,
    pub span_texts: Vec<String>,
}

/// What follows the first full-width colon, or else the first ASCII colon.
pub open spec fn after_colon(v: Seq<char>) -> Option<Seq<char>> {
    match find(v, "："@) {
        Some(i) => Some(v.skip(i + 1)),
        None => match find(v, ":"@) {
            Some(i) => Some(v.skip(i + 1)),
            None => None,
        },
    }
}

/// The non-blank pieces, trimmed.
pub open spec fn clean_tags(parts: Seq<Seq<char>>) -> Seq<Seq<char>>
    decreases parts.len(),
{
    if parts.len() == 0 {
        Seq::empty()
    } else if trim(parts.last()).len() == 0 {
        clean_tags(parts.drop_last())
    } else {
        clean_tags(parts.drop_last()).push(trim(parts.last()))
    }
}

/// The tags on a 作品Tags line: the text after its colon cut at spaces,
/// slashes, `、` and commas, blank pieces dropped, each trimmed.
pub open spec fn detail_tags(line: Option<String>) -> Seq<Seq<char>> {
    match line {
        None => Seq::empty(),
        Some(v) => match after_colon(v@) {
            None => Seq::empty(),
            Some(value) => clean_tags(split_class(value, CharClass::TagSeparator)),
        },
    }
}

/// The first text from index `i` on longer than 80 bytes in UTF-8.
pub open spec fn first_long_from(texts: Seq<String>, i: int) -> Option<Seq<char>>
    decreases texts.len() - i,
{
    if i < 0 || i >= texts.len() {
        None
    } else if utf8_len(texts[i]@) > 80 {
        Some(texts[i]@)
    } else {
        first_long_from(texts, i + 1)
    }
}

/// The status that a status text gives: completed when it says 已完 or 完結.
pub open spec fn detail_status(text: Seq<char>) -> MangaStatus {
    if contains(text, "已完"@) || contains(text, "完結"@) {
        MangaStatus::Completed
    } else {
        MangaStatus::Ongoing
    }
}

/// The value of a table cell, if there is a cell and it has a colon.
pub open spec fn field_of(cell: Option<String>) -> Option<Seq<char>> {
    match cell {
        Some(c) => spec_field_value(c@),
        None => None,
    }
}

/// The novel `key` as its detail page describes it; `None` when the page has
/// no title.
pub open spec fn spec_parse_detail(page: DetailPage, key: Seq<char>) -> Option<MangaView> {
    match page.title {
        None => None,
        Some(title) => if title@.len() == 0 {
            None
        } else {
            let tags = detail_tags(page.tags_line);
            Some(
                MangaView {
                    key,
                    title: title@,
                    cover: match page.cover {
                        Some(c) => Some(replace(c@, "http://"@, "https://"@)),
                        None => None,
                    },
                    authors: match field_of(page.author_cell) {
                        Some(a) => Some(seq![a]),
                        None => None,
                    },
                    description: first_long_from(page.span_texts@, 0),
                    url: Some(spec_book_url(key)),
                    tags: if tags.len() == 0 {
                        None
                    } else {
                        Some(tags)
                    },
                    status: detail_status(
                        match field_of(page.status_cell) {
                            Some(s) => s,
                            None => Seq::empty(),
                        },
                    ),
                    content_rating: ContentRating::Suggestive,
                },
            )
        },
    }
}

/// The value of the table cell `cell`, if there is one.
fn field_of_exec(cell: &Option<String>) -> (r: Option<String>)
    ensures
        opt_view(r) == field_of(*cell),
{
    match cell {
        Some(c) => field_value(c.as_str()),
        None => None,
    }
}

/// The tags on a 作品Tags line.
pub fn parse_tags(line: &Option<String>) -> (r: Vec<String>)
    ensures
        strings_view(r@) == detail_tags(*line),
{
    let mut out: Vec<String> = Vec::new();
    let v = match line {
        Some(v) => v,
        None => {
            assert(strings_view(out@) =~= Seq::<Seq<char>>::empty());
            return out;
        },
    };
    let cs = chars_of(v.as_str());
    let full = chars_of("：");
    let ascii = chars_of(":");
    proof {
        reveal_strlit("：");
        reveal_strlit(":");
        lemma_find_from_bounds(v@, full@, 0);
        lemma_find_from_bounds(v@, ascii@, 0);
    }
    let start = match find_from_exec(cs.as_slice(), full.as_slice(), 0) {
        Some(i) => {
            assert(i < cs.len());
            i + 1
        },
        None => match find_from_exec(cs.as_slice(), ascii.as_slice(), 0) {
            Some(i) => {
                assert(i < cs.len());
                i + 1
            },
            None => {
                assert(strings_view(out@) =~= Seq::<Seq<char>>::empty());
                return out;
            },
        },
    };
    let value = slice_range(cs.as_slice(), start, cs.len());
    assert(after_colon(v@) == Some(value@));
    let parts = split_class_exec(value.as_slice(), CharClass::TagSeparator);
    let ghost pv = views(parts@);
    let mut i: usize = 0;
    while i < parts.len()
        invariant
            i <= parts@.len(),
            pv == views(parts@),
            strings_view(out@) == clean_tags(pv.take(i as int)),
        decreases parts.len() - i,
    {
        proof {
            assert(pv.take(i + 1).drop_last() == pv.take(i as int));
            assert(pv.take(i + 1).last() == parts@[i as int]@);
        }
        let (a, b) = trim_bounds(parts[i].as_slice(), CharClass::Whitespace);
        if a < b {
            let ghost before = out@;
            out.push(string_of_range(parts[i].as_slice(), a, b));
            assert(strings_view(out@) =~= strings_view(before).push(out@[before.len() as int]@));
        }
        i += 1;
    }
    assert(pv.take(pv.len() as int) == pv);
    out
}

/// The first text longer than 80 bytes in UTF-8, if any: the synopsis.
pub fn first_long_text(texts: &Vec<String>) -> (r: Option<String>)
    ensures
        opt_view(r) == first_long_from(texts@, 0),
{
    let mut i: usize = 0;
    while i < texts.len()
        invariant
            i <= texts@.len(),
            first_long_from(texts@, 0) == first_long_from(texts@, i as int),
        decreases texts.len() - i,
    {
        if utf8_longer_than(texts[i].as_str(), 80) {
            return Some(texts[i].clone());
        }
        i += 1;
    }
    None
}

/// The novel `key` as its detail page describes it; `None` when the page has
/// no title.
pub fn parse_detail(page: &DetailPage, key: &str) -> (r: Option<MangaInfo>)
    ensures
        match r {
            Some(m) => spec_parse_detail(*page, key@) == Some(m@),
            None => spec_parse_detail(*page, key@) is None,
        },
{
    let title = match &page.title {
        Some(t) => t,
        None => return None,
    };
    if title.as_str().is_empty() {
        return None;
    }
    let status_text = match field_of_exec(&page.status_cell) {
        Some(s) => s,
        None => String::new(),
    };
    let st = chars_of(status_text.as_str());
    let status = if contains_exec(st.as_slice(), "已完") || contains_exec(st.as_slice(), "完結") {
        MangaStatus::Completed
    } else {
        MangaStatus::Ongoing
    };
    let tags = parse_tags(&page.tags_line);
    let tags = if tags.len() == 0 {
        None
    } else {
        Some(tags)
    };
    proof {
        reveal_strlit("http://");
    }
    let cover = match &page.cover {
        Some(c) => Some(replace_exec(c.as_str(), "http://", "https://")),
        None => None,
    };
    let authors = match field_of_exec(&page.author_cell) {
        Some(a) => {
            let mut v: Vec<String> = Vec::new();
            v.push(a);
            assert(strings_view(v@) =~= seq![v@[0]@]);
            Some(v)
        },
        None => None,
    };
    Some(
        MangaInfo {
            key: key.to_owned(),
            title: title.clone(),
            cover,
            authors,
            description: first_long_text(&page.span_texts),
            url: Some(book_url(key)),
            tags,
            status,
            content_rating: ContentRating::Suggestive,
        },
    )
}


// ---------------------------------------------------------------------------
// Search and browse
// ---------------------------------------------------------------------------

/// A page number of at least 1 (`page.max(1)`).
pub open spec fn clamp_page(page: i32) -> i32 {
    if page < 1 {
        1
    } else {
        page
    }
}

/// The address to fetch for a search with `query` (when it is not blank) or
/// for the latest updates, on page `page`.
pub open spec fn spec_search_url(query: Option<Seq<char>>, page: i32) -> Seq<char> {
    let p = decimal(clamp_page(page) as nat);
    if query is Some && trim(query->0).len() > 0 {
        base_url() + "/modules/article/search.php?searchtype=articlename&searchkey="@
            + percent_encoded(gbk_encoding(query->0)) + "&page="@ + p
    } else {
        base_url() + "/modules/article/toplist.php?sort=lastupdate&page="@ + p
    }
}

/// The address to fetch for a search or for the latest updates.
pub fn search_url(query: &Option<String>, page: i32) -> (r: String)
    ensures
        r@ == spec_search_url(opt_view(*query), page),
{
    let page = if page < 1 {
        1
    } else {
        page
    };
    let digits = decimal_string(page as u64);
    let mut out = String::new();
    out.append("https://www.wenku8.net");
    match query {
        Some(q) if !trim_string(q.as_str()).as_str().is_empty() => {
            out.append("/modules/article/search.php?searchtype=articlename&searchkey=");
            let key = percent_encode_gbk(q.as_str());
            out.append(key.as_str());
            out.append("&page=");
        },
        _ => {
            out.append("/modules/article/toplist.php?sort=lastupdate&page=");
        },
    }
    out.append(digits.as_str());
    out
}

/// Whether one of the page links points at the page after `page`
/// (`#pagelink a[href*='page={next}']`).
pub open spec fn spec_has_next_page(hrefs: Seq<String>, page: i32) -> bool {
    exists|i: int|
        0 <= i < hrefs.len() && contains(
            (#[trigger] hrefs[i])@,
            "page="@ + decimal((clamp_page(page) + 1) as nat),
        )
}

/// Whether the page links hold one to the page after `page`.
pub fn has_next_page(pagelink_hrefs: &Vec<String>, page: i32) -> (r: bool)
    requires
        page < i32::MAX,
    ensures
        r == spec_has_next_page(pagelink_hrefs@, page),
{
    let next = if page < 1 {
        2
    } else {
        page + 1
    };
    let mut needle = String::new();
    needle.append("page=");
    push_decimal(&mut needle, next as u64);
    let mut i: usize = 0;
    while i < pagelink_hrefs.len()
        invariant
            i <= pagelink_hrefs@.len(),
            needle@ == "page="@ + decimal((clamp_page(page) + 1) as nat),
            forall|j: int|
                0 <= j < i ==> !contains(
                    (#[trigger] pagelink_hrefs@[j])@,
                    "page="@ + decimal((clamp_page(page) + 1) as nat),
                ),
        decreases pagelink_hrefs.len() - i,
    {
        if str_contains(pagelink_hrefs[i].as_str(), needle.as_str()) {
            return true;
        }
        i += 1;
    }
    false
}

/// The novels of a result page: its grid, or, when the grid is empty and the
/// site jumped straight to a novel's page, that novel.
pub open spec fn spec_search_entries(
    items: Seq<GridItem>,
    vote_href: Option<String>,
    page: DetailPage,
) -> Seq<MangaView> {
    let grid = spec_parse_grid(items);
    if grid.len() > 0 {
        grid
    } else {
        match vote_href {
            None => grid,
            Some(h) => match spec_detail_book_key(h@) {
                None => grid,
                Some(key) => match spec_parse_detail(page, key) {
                    None => grid,
                    Some(m) => seq![m],
                },
            },
        }
    }
}

/// The novels of a search or ranking page. `vote_href` is the `href` of the
/// page's first `uservote.php?id=` link, `page` what it shows as a detail page.
pub fn search_entries(items: &[GridItem], vote_href: &Option<String>, page: &DetailPage) -> (r: Vec<
    MangaInfo,
>)
    ensures
        mangas_view(r@) == spec_search_entries(items@, *vote_href, *page),
{
    let mut entries = parse_grid(items);
    if entries.len() == 0 {
        if let Some(h) = vote_href {
            if let Some(key) = detail_book_key(h.as_str()) {
                if let Some(m) = parse_detail(page, key.as_str()) {
                    let ghost before = entries@;
                    entries.push(m);
                    assert(mangas_view(entries@) =~= seq![entries@[0]@]);
                }
            }
        }
    }
    entries
}

// ---------------------------------------------------------------------------
// Chapter text and responses
// ---------------------------------------------------------------------------

/// The chapter text without the site's four notices.
pub open spec fn strip_notices(s: Seq<char>) -> Seq<char> {
    replace(
        replace(
            replace(
                replace(s, "本文来自 轻小说文库(http://www.wenku8.com)"@, ""@),
                "台版 转自 轻之国度"@,
                ""@,
            ),
            "最新最全的日本动漫轻小说 轻小说文库(http://www.wenku8.com) 为你一网打尽！"@,
            ""@,
        ),
        "更多精彩热门日本轻小说、动漫小说，轻小说文库(http://www.wenku8.com) 为你一网打尽！"@,
        ""@,
    )
}

/// The site's notices, numbered 0 to 3.
pub open spec fn site_notice(j: int) -> Seq<char> {
    if j == 0 {
        "本文来自 轻小说文库(http://www.wenku8.com)"@
    } else if j == 1 {
        "台版 转自 轻之国度"@
    } else if j == 2 {
        "最新最全的日本动漫轻小说 轻小说文库(http://www.wenku8.com) 为你一网打尽！"@
    } else {
        "更多精彩热门日本轻小说、动漫小说，轻小说文库(http://www.wenku8.com) 为你一网打尽！"@
    }
}

/// `s` without the `n` characters at `k`.
pub open spec fn cut(s: Seq<char>, k: int, n: int) -> Seq<char> {
    s.take(k) + s.skip(k + n)
}

proof fn lemma_replace_absent(s: Seq<char>, pat: Seq<char>, rep: Seq<char>)
    requires
        pat.len() > 0,
        forall|p: int| !#[trigger] matches_at(s, pat, p),
    ensures
        replace(s, pat, rep) == s,
{
    lemma_find_from_none(s, pat, 0);
    assert(s.subrange(0, s.len() as int) =~= s);
}

proof fn lemma_replace_once(s: Seq<char>, pat: Seq<char>, k: int)
    requires
        pat.len() > 0,
        matches_at(s, pat, k),
        forall|p: int| #[trigger] matches_at(s, pat, p) ==> p == k,
    ensures
        replace(s, pat, Seq::empty()) == cut(s, k, pat.len() as int),
{
    lemma_find_from_at(s, pat, 0, k);
    lemma_find_from_none(s, pat, k + pat.len());
    let e = Seq::<char>::empty();
    assert(replace_from(s, pat, e, k + pat.len()) == s.subrange(k + pat.len(), s.len() as int));
    assert(replace_from(s, pat, e, 0) == s.subrange(0, k) + e + replace_from(
        s,
        pat,
        e,
        k + pat.len(),
    ));
    assert(s.subrange(0, k) + e + s.subrange(k + pat.len(), s.len() as int) =~= cut(
        s,
        k,
        pat.len() as int,
    ));
}

/// Law: where the Markdown of a chapter holds one of the site's notices
/// exactly once, and neither it nor what is left once that notice is cut out
/// holds any other notice, the chapter's text is the Markdown with the notice
/// cut out, trimmed (nothing when that is empty or `null`).
pub proof fn lemma_chapter_text_drops_notice(container: Seq<HtmlNode>, j: int, k: int)
    requires
        0 <= j < 4,
        matches_at(md_nodes(container, Flavor::Wenku8), site_notice(j), k),
        forall|p: int|
            #[trigger] matches_at(md_nodes(container, Flavor::Wenku8), site_notice(j), p) ==> p
                == k,
        forall|i: int, p: int|
            0 <= i < 4 && i != j ==> !#[trigger] matches_at(
                md_nodes(container, Flavor::Wenku8),
                site_notice(i),
                p,
            ),
        forall|i: int, p: int|
            0 <= i < 4 && i != j ==> !#[trigger] matches_at(
                cut(md_nodes(container, Flavor::Wenku8), k, site_notice(j).len() as int),
                site_notice(i),
                p,
            ),
    ensures
        ({
            let t = trim(
                cut(md_nodes(container, Flavor::Wenku8), k, site_notice(j).len() as int),
            );
            spec_chapter_text(container) == if t.len() == 0 || t == "null"@ {
                None
            } else {
                Some(t)
            }
        }),
{
    reveal_strlit("本文来自 轻小说文库(http://www.wenku8.com)");
    reveal_strlit("台版 转自 轻之国度");
    reveal_strlit("最新最全的日本动漫轻小说 轻小说文库(http://www.wenku8.com) 为你一网打尽！");
    reveal_strlit("更多精彩热门日本轻小说、动漫小说，轻小说文库(http://www.wenku8.com) 为你一网打尽！");
    let md = md_nodes(container, Flavor::Wenku8);
    let r = cut(md, k, site_notice(j).len() as int);
    let e = Seq::<char>::empty();
    reveal_strlit("");
    assert(""@ =~= e);
    assert forall|i: int| 0 <= i < 4 implies site_notice(i).len() > 0 by {}
    if j == 0 {
        lemma_replace_once(md, site_notice(0), k);
        lemma_replace_absent(r, site_notice(1), e);
        lemma_replace_absent(r, site_notice(2), e);
        lemma_replace_absent(r, site_notice(3), e);
    } else if j == 1 {
        lemma_replace_absent(md, site_notice(0), e);
        lemma_replace_once(md, site_notice(1), k);
        lemma_replace_absent(r, site_notice(2), e);
        lemma_replace_absent(r, site_notice(3), e);
    } else if j == 2 {
        lemma_replace_absent(md, site_notice(0), e);
        lemma_replace_absent(md, site_notice(1), e);
        lemma_replace_once(md, site_notice(2), k);
        lemma_replace_absent(r, site_notice(3), e);
    } else {
        lemma_replace_absent(md, site_notice(0), e);
        lemma_replace_absent(md, site_notice(1), e);
        lemma_replace_absent(md, site_notice(2), e);
        lemma_replace_once(md, site_notice(3), k);
    }
    assert(strip_notices(md) == r);
}

/// The text of a chapter whose `#content` holds `container`: its Markdown
/// without the site's notices, trimmed; `None` when that is empty or `null`.
pub open spec fn spec_chapter_text(container: Seq<HtmlNode>) -> Option<Seq<char>> {
    let t = trim(strip_notices(md_nodes(container, Flavor::Wenku8)));
    if t.len() == 0 || t == "null"@ {
        None
    } else {
        Some(t)
    }
}

/// The text of a chapter page, from the child nodes of its `#content` (with
/// `#contentdp`, `#title`, `#footlink`, scripts and styles removed). `None`
/// stands for "chapter text not available on desktop site".
pub fn chapter_text(container: &[HtmlNode]) -> (r: Option<String>)
    ensures
        opt_view(r) == spec_chapter_text(container@),
{
    let mut output = String::new();
    convert_children(container, Flavor::Wenku8, &mut output);
    proof {
        reveal_strlit("本文来自 轻小说文库(http://www.wenku8.com)");
        reveal_strlit("台版 转自 轻之国度");
        reveal_strlit("最新最全的日本动漫轻小说 轻小说文库(http://www.wenku8.com) 为你一网打尽！");
        reveal_strlit("更多精彩热门日本轻小说、动漫小说，轻小说文库(http://www.wenku8.com) 为你一网打尽！");
    }
    let output = replace_exec(output.as_str(), "本文来自 轻小说文库(http://www.wenku8.com)", "");
    let output = replace_exec(output.as_str(), "台版 转自 轻之国度", "");
    let output = replace_exec(
        output.as_str(),
        "最新最全的日本动漫轻小说 轻小说文库(http://www.wenku8.com) 为你一网打尽！",
        "",
    );
    let output = replace_exec(
        output.as_str(),
        "更多精彩热门日本轻小说、动漫小说，轻小说文库(http://www.wenku8.com) 为你一网打尽！",
        "",
    );
    let output = trim_string(output.as_str());
    if output.as_str().is_empty() || str_eq(output.as_str(), "null") {
        None
    } else {
        Some(output)
    }
}

/// The verdict on a response: 403 or a `cf-mitigated: challenge` header is a
/// block, any other status outside 200..400 an HTTP error.
pub open spec fn spec_check_response(status: i32, cf_mitigated: Option<Seq<char>>) -> Result<
    (),
    SourceError,
> {
    if status == 403 || cf_mitigated == Some("challenge"@) {
        Err(SourceError::Blocked)
    } else if !(200 <= status < 400) {
        Err(SourceError::Http(status))
    } else {
        Ok(())
    }
}

/// Whether a response with status `status` and `cf-mitigated` header
/// `cf_mitigated` may be read.
pub fn check_response(status: i32, cf_mitigated: &Option<String>) -> (r: Result<(), SourceError>)
    ensures
        r == spec_check_response(status, opt_view(*cf_mitigated)),
{
    let challenged = match cf_mitigated {
        Some(v) => str_eq(v.as_str(), "challenge"),
        None => false,
    };
    if status == 403 || challenged {
        Err(SourceError::Blocked)
    } else if !(200 <= status && status < 400) {
        Err(SourceError::Http(status))
    } else {
        Ok(())
    }
}

/// Whether a page is a Cloudflare challenge: it has a challenge element, or
/// its title says "Just a moment".
pub open spec fn spec_is_cloudflare_challenge(has_challenge_element: bool, title: Option<Seq<char>>) -> bool {
    has_challenge_element || (title is Some && contains(title->0, "Just a moment"@))
}

/// Whether a page is a Cloudflare challenge.
pub fn is_cloudflare_challenge(has_challenge_element: bool, title: &Option<String>) -> (r: bool)
    ensures
        r == spec_is_cloudflare_challenge(has_challenge_element, opt_view(*title)),
{
    has_challenge_element || match title {
        Some(t) => str_contains(t.as_str(), "Just a moment"),
        None => false,
    }
}

/// The chapters of the novel `key` from its catalog page: `InvalidNovelId`
/// when the key is no `u32`, `NoChapters` when the catalog lists none.
pub open spec fn spec_catalog_chapters(cells: Seq<CatalogCell>, key: Seq<char>) -> Result<
    Seq<ChapterView>,
    SourceError,
> {
    match spec_catalog_url(key) {
        None => Err(SourceError::InvalidNovelId),
        Some(url) => {
            let chapters = spec_parse_chapters(cells, url);
            if chapters.len() == 0 {
                Err(SourceError::NoChapters)
            } else {
                Ok(chapters)
            }
        },
    }
}

/// The chapters of the novel `key`, read from the cells of the catalog page
/// at `catalog_url(key)`.
pub fn catalog_chapters(cells: &[CatalogCell], key: &str) -> (r: Result<Vec<ChapterInfo>, SourceError>)
    ensures
        match r {
            Ok(v) => spec_catalog_chapters(cells@, key@) == Ok::<Seq<ChapterView>, SourceError>(
                chapters_view(v@),
            ),
            Err(e) => spec_catalog_chapters(cells@, key@) == Err::<Seq<ChapterView>, SourceError>(e),
        },
{
    match catalog_url(key) {
        None => Err(SourceError::InvalidNovelId),
        Some(url) => {
            let chapters = parse_chapters(cells, url.as_str());
            if chapters.len() == 0 {
                Err(SourceError::NoChapters)
            } else {
                Ok(chapters)
            }
        },
    }
}

// ---------------------------------------------------------------------------
// Laws
// ---------------------------------------------------------------------------

/// Law: the novel id read from a detail-page address, as the library writes
/// it, is the novel's own.
pub proof fn lemma_book_key_round_trip(key: Seq<char>)
    requires
        spec_is_id(key),
    ensures
        spec_book_key(spec_book_url(key)) == Some(key),
{
    reveal_strlit("https://www.wenku8.net");
    reveal_strlit("/book/");
    reveal_strlit(".htm");
    let u = spec_book_url(key);
    let n = key.len() as int;
    let pat = "/book/"@;
    assert(u.len() == 32 + n);
    assert(u.subrange(22, 28) =~= pat);
    assert forall|i: int| 0 <= i < 22 implies !#[trigger] matches_at(u, pat, i) by {
        if matches_at(u, pat, i) {
            lemma_matches_char(u, pat, i, 0);
            lemma_matches_char(u, pat, i, 1);
        }
    }
    lemma_find_from_at(u, pat, 0, 22);
    assert forall|i: int| 28 <= i implies !#[trigger] matches_at(u, pat, i) by {
        if matches_at(u, pat, i) {
            lemma_matches_char(u, pat, i, 0);
            if i < 28 + n {
                assert(u[i] == key[i - 28]);
                assert(is_ascii_digit(key[i - 28]));
            }
        }
    }
    lemma_find_from_none(u, pat, 28);
    let parts = split(u, pat);
    assert(parts == seq![u.subrange(0, 22)] + split_from(u, pat, 28));
    assert(parts =~= seq![u.subrange(0, 22), u.subrange(28, u.len() as int)]);
    let seg = u.subrange(28, u.len() as int);
    assert(seg =~= key + ".htm"@);
    assert forall|j: int| 0 <= j < seg.len() implies !#[trigger] in_class(
        seg[j],
        CharClass::QueryStart,
    ) by {
        if j < n {
            assert(seg[j] == key[j]);
            assert(is_ascii_digit(key[j]));
        }
    }
    lemma_strip_query_plain(seg);
    assert(is_ascii_digit(key[n - 1]));
    lemma_trim_end_pat_once(key, ".htm"@);
}

/// Law: a link to a chapter page `/novel/{group}/{id}/{chapter}.htm` points
/// at that chapter, under its path, of the novel `id`.
#[verifier::rlimit(80)]
pub proof fn lemma_chapter_link(group: Seq<char>, id: Seq<char>, chapter: Seq<char>)
    requires
        spec_is_id(group),
        spec_is_id(id),
        spec_is_id(chapter),
    ensures
        ({
            let path = "/novel/"@ + group + "/"@ + id + "/"@ + chapter + ".htm"@;
            deep_link(base_url() + path) == Some(
                DeepLinkView::Chapter { manga_key: id, key: path },
            )
        }),
{
    reveal_strlit("https://www.wenku8.net");
    reveal_strlit("/novel/");
    reveal_strlit("novel/");
    reveal_strlit("novel");
    reveal_strlit("/book/");
    reveal_strlit(".htm");
    reveal_strlit("/");
    reveal_strlit("wenku8.net");
    let (g, d, c) = (group, id, chapter);
    let ng = g.len() as int;
    let nd = d.len() as int;
    let nc = c.len() as int;
    let path = "/novel/"@ + g + "/"@ + d + "/"@ + c + ".htm"@;
    let u = base_url() + path;
    assert(path.len() == 13 + ng + nd + nc);
    assert(u.len() == 35 + ng + nd + nc);
    assert forall|j: int| 0 <= j < u.len() implies !#[trigger] in_class(
        u[j],
        CharClass::QueryStart,
    ) by {
        if 29 <= j < 29 + ng {
            assert(u[j] == g[j - 29]);
            assert(is_ascii_digit(g[j - 29]));
        } else if 30 + ng <= j < 30 + ng + nd {
            assert(u[j] == d[j - 30 - ng]);
            assert(is_ascii_digit(d[j - 30 - ng]));
        } else if 31 + ng + nd <= j < 31 + ng + nd + nc {
            assert(u[j] == c[j - 31 - ng - nd]);
            assert(is_ascii_digit(c[j - 31 - ng - nd]));
        }
    }
    lemma_strip_query_plain(u);
    let w = "wenku8.net"@;
    assert(u.subrange(12, 22) =~= w);
    assert forall|i: int| 12 < i implies !#[trigger] matches_at(u, w, i) by {
        if matches_at(u, w, i) {
            lemma_matches_first_char(u, w, i);
            if 29 <= i < 29 + ng {
                assert(u[i] == g[i - 29]);
                assert(is_ascii_digit(g[i - 29]));
            } else if 30 + ng <= i < 30 + ng + nd {
                assert(u[i] == d[i - 30 - ng]);
                assert(is_ascii_digit(d[i - 30 - ng]));
            } else if 31 + ng + nd <= i < 31 + ng + nd + nc {
                assert(u[i] == c[i - 31 - ng - nd]);
                assert(is_ascii_digit(c[i - 31 - ng - nd]));
            }
        }
    }
    lemma_rfind_at(u, w, 12);
    assert(u.skip(22) =~= path);
    assert(site_path(u, w) == path);
    // not a detail-page path
    assert(path[1] == 'n');
    assert("/book/"@[1] == 'b');
    assert(!starts_with(path, "/book/"@)) by {
        if starts_with(path, "/book/"@) {
            assert(path.take(6)[1] == path[1]);
        }
    }
    // the four pieces
    assert(is_ascii_digit(c[nc - 1]));
    lemma_trim_one_leading_slash(path);
    let t = path.skip(1);
    assert(t =~= "novel/"@ + g + "/"@ + d + "/"@ + c + ".htm"@);
    assert forall|j: int| 6 <= j < 6 + ng implies #[trigger] t[j] != '/' by {
        assert(t[j] == g[j - 6]);
        assert(is_ascii_digit(g[j - 6]));
    }
    assert forall|j: int| 7 + ng <= j < 7 + ng + nd implies #[trigger] t[j] != '/' by {
        assert(t[j] == d[j - 7 - ng]);
        assert(is_ascii_digit(d[j - 7 - ng]));
    }
    assert forall|j: int| 8 + ng + nd <= j < t.len() implies #[trigger] t[j] != '/' by {
        if j < 8 + ng + nd + nc {
            assert(t[j] == c[j - 8 - ng - nd]);
            assert(is_ascii_digit(c[j - 8 - ng - nd]));
        }
    }
    lemma_split_slash_at(t, 0, 5);
    lemma_split_slash_at(t, 6, 6 + ng);
    lemma_split_slash_at(t, 7 + ng, 7 + ng + nd);
    lemma_split_slash_last(t, 8 + ng + nd);
    assert("/"@ =~= seq!['/']);
    let parts = split(t, "/"@);
    assert(parts =~= seq![
        t.subrange(0, 5),
        t.subrange(6, 6 + ng),
        t.subrange(7 + ng, 7 + ng + nd),
        t.subrange(8 + ng + nd, t.len() as int),
    ]);
    assert(t.subrange(0, 5) =~= "novel"@);
    assert(t.subrange(7 + ng, 7 + ng + nd) =~= d);
    let last = t.subrange(8 + ng + nd, t.len() as int);
    assert(last =~= c + ".htm"@);
    assert(last.skip(last.len() - 4) =~= ".htm"@);
    assert(path.take(1) =~= "/"@);
}

/// Law: a query or a fragment does not change where a link points.
pub proof fn lemma_deep_link_ignores_query(url: Seq<char>, c: char, rest: Seq<char>)
    requires
        forall|j: int| 0 <= j < url.len() ==> !#[trigger] in_class(url[j], CharClass::QueryStart),
        c == '?' || c == '#',
    ensures
        deep_link(url.push(c) + rest) == deep_link(url),
{
    lemma_site_path_ignores_query(url, c, rest, "wenku8.net"@);
}

/// Law: reading one more grid entry adds a novel at the end exactly when the
/// entry links to a novel page not listed yet and has a title (its title
/// attribute, else its link text); the novel has that key, title, cover and
/// address, the author named after `作者:`, and is rated suggestive.
pub proof fn lemma_grid_append(items: Seq<GridItem>, item: GridItem)
    ensures
        ({
            let before = spec_parse_grid(items);
            let after = spec_parse_grid(items.push(item));
            let title = if item.title_attr is Some {
                item.title_attr->0@
            } else if item.title_text is Some {
                item.title_text->0@
            } else {
                Seq::empty()
            };
            match item.href {
                Some(href) => match spec_book_key(href@) {
                    Some(key) => if title.len() > 0 && forall|j: int|
                        0 <= j < before.len() ==> (#[trigger] before[j]).key != key {
                        &&& after.len() == before.len() + 1
                        &&& after.take(before.len() as int) == before
                        &&& after.last().key == key
                        &&& after.last().title == title
                        &&& after.last().url == Some(href@)
                        &&& after.last().cover == opt_view(item.cover)
                        &&& after.last().authors == match spec_extract_between(
                            or_empty(item.text),
                            "作者:"@,
                            "/"@,
                        ) {
                            Some(a) => Some(seq![a]),
                            None => None,
                        }
                        &&& after.last().content_rating == ContentRating::Suggestive
                    } else {
                        after == before
                    },
                    None => after == before,
                },
                None => after == before,
            }
        }),
{
    let before = spec_parse_grid(items);
    assert(items.push(item).drop_last() =~= items);
    assert(items.push(item).last() == item);
    match item.href {
        Some(href) => match spec_book_key(href@) {
            Some(key) => {
                if has_key(before, key) {
                    let j = choose|j: int| 0 <= j < before.len() && (#[trigger] before[j]).key == key;
                    assert(before[j].key == key);
                }
                let after = spec_parse_grid(items.push(item));
                if after.len() == before.len() + 1 {
                    assert(after.take(before.len() as int) =~= before);
                }
            },
            None => {},
        },
        None => {},
    }
}

/// Law: a detail page with a non-empty title describes the novel `key` at its
/// page, under that title; it is completed exactly when the value of its
/// status cell says 已完 or 完結; its cover is read over `https`; its author is
/// the value of its author cell; its synopsis is the first text of more than
/// 80 bytes; it has tags exactly when its tag line lists some. A page without
/// a title describes nothing.
pub proof fn lemma_detail_fields(page: DetailPage, key: Seq<char>)
    ensures
        (page.title is None || page.title->0@.len() == 0) ==> spec_parse_detail(page, key) is None,
        (page.title is Some && page.title->0@.len() > 0) ==> ({
            let m = spec_parse_detail(page, key)->0;
            let status = match page.status_cell {
                Some(c) => match spec_field_value(c@) {
                    Some(v) => v,
                    None => Seq::empty(),
                },
                None => Seq::empty(),
            };
            &&& spec_parse_detail(page, key) is Some
            &&& m.key == key
            &&& m.title == page.title->0@
            &&& m.url == Some("https://www.wenku8.net/book/"@ + key + ".htm"@)
            &&& (m.status == MangaStatus::Completed) == (contains(status, "已完"@) || contains(
                status,
                "完結"@,
            ))
            &&& m.status != MangaStatus::Unknown
            &&& m.cover == match page.cover {
                Some(c) => Some(replace(c@, "http://"@, "https://"@)),
                None => None,
            }
            &&& m.authors == match page.author_cell {
                Some(c) => match spec_field_value(c@) {
                    Some(a) => Some(seq![a]),
                    None => None,
                },
                None => None,
            }
            &&& (m.tags is Some) == (detail_tags(page.tags_line).len() > 0)
            &&& m.description == first_long_from(page.span_texts@, 0)
            &&& m.content_rating == ContentRating::Suggestive
        }),
{
    reveal_strlit("https://www.wenku8.net");
    reveal_strlit("/book/");
    reveal_strlit("https://www.wenku8.net/book/");
    if page.title is Some && page.title->0@.len() > 0 {
        let m = spec_parse_detail(page, key)->0;
        assert(m.url->0 =~= "https://www.wenku8.net/book/"@ + key + ".htm"@);
    }
}

/// Law: the address of a search (for a non-blank query) or of the latest
/// updates names page `max(page, 1)` at its end, after `&page=`; the rest of
/// the address does not depend on the page.
pub proof fn lemma_search_url_page(query: Option<Seq<char>>, page: i32)
    ensures
        ({
            let n: int = if page < 1 {
                1
            } else {
                page as int
            };
            spec_search_url(query, page) == if query is Some && trim(query->0).len() > 0 {
                "https://www.wenku8.net/modules/article/search.php?searchtype=articlename&searchkey="@
                    + percent_encoded(gbk_encoding(query->0)) + "&page="@ + decimal(n as nat)
            } else {
                "https://www.wenku8.net/modules/article/toplist.php?sort=lastupdate&page="@ + decimal(
                    n as nat,
                )
            }
        }),
        ends_with(
            spec_search_url(query, page),
            "&page="@ + decimal((if page < 1 {
                1
            } else {
                page as int
            }) as nat),
        ),
{
    reveal_strlit("https://www.wenku8.net");
    reveal_strlit("/modules/article/search.php?searchtype=articlename&searchkey=");
    reveal_strlit("https://www.wenku8.net/modules/article/search.php?searchtype=articlename&searchkey=");
    reveal_strlit("/modules/article/toplist.php?sort=lastupdate&page=");
    reveal_strlit("https://www.wenku8.net/modules/article/toplist.php?sort=lastupdate&page=");
    reveal_strlit("&page=");
    let n: int = if page < 1 {
        1
    } else {
        page as int
    };
    let d = decimal(n as nat);
    let u = spec_search_url(query, page);
    let tail = "&page="@ + d;
    if query is Some && trim(query->0).len() > 0 {
        let pre = "https://www.wenku8.net/modules/article/search.php?searchtype=articlename&searchkey="@
            + percent_encoded(gbk_encoding(query->0));
        assert(u =~= pre + tail);
        assert(u.skip(u.len() - tail.len()) =~= tail);
    } else {
        let pre = "https://www.wenku8.net/modules/article/toplist.php?sort=lastupdate"@;
        reveal_strlit("https://www.wenku8.net/modules/article/toplist.php?sort=lastupdate");
        assert(u =~= pre + tail);
        assert(u.skip(u.len() - tail.len()) =~= tail);
    }
}

/// Law: two pages of the same search (or of the latest updates) are fetched
/// from the same address exactly when they are the same page once numbers
/// below 1 are read as 1.
pub proof fn lemma_search_url_pages_differ(query: Option<Seq<char>>, a: i32, b: i32)
    ensures
        (spec_search_url(query, a) == spec_search_url(query, b)) == ((if a < 1 {
            1
        } else {
            a
        }) == (if b < 1 {
            1
        } else {
            b
        })),
{
    lemma_search_url_page(query, a);
    lemma_search_url_page(query, b);
    let na: int = if a < 1 {
        1
    } else {
        a as int
    };
    let nb: int = if b < 1 {
        1
    } else {
        b as int
    };
    let pre = if query is Some && trim(query->0).len() > 0 {
        "https://www.wenku8.net/modules/article/search.php?searchtype=articlename&searchkey="@
            + percent_encoded(gbk_encoding(query->0)) + "&page="@
    } else {
        "https://www.wenku8.net/modules/article/toplist.php?sort=lastupdate&page="@
    };
    let ua = spec_search_url(query, a);
    let ub = spec_search_url(query, b);
    assert(ua =~= pre + decimal(na as nat));
    assert(ub =~= pre + decimal(nb as nat));
    if ua == ub {
        assert(ua.skip(pre.len() as int) =~= decimal(na as nat));
        assert(ub.skip(pre.len() as int) =~= decimal(nb as nat));
        crate::text::lemma_digits_value_decimal(na as nat);
        crate::text::lemma_digits_value_decimal(nb as nat);
    }
}

/// Law: there is a next page as soon as any page link, wherever it stands,
/// points at page `max(page, 1) + 1`.
pub proof fn lemma_has_next_page_any_link(hrefs: Seq<String>, page: i32, i: int)
    requires
        0 <= i < hrefs.len(),
        contains(
            hrefs[i]@,
            "page="@ + decimal(((if page < 1 {
                1
            } else {
                page as int
            }) + 1) as nat),
        ),
    ensures
        spec_has_next_page(hrefs, page),
{
    assert(contains(hrefs[i]@, "page="@ + decimal((clamp_page(page) + 1) as nat)));
}

/// Law: there is a next page only if some page link points at page
/// `max(page, 1) + 1`; so the order of the links does not matter.
pub proof fn lemma_has_next_page_needs_link(hrefs: Seq<String>, page: i32)
    ensures
        spec_has_next_page(hrefs, page) == exists|i: int|
            0 <= i < hrefs.len() && contains(
                (#[trigger] hrefs[i])@,
                "page="@ + decimal(((if page < 1 {
                    1
                } else {
                    page as int
                }) + 1) as nat),
            ),
{
    let needle = "page="@ + decimal(((if page < 1 {
        1
    } else {
        page as int
    }) + 1) as nat);
    assert(needle == "page="@ + decimal((clamp_page(page) + 1) as nat));
}

/// Law: the order of the page links does not change whether a next page is
/// found.
pub proof fn lemma_has_next_page_order(a: Seq<String>, b: Seq<String>, page: i32)
    ensures
        spec_has_next_page(a + b, page) == spec_has_next_page(b + a, page),
{
    lemma_has_next_page_needs_link(a + b, page);
    lemma_has_next_page_needs_link(b + a, page);
    let needle = "page="@ + decimal((clamp_page(page) + 1) as nat);
    if spec_has_next_page(a + b, page) {
        let i = choose|i: int| 0 <= i < (a + b).len() && contains((#[trigger] (a + b)[i])@, needle);
        let j = if i < a.len() {
            b.len() + i
        } else {
            i - a.len()
        };
        assert((b + a)[j] == (a + b)[i]);
        lemma_has_next_page_any_link(b + a, page, j);
    }
    if spec_has_next_page(b + a, page) {
        let i = choose|i: int| 0 <= i < (b + a).len() && contains((#[trigger] (b + a)[i])@, needle);
        let j = if i < b.len() {
            a.len() + i
        } else {
            i - b.len()
        };
        assert((a + b)[j] == (b + a)[i]);
        lemma_has_next_page_any_link(a + b, page, j);
    }
}

/// Law: the catalog of a novel whose key is the numeral of its id is found
/// under that same numeral.
pub proof fn lemma_catalog_url_keeps_id(n: u32)
    ensures
        spec_catalog_url(decimal(n as nat)) == Some(
            base_url() + "/modules/article/reader.php?aid="@ + decimal(n as nat),
        ),
{
    crate::text::lemma_parse_u32_decimal(n);
}

} // verus!
