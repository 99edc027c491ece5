//! LightNovel.fun (www.lightnovel.fun), read through its JSON API.
use vstd::prelude::*;
use crate::markdown::{html_to_markdown, opt_nodes, spec_html_to_markdown, Flavor, HtmlNode};
use crate::model::{
    chapters_view, join_title, join_title_exec, mangas_view, nonempty, nonempty_exec,
    opt_link_view, opt_view, reverse_chapters, single, strings_view, ChapterInfo, ChapterView,
    ContentRating, DeepLink, DeepLinkView, MangaInfo, MangaPage, MangaStatus, MangaView,
    SourceError,
};
pub use crate::model::check_status;
use crate::text::{
    chars_eq, chars_of, concat2, decimal, decimal_string, is_id_chars, push_decimal,
    slice_range, spec_is_id, split, split_exec, str_eq, string_of, trim, trim_bounds,
    trim_class, trim_string, views, CharClass,
};
use crate::url::{
    lemma_matches_char, lemma_rfind_at, lemma_site_path_ignores_query, lemma_split_slash_at,
    lemma_split_slash_last, lemma_strip_query_plain, lemma_trim_one_leading_slash, site_path,
    site_path_of,
};
use crate::text::{in_class, is_ascii_digit, lemma_decimal_is_id, matches_at};

verus! {

/// The site's address.
pub open spec fn base_url() -> Seq<char> {
    "https://www.lightnovel.fun"@
}

/// The API's address.
pub open spec fn api_url() -> Seq<char> {
    "https://www.lightnovel.fun/api/pc-proxy"@
}

/// A JSON value, as the logic reads it. A number is kept as its `i64` value,
/// or `None` when it has none (a float, or an integer beyond `i64`). An
/// object keeps its members in order, each key once.
#[derive(Debug)]
pub enum JsonValue {
    Null,
    Bool(bool),
    Number(Option<i64>),
    Str(String),
    Array(Vec<JsonValue>),
    Object(Vec<(String, JsonValue)>),
}

/// A book as the API describes it.
#[derive(Debug)]
pub struct Book {
    pub book_id: u64,
    pub title: String,
    pub author_name: String,
    pub cover_url: String,
    pub summary: String,
    pub summary_short: String,
    pub serial_status: Option<String>,
    pub is_completed: JsonValue,
    pub tags: Vec<JsonValue>,
    pub visible_tags: Vec<JsonValue>,
}

/// A chapter as a volume's chapter list gives it.
#[derive(Debug)]
pub struct ChapterItem {
    pub chapter_id: u64,
    pub title: String,
    pub published_at: String,
    pub locked: JsonValue,
}

/// A volume with all the chapters of all its pages, in order.
#[derive(Debug)]
pub struct VolumeChapters {
    pub volume_id: u64,
    pub title: String,
    pub items: Vec<ChapterItem>,
}

/// The text of a chapter in one rendering.
#[derive(Clone, Debug, PartialEq, Eq)]
pub struct ChapterBody {
    pub body_html: String,
    pub body_text: String,
}

/// A chapter as the API gives it to read.
#[derive(Debug)]
pub struct ChapterDetail {
    pub locked: JsonValue,
    pub body_snapshot: ChapterBody,
    pub render_preview: ChapterBody,
}

/// What to ask the API for a list of books: the API path to post to and the
/// body's values.
#[derive(Clone, Debug, PartialEq, Eq)]
pub enum BookListRequest {
    /// The home feed, page `page` (from 1) of `page_size` books, with the
    /// read, status and category filters all set to `filter`.
    Browse { path: String, page: i32, page_size: i32, filter: String },
    /// A search for `q`, page `page` (from 0) of `page_size` books, in the
    /// order `sort`.
    Search { path: String, q: String, page: i32, page_size: i32, sort: String },
}

/// A request as a mathematical value; `q` and `sort` are empty for the home
/// feed, `filter` for a search.
pub struct BookListRequestView {
    pub search: bool,
    pub path: Seq<char>,
    pub q: Seq<char>,
    pub page: int,
    pub page_size: int,
    pub sort: Seq<char>,
    pub filter: Seq<char>,
}

// ---------------------------------------------------------------------------
// JSON values
// ---------------------------------------------------------------------------

/// Whether a value says yes: `true`, a non-zero integer, or one of the
/// strings `1`, `true`, `locked`, `completed`.
pub open spec fn spec_value_truthy(v: JsonValue) -> bool {
    match v {
        JsonValue::Bool(b) => b,
        JsonValue::Number(n) => n is Some && n->0 != 0,
        JsonValue::Str(s) => s@ == "1"@ || s@ == "true"@ || s@ == "locked"@ || s@ == "completed"@,
        _ => false,
    }
}

/// Whether a value says yes.
pub fn value_truthy(v: &JsonValue) -> (r: bool)
    ensures
        r == spec_value_truthy(*v),
{
    match v {
        JsonValue::Bool(b) => *b,
        JsonValue::Number(n) => match n {
            Some(x) => *x != 0,
            None => false,
        },
        JsonValue::Str(s) => str_eq(s.as_str(), "1") || str_eq(s.as_str(), "true") || str_eq(
            s.as_str(),
            "locked",
        ) || str_eq(s.as_str(), "completed"),
        _ => false,
    }
}

/// The value of the first member named `key`.
pub open spec fn object_get(members: Seq<(String, JsonValue)>, key: Seq<char>) -> Option<JsonValue>
    decreases members.len(),
{
    if members.len() == 0 {
        None
    } else if members[0].0@ == key {
        Some(members[0].1)
    } else {
        object_get(members.drop_first(), key)
    }
}

/// The string value of the member named `key`, if it is a string.
pub open spec fn string_member(members: Seq<(String, JsonValue)>, key: Seq<char>) -> Option<Seq<char>> {
    match object_get(members, key) {
        Some(JsonValue::Str(s)) => Some(s@),
        _ => None,
    }
}

/// The name of a tag: a non-empty string, or the first of an object's `name`,
/// `tag_name`, `label` and `title` members that is a string.
pub open spec fn spec_tag_name(v: JsonValue) -> Option<Seq<char>> {
    match v {
        JsonValue::Str(s) => if s@.len() > 0 {
            Some(s@)
        } else {
            None
        },
        JsonValue::Object(members) => {
            let m = members@;
            if string_member(m, "name"@) is Some {
                string_member(m, "name"@)
            } else if string_member(m, "tag_name"@) is Some {
                string_member(m, "tag_name"@)
            } else if string_member(m, "label"@) is Some {
                string_member(m, "label"@)
            } else {
                string_member(m, "title"@)
            }
        },
        _ => None,
    }
}

/// The string value of the member named `key`, if it is a string.
fn string_member_exec(members: &Vec<(String, JsonValue)>, key: &str) -> (r: Option<String>)
    ensures
        opt_view(r) == string_member(members@, key@),
{
    let mut i: usize = 0;
    assert(members@.skip(0) == members@);
    while i < members.len()
        invariant
            i <= members@.len(),
            object_get(members@, key@) == object_get(members@.skip(i as int), key@),
        decreases members.len() - i,
    {
        proof {
            assert(members@.skip(i as int).drop_first() == members@.skip(i + 1));
            assert(members@.skip(i as int)[0] == members@[i as int]);
        }
        if str_eq(members[i].0.as_str(), key) {
            return match &members[i].1 {
                JsonValue::Str(s) => Some(s.clone()),
                _ => None,
            };
        }
        i += 1;
    }
    None
}

/// The name of a tag, if it has one.
pub fn tag_name(v: &JsonValue) -> (r: Option<String>)
    ensures
        opt_view(r) == spec_tag_name(*v),
{
    match v {
        JsonValue::Str(s) => if s.as_str().is_empty() {
            None
        } else {
            Some(s.clone())
        },
        JsonValue::Object(members) => {
            if let Some(s) = string_member_exec(members, "name") {
                return Some(s);
            }
            if let Some(s) = string_member_exec(members, "tag_name") {
                return Some(s);
            }
            if let Some(s) = string_member_exec(members, "label") {
                return Some(s);
            }
            string_member_exec(members, "title")
        },
        _ => None,
    }
}

// ---------------------------------------------------------------------------
// Books
// ---------------------------------------------------------------------------

/// `c` in lower case when it is an ASCII letter.
pub open spec fn ascii_lower(c: char) -> char {
    if 'A' <= c <= 'Z' {
        ((c as u32) + 32) as char
    } else {
        c
    }
}

/// `a` and `b` are equal up to ASCII case (`str::eq_ignore_ascii_case`).
pub open spec fn eq_ignore_ascii_case(a: Seq<char>, b: Seq<char>) -> bool {
    a.len() == b.len() && forall|i: int| 0 <= i < a.len() ==> ascii_lower(#[trigger] a[i])
        == ascii_lower(b[i])
}

fn ascii_lower_exec(c: char) -> (r: char)
    ensures
        r == ascii_lower(c),
{
    if 'A' <= c && c <= 'Z' {
        ((c as u32) + 32) as u8 as char
    } else {
        c
    }
}

/// Whether two strings are equal up to ASCII case.
pub fn eq_ignore_ascii_case_exec(a: &str, b: &str) -> (r: bool)
    ensures
        r == eq_ignore_ascii_case(a@, b@),
{
    let x = chars_of(a);
    let y = chars_of(b);
    if x.len() != y.len() {
        return false;
    }
    let mut i: usize = 0;
    while i < x.len()
        invariant
            i <= x@.len(),
            x@ == a@,
            y@ == b@,
            x@.len() == y@.len(),
            forall|j: int| 0 <= j < i ==> ascii_lower(#[trigger] x@[j]) == ascii_lower(y@[j]),
        decreases x.len() - i,
    {
        if ascii_lower_exec(x[i]) != ascii_lower_exec(y[i]) {
            return false;
        }
        i += 1;
    }
    true
}

/// The names of the tags that have one, in order.
pub open spec fn tag_names(values: Seq<JsonValue>) -> Seq<Seq<char>>
    decreases values.len(),
{
    if values.len() == 0 {
        Seq::empty()
    } else {
        match spec_tag_name(values.last()) {
            Some(name) => tag_names(values.drop_last()).push(name),
            None => tag_names(values.drop_last()),
        }
    }
}

/// The page of the book `id`: `{BASE_URL}/book/{id}`.
pub open spec fn spec_book_url(id: nat) -> Seq<char> {
    base_url() + "/book/"@ + decimal(id)
}

/// The page of the book `id`.
pub fn book_url(id: u64) -> (r: String)
    ensures
        r@ == spec_book_url(id as nat),
{
    let mut out = concat2("https://www.lightnovel.fun", "/book/");
    push_decimal(&mut out, id);
    out
}

/// A book of the API as the library describes it.
pub open spec fn spec_book_to_manga(book: Book) -> MangaView {
    let values = if book.visible_tags@.len() == 0 {
        book.tags@
    } else {
        book.visible_tags@
    };
    let tags = tag_names(values);
    MangaView {
        key: decimal(book.book_id as nat),
        title: book.title@,
        cover: nonempty(book.cover_url@),
        authors: match nonempty(book.author_name@) {
            Some(a) => Some(seq![a]),
            None => None,
        },
        description: if book.summary@.len() > 0 {
            Some(book.summary@)
        } else if book.summary_short@.len() > 0 {
            Some(book.summary_short@)
        } else {
            None
        },
        url: Some(spec_book_url(book.book_id as nat)),
        tags: if tags.len() == 0 {
            None
        } else {
            Some(tags)
        },
        status: if spec_value_truthy(book.is_completed) || (book.serial_status is Some
            && eq_ignore_ascii_case(book.serial_status->0@, "completed"@)) {
            MangaStatus::Completed
        } else {
            MangaStatus::Ongoing
        },
        content_rating: ContentRating::Suggestive,
    }
}

/// A book of the API as the library describes it.
pub fn book_to_manga(book: &Book) -> (r: MangaInfo)
    ensures
        r@ == spec_book_to_manga(*book),
{
    let values = if book.visible_tags.len() == 0 {
        &book.tags
    } else {
        &book.visible_tags
    };
    let mut tags: Vec<String> = Vec::new();
    let mut i: usize = 0;
    while i < values.len()
        invariant
            i <= values@.len(),
            strings_view(tags@) == tag_names(values@.take(i as int)),
        decreases values.len() - i,
    {
        proof {
            assert(values@.take(i + 1).drop_last() == values@.take(i as int));
            assert(values@.take(i + 1).last() == values@[i as int]);
        }
        if let Some(name) = tag_name(&values[i]) {
            let ghost before = tags@;
            tags.push(name);
            assert(strings_view(tags@) =~= strings_view(before).push(tags@[before.len() as int]@));
        }
        i += 1;
    }
    assert(values@.take(values@.len() as int) == values@);
    let description = if !book.summary.as_str().is_empty() {
        Some(book.summary.clone())
    } else if !book.summary_short.as_str().is_empty() {
        Some(book.summary_short.clone())
    } else {
        None
    };
    let completed = value_truthy(&book.is_completed) || match &book.serial_status {
        Some(s) => eq_ignore_ascii_case_exec(s.as_str(), "completed"),
        None => false,
    };
    let authors = match nonempty_exec(book.author_name.clone()) {
        Some(a) => Some(single(a)),
        None => None,
    };
    MangaInfo {
        key: decimal_string(book.book_id),
        title: book.title.clone(),
        cover: nonempty_exec(book.cover_url.clone()),
        authors,
        description,
        url: Some(book_url(book.book_id)),
        tags: if tags.len() == 0 {
            None
        } else {
            Some(tags)
        },
        status: if completed {
            MangaStatus::Completed
        } else {
            MangaStatus::Ongoing
        },
        content_rating: ContentRating::Suggestive,
    }
}

/// What to ask for: when the query is blank, page `max(page, 1)` of twenty
/// books of the home feed with every filter `all`; else page `page - 1`
/// (saturating) of twenty search results for the query as given, by relevance.
pub open spec fn spec_book_list_request(query: Option<Seq<char>>, page: i32) -> BookListRequestView {
    let q = match query {
        Some(q) => q,
        None => Seq::empty(),
    };
    if trim(q).len() == 0 {
        BookListRequestView {
            search: false,
            path: "/api/bff/home-feed-v1"@,
            q: Seq::empty(),
            page: if page < 1 {
                1
            } else {
                page as int
            },
            page_size: 20,
            sort: Seq::empty(),
            filter: "all"@,
        }
    } else {
        BookListRequestView {
            search: true,
            path: "/api/bff/apk-search-result-v1"@,
            q,
            page: if page == i32::MIN {
                i32::MIN as int
            } else {
                page - 1
            },
            page_size: 20,
            sort: "relevance"@,
            filter: Seq::empty(),
        }
    }
}

/// The view of a request.
pub open spec fn request_view(r: BookListRequest) -> BookListRequestView {
    match r {
        BookListRequest::Browse { path, page, page_size, filter } => BookListRequestView {
            search: false,
            path: path@,
            q: Seq::empty(),
            page: page as int,
            page_size: page_size as int,
            sort: Seq::empty(),
            filter: filter@,
        },
        BookListRequest::Search { path, q, page, page_size, sort } => BookListRequestView {
            search: true,
            path: path@,
            q: q@,
            page: page as int,
            page_size: page_size as int,
            sort: sort@,
            filter: Seq::empty(),
        },
    }
}

/// What to ask the API for a page of books.
pub fn book_list_request(query: &Option<String>, page: i32) -> (r: BookListRequest)
    ensures
        request_view(r) == spec_book_list_request(opt_view(*query), page),
{
    let q = match query {
        Some(q) => q.clone(),
        None => String::new(),
    };
    if trim_string(q.as_str()).as_str().is_empty() {
        BookListRequest::Browse {
            path: "/api/bff/home-feed-v1".to_owned(),
            page: if page < 1 {
                1
            } else {
                page
            },
            page_size: 20,
            filter: "all".to_owned(),
        }
    } else {
        let page = if page == i32::MIN {
            page
        } else {
            page - 1
        };
        BookListRequest::Search {
            path: "/api/bff/apk-search-result-v1".to_owned(),
            q,
            page,
            page_size: 20,
            sort: "relevance".to_owned(),
        }
    }
}

/// A page of books: whether another follows is whether this page comes
/// before the last.
pub fn book_list_page(list: &Vec<Book>, page: i32, page_count: i32) -> (r: MangaPage)
    ensures
        mangas_view(r.entries@) == Seq::new(list@.len(), |i: int| spec_book_to_manga(list@[i])),
        r.has_next_page == (page < page_count),
{
    let mut entries: Vec<MangaInfo> = Vec::new();
    let mut i: usize = 0;
    while i < list.len()
        invariant
            i <= list@.len(),
            entries@.len() == i,
            forall|j: int| 0 <= j < i ==> (#[trigger] entries@[j])@ == spec_book_to_manga(list@[j]),
        decreases list.len() - i,
    {
        entries.push(book_to_manga(&list[i]));
        i += 1;
    }
    assert(mangas_view(entries@) =~= Seq::new(list@.len(), |i: int| spec_book_to_manga(list@[i])));
    MangaPage { entries, has_next_page: page < page_count }
}

// ---------------------------------------------------------------------------
// Deep links
// ---------------------------------------------------------------------------

/// What a link into www.lightnovel.fun points at: `book/{id}` is a book,
/// `reader/{book}/{chapter}` a chapter.
pub open spec fn deep_link(url: Seq<char>) -> Option<DeepLinkView> {
    let path = trim_class(site_path(url, "lightnovel.fun"@), CharClass::Slash);
    let parts = split(path, "/"@);
    if parts.len() >= 2 && parts[0] == "book"@ && spec_is_id(parts[1]) {
        Some(DeepLinkView::Manga { key: parts[1] })
    } else if parts.len() >= 3 && parts[0] == "reader"@ && spec_is_id(parts[1]) && spec_is_id(
        parts[2],
    ) {
        Some(DeepLinkView::Chapter { manga_key: parts[1], key: parts[2] })
    } else {
        None
    }
}

/// The book or chapter that a link into the site points at, if any.
pub fn handle_deep_link(url: &str) -> (r: Option<DeepLink>)
    ensures
        opt_link_view(r) == deep_link(url@),
{
    let site = site_path_of(url, "lightnovel.fun");
    let (a, b) = trim_bounds(site.as_slice(), CharClass::Slash);
    let path = slice_range(site.as_slice(), a, b);
    proof {
        reveal_strlit("/");
    }
    let parts = split_exec(path.as_slice(), "/");
    assert(parts@.len() == views(parts@).len());
    if parts.len() >= 2 {
        assert(views(parts@)[0] == parts@[0]@);
        assert(views(parts@)[1] == parts@[1]@);
        if chars_eq(parts[0].as_slice(), "book") && is_id_chars(parts[1].as_slice()) {
            return Some(DeepLink::Manga { key: string_of(parts[1].as_slice()) });
        }
    }
    if parts.len() >= 3 {
        assert(views(parts@)[0] == parts@[0]@);
        assert(views(parts@)[1] == parts@[1]@);
        assert(views(parts@)[2] == parts@[2]@);
        if chars_eq(parts[0].as_slice(), "reader") && is_id_chars(parts[1].as_slice())
            && is_id_chars(parts[2].as_slice()) {
            return Some(
                DeepLink::Chapter {
                    manga_key: string_of(parts[1].as_slice()),
                    key: string_of(parts[2].as_slice()),
                },
            );
        }
    }
    None
}

// ---------------------------------------------------------------------------
// Chapters
// ---------------------------------------------------------------------------

/// The page that follows `page` of `page_count` (taken as at least 1), if any.
pub fn next_page(page: i32, page_count: i32) -> (r: Option<i32>)
    ensures
        r == (if page >= (if page_count < 1 {
            1
        } else {
            page_count
        }) {
            None::<i32>
        } else {
            Some((page + 1) as i32)
        }),
{
    let count = if page_count < 1 {
        1
    } else {
        page_count
    };
    if page >= count {
        None
    } else {
        Some(page + 1)
    }
}

/// The reader page of the chapter `chapter_id` of the book `book_id`:
/// `{BASE_URL}/reader/{book_id}/{chapter_id}`.
pub open spec fn spec_reader_url(book_id: Seq<char>, chapter_id: nat) -> Seq<char> {
    base_url() + "/reader/"@ + book_id + "/"@ + decimal(chapter_id)
}

/// The reader page of a chapter.
pub fn reader_url(book_id: &str, chapter_id: u64) -> (r: String)
    ensures
        r@ == spec_reader_url(book_id@, chapter_id as nat),
{
    let mut out = concat2("https://www.lightnovel.fun", "/reader/");
    out.append(book_id);
    out.append("/");
    push_decimal(&mut out, chapter_id);
    out
}

/// How many chapters the first `v` volumes list, locked ones too.
pub open spec fn item_total(volumes: Seq<VolumeChapters>, v: int) -> nat
    decreases v,
{
    if v <= 0 {
        0
    } else {
        item_total(volumes, v - 1) + volumes[v - 1].items@.len()
    }
}

/// The chapter made of the `j`-th item (from 0) of volume `vi`, whose items
/// are numbered on from `start`.
pub open spec fn item_chapter(book_id: Seq<char>, volume: VolumeChapters, vi: int, j: int, start: nat) -> ChapterView {
    let item = volume.items@[j];
    ChapterView {
        key: decimal(item.chapter_id as nat),
        title: Some(join_title(volume.title@, item.title@)),
        chapter_number: (start + j + 1) as u64,
        volume_number: Some((vi + 1) as u64),
        url: Some(spec_reader_url(book_id, item.chapter_id as nat)),
        language: Some("zh"@),
        published_at: Some(item.published_at@),
    }
}

/// The unlocked chapters of the first `j` items of volume `vi`; every item
/// counts toward the numbering, locked or not.
pub open spec fn items_fold(book_id: Seq<char>, volume: VolumeChapters, vi: int, j: int, start: nat) -> Seq<
    ChapterView,
>
    decreases j,
{
    if j <= 0 {
        Seq::empty()
    } else if spec_value_truthy(volume.items@[j - 1].locked) {
        items_fold(book_id, volume, vi, j - 1, start)
    } else {
        items_fold(book_id, volume, vi, j - 1, start).push(
            item_chapter(book_id, volume, vi, j - 1, start),
        )
    }
}

/// The unlocked chapters of the first `v` volumes, in reading order.
pub open spec fn volumes_fold(book_id: Seq<char>, volumes: Seq<VolumeChapters>, v: int) -> Seq<
    ChapterView,
>
    decreases v,
{
    if v <= 0 {
        Seq::empty()
    } else {
        volumes_fold(book_id, volumes, v - 1) + items_fold(
            book_id,
            volumes[v - 1],
            v - 1,
            volumes[v - 1].items@.len() as int,
            item_total(volumes, v - 1),
        )
    }
}

/// The unlocked chapters of a book, newest first.
pub open spec fn spec_build_chapters(book_id: Seq<char>, volumes: Seq<VolumeChapters>) -> Seq<ChapterView> {
    volumes_fold(book_id, volumes, volumes.len() as int).reverse()
}

proof fn lemma_item_total_monotone(volumes: Seq<VolumeChapters>, a: int, b: int)
    requires
        a <= b,
    ensures
        item_total(volumes, a) <= item_total(volumes, b),
    decreases b - a,
{
    if a < b {
        lemma_item_total_monotone(volumes, a, b - 1);
    }
}

/// The unlocked chapters of the book `book_id`, newest first, from its
/// volumes in order with all their chapter pages read.
pub fn build_chapters(book_id: &str, volumes: &Vec<VolumeChapters>) -> (r: Vec<ChapterInfo>)
    requires
        item_total(volumes@, volumes@.len() as int) < u64::MAX,
    ensures
        chapters_view(r@) == spec_build_chapters(book_id@, volumes@),
{
    let mut chapters: Vec<ChapterInfo> = Vec::new();
    let mut ordinal: u64 = 0;
    let mut v: usize = 0;
    while v < volumes.len()
        invariant
            v <= volumes@.len(),
            item_total(volumes@, volumes@.len() as int) < u64::MAX,
            ordinal == item_total(volumes@, v as int),
            chapters_view(chapters@) == volumes_fold(book_id@, volumes@, v as int),
        decreases volumes.len() - v,
    {
        proof {
            lemma_item_total_monotone(volumes@, v + 1, volumes@.len() as int);
        }
        let volume = &volumes[v];
        let vnum = v as u64 + 1;
        let ghost start = item_total(volumes@, v as int);
        let ghost before = chapters_view(chapters@);
        let mut j: usize = 0;
        while j < volume.items.len()
            invariant
                j <= volume.items@.len(),
                *volume == volumes@[v as int],
                vnum == v + 1,
                start + volume.items@.len() < u64::MAX,
                ordinal == start + j,
                chapters_view(chapters@) == before + items_fold(
                    book_id@,
                    *volume,
                    v as int,
                    j as int,
                    start,
                ),
            decreases volume.items.len() - j,
        {
            let item = &volume.items[j];
            ordinal = ordinal + 1;
            if !value_truthy(&item.locked) {
                let ghost prev = chapters@;
                chapters.push(
                    ChapterInfo {
                        key: decimal_string(item.chapter_id),
                        title: Some(join_title_exec(volume.title.as_str(), item.title.as_str())),
                        chapter_number: ordinal,
                        volume_number: Some(vnum),
                        url: Some(reader_url(book_id, item.chapter_id)),
                        language: Some("zh".to_owned()),
                        published_at: Some(item.published_at.clone()),
                    },
                );
                proof {
                    reveal_strlit("zh");
                    assert(chapters_view(chapters@) =~= chapters_view(prev).push(
                        chapters@[prev.len() as int]@,
                    ));
                }
            }
            j += 1;
        }
        v += 1;
    }
    reverse_chapters(chapters)
}

// ---------------------------------------------------------------------------
// Chapter text and API answers
// ---------------------------------------------------------------------------

/// The HTML of a chapter to render: the snapshot's, or the preview's when the
/// snapshot has none.
pub open spec fn spec_chapter_html(detail: ChapterDetail) -> Seq<char> {
    if detail.body_snapshot.body_html@.len() > 0 {
        detail.body_snapshot.body_html@
    } else {
        detail.render_preview.body_html@
    }
}

/// The HTML of a chapter to render; `ChapterLocked` when the chapter is locked.
pub fn chapter_html(detail: &ChapterDetail) -> (r: Result<String, SourceError>)
    ensures
        spec_value_truthy(detail.locked) ==> (r matches Err(SourceError::ChapterLocked)),
        !spec_value_truthy(detail.locked) ==> (r matches Ok(h) && h@ == spec_chapter_html(*detail)),
{
    if value_truthy(&detail.locked) {
        return Err(SourceError::ChapterLocked);
    }
    if !detail.body_snapshot.body_html.as_str().is_empty() {
        Ok(detail.body_snapshot.body_html.clone())
    } else {
        Ok(detail.render_preview.body_html.clone())
    }
}

/// The text of a chapter: locked chapters have none; else the Markdown of its
/// HTML, or, when that is blank, its plain text (the snapshot's, else the
/// preview's); blank in the end means missing.
pub open spec fn spec_chapter_text(detail: ChapterDetail, body: Option<Seq<HtmlNode>>) -> Result<
    Seq<char>,
    SourceError,
> {
    if spec_value_truthy(detail.locked) {
        Err(SourceError::ChapterLocked)
    } else {
        let md = spec_html_to_markdown(spec_chapter_html(detail), body, Flavor::LightNovelFun);
        let text = if trim(md).len() == 0 {
            if detail.body_snapshot.body_text@.len() > 0 {
                detail.body_snapshot.body_text@
            } else {
                detail.render_preview.body_text@
            }
        } else {
            md
        };
        if trim(text).len() == 0 {
            Err(SourceError::ChapterTextMissing)
        } else {
            Ok(text)
        }
    }
}

/// The text of a chapter, given the child nodes of the parsed `body` of
/// `chapter_html(detail)`.
pub fn chapter_text(detail: &ChapterDetail, body: &Option<Vec<HtmlNode>>) -> (r: Result<
    String,
    SourceError,
>)
    ensures
        match r {
            Ok(t) => spec_chapter_text(*detail, opt_nodes(*body)) == Ok::<Seq<char>, SourceError>(
                t@,
            ),
            Err(e) => spec_chapter_text(*detail, opt_nodes(*body)) == Err::<
                Seq<char>,
                SourceError,
            >(e),
        },
{
    let html = match chapter_html(detail) {
        Ok(h) => h,
        Err(e) => return Err(e),
    };
    let md = html_to_markdown(html.as_str(), body, Flavor::LightNovelFun);
    let text = if trim_string(md.as_str()).as_str().is_empty() {
        if !detail.body_snapshot.body_text.as_str().is_empty() {
            detail.body_snapshot.body_text.clone()
        } else {
            detail.render_preview.body_text.clone()
        }
    } else {
        md
    };
    if trim_string(text.as_str()).as_str().is_empty() {
        Err(SourceError::ChapterTextMissing)
    } else {
        Ok(text)
    }
}

/// The data of an API answer: an error with the code and message (or an empty
/// one) when the code is not 0.
pub fn open_response<T>(code: i32, message: Option<String>, data: T) -> (r: Result<T, SourceError>)
    ensures
        code != 0 ==> (r matches Err(SourceError::ApiCode(c, m)) && c == code && m@ == (
        match message {
            Some(s) => s@,
            None => Seq::empty(),
        })),
        code == 0 ==> r == Ok::<T, SourceError>(data),
{
    if code != 0 {
        let m = match message {
            Some(s) => s,
            None => String::new(),
        };
        return Err(SourceError::ApiCode(code, m));
    }
    Ok(data)
}

/// The API address for `path`.
pub fn api_address(path: &str) -> (r: String)
    ensures
        r@ == api_url() + path@,
{
    concat2("https://www.lightnovel.fun/api/pc-proxy", path)
}

// ---------------------------------------------------------------------------
// Laws
// ---------------------------------------------------------------------------

/// Law: the page of a book, as the library writes it, links back to the book.
pub proof fn lemma_book_link_round_trip(id: nat)
    ensures
        deep_link(spec_book_url(id)) == Some(DeepLinkView::Manga { key: decimal(id) }),
{
    reveal_strlit("https://www.lightnovel.fun");
    reveal_strlit("/book/");
    reveal_strlit("lightnovel.fun");
    reveal_strlit("/");
    reveal_strlit("book");
    let d = decimal(id);
    lemma_decimal_is_id(id);
    let u = spec_book_url(id);
    assert(u.len() == 32 + d.len());
    assert forall|j: int| 0 <= j < u.len() implies !#[trigger] in_class(
        u[j],
        CharClass::QueryStart,
    ) by {
        if 32 <= j {
            assert(u[j] == d[j - 32]);
            assert(is_ascii_digit(d[j - 32]));
        }
    }
    lemma_strip_query_plain(u);
    let h = "lightnovel.fun"@;
    assert(u.subrange(12, 26) =~= h);
    assert forall|i: int| 12 < i implies !#[trigger] matches_at(u, h, i) by {
        if matches_at(u, h, i) {
            lemma_matches_char(u, h, i, 0);
            lemma_matches_char(u, h, i, 1);
            if 32 <= i {
                assert(u[i] == d[i - 32]);
                assert(is_ascii_digit(d[i - 32]));
            }
        }
    }
    lemma_rfind_at(u, h, 12);
    let path = u.skip(26);
    assert(path =~= "/book/"@ + d);
    assert(path[path.len() - 1] == d[d.len() - 1]);
    assert(is_ascii_digit(d[d.len() - 1]));
    lemma_trim_one_leading_slash(path);
    let t = path.skip(1);
    assert forall|j: int| 5 <= j < t.len() implies #[trigger] t[j] != '/' by {
        assert(t[j] == d[j - 5]);
        assert(is_ascii_digit(d[j - 5]));
    }
    lemma_split_slash_at(t, 0, 4);
    lemma_split_slash_last(t, 5);
    assert("/"@ =~= seq!['/']);
    assert(split(t, "/"@) =~= seq![t.subrange(0, 4), t.subrange(5, t.len() as int)]);
    assert(t.subrange(0, 4) =~= "book"@);
    assert(t.subrange(5, t.len() as int) =~= d);
}

/// Law: the reader page of a chapter, as the library writes it, links back to
/// the chapter of that book.
pub proof fn lemma_reader_link_round_trip(book_id: Seq<char>, chapter_id: nat)
    requires
        spec_is_id(book_id),
    ensures
        deep_link(spec_reader_url(book_id, chapter_id)) == Some(
            DeepLinkView::Chapter { manga_key: book_id, key: decimal(chapter_id) },
        ),
{
    reveal_strlit("https://www.lightnovel.fun");
    reveal_strlit("/reader/");
    reveal_strlit("lightnovel.fun");
    reveal_strlit("/");
    reveal_strlit("book");
    reveal_strlit("reader");
    reveal_strlit("reader/");
    let d = decimal(chapter_id);
    lemma_decimal_is_id(chapter_id);
    let b = book_id;
    let nb = b.len() as int;
    let u = spec_reader_url(b, chapter_id);
    assert(u.len() == 35 + nb + d.len());
    assert forall|j: int| 0 <= j < u.len() implies !#[trigger] in_class(
        u[j],
        CharClass::QueryStart,
    ) by {
        if 34 <= j < 34 + nb {
            assert(u[j] == b[j - 34]);
            assert(is_ascii_digit(b[j - 34]));
        } else if 35 + nb <= j {
            assert(u[j] == d[j - 35 - nb]);
            assert(is_ascii_digit(d[j - 35 - nb]));
        }
    }
    lemma_strip_query_plain(u);
    let h = "lightnovel.fun"@;
    assert(u.subrange(12, 26) =~= h);
    assert forall|i: int| 12 < i implies !#[trigger] matches_at(u, h, i) by {
        if matches_at(u, h, i) {
            lemma_matches_char(u, h, i, 0);
            lemma_matches_char(u, h, i, 1);
            if 34 <= i < 34 + nb {
                assert(u[i] == b[i - 34]);
                assert(is_ascii_digit(b[i - 34]));
            } else if 35 + nb <= i {
                assert(u[i] == d[i - 35 - nb]);
                assert(is_ascii_digit(d[i - 35 - nb]));
            }
        }
    }
    lemma_rfind_at(u, h, 12);
    let path = u.skip(26);
    assert(path =~= "/reader/"@ + b + "/"@ + d);
    assert(path[path.len() - 1] == d[d.len() - 1]);
    assert(is_ascii_digit(d[d.len() - 1]));
    lemma_trim_one_leading_slash(path);
    let t = path.skip(1);
    assert(t =~= "reader/"@ + b + "/"@ + d);
    assert forall|j: int| 7 <= j < 7 + nb implies #[trigger] t[j] != '/' by {
        assert(t[j] == b[j - 7]);
        assert(is_ascii_digit(b[j - 7]));
    }
    assert forall|j: int| 8 + nb <= j < t.len() implies #[trigger] t[j] != '/' by {
        assert(t[j] == d[j - 8 - nb]);
        assert(is_ascii_digit(d[j - 8 - nb]));
    }
    lemma_split_slash_at(t, 0, 6);
    lemma_split_slash_at(t, 7, 7 + nb);
    lemma_split_slash_last(t, 8 + nb);
    assert("/"@ =~= seq!['/']);
    let parts = split(t, "/"@);
    assert(parts =~= seq![
        t.subrange(0, 6),
        t.subrange(7, 7 + nb),
        t.subrange(8 + nb, t.len() as int),
    ]);
    assert(t.subrange(0, 6) =~= "reader"@);
    assert(t.subrange(7, 7 + nb) =~= b);
    assert(t.subrange(8 + nb, t.len() as int) =~= d);
    assert(parts[0] != "book"@);
}

/// Law: a query or a fragment does not change where a link points.
pub proof fn lemma_deep_link_ignores_query(url: Seq<char>, c: char, rest: Seq<char>)
    requires
        forall|j: int| 0 <= j < url.len() ==> !#[trigger] in_class(url[j], CharClass::QueryStart),
        c == '?' || c == '#',
    ensures
        deep_link(url.push(c) + rest) == deep_link(url),
{
    lemma_site_path_ignores_query(url, c, rest, "lightnovel.fun"@);
}

/// Law: the chapters come newest first: their numbers fall strictly from the
/// first to the last, and each lies between 1 and the number of chapters
/// listed, locked ones included.
pub proof fn lemma_chapters_newest_first(book_id: Seq<char>, volumes: Seq<VolumeChapters>)
    requires
        item_total(volumes, volumes.len() as int) < u64::MAX,
    ensures
        forall|i: int, j: int|
            0 <= i < j < spec_build_chapters(book_id, volumes).len() ==> (#[trigger] spec_build_chapters(
                book_id,
                volumes,
            )[i]).chapter_number > (#[trigger] spec_build_chapters(book_id, volumes)[j]).chapter_number,
        forall|i: int|
            0 <= i < spec_build_chapters(book_id, volumes).len() ==> 1 <= (
            #[trigger] spec_build_chapters(book_id, volumes)[i]).chapter_number <= item_total(
                volumes,
                volumes.len() as int,
            ),
{
    let n = volumes.len() as int;
    lemma_volumes_fold_numbers(book_id, volumes, n);
    let f = volumes_fold(book_id, volumes, n);
    assert forall|i: int, j: int|
        0 <= i < j < spec_build_chapters(book_id, volumes).len() implies (#[trigger] spec_build_chapters(
        book_id,
        volumes,
    )[i]).chapter_number > (#[trigger] spec_build_chapters(book_id, volumes)[j]).chapter_number by {
        assert(spec_build_chapters(book_id, volumes)[i] == f[f.len() - 1 - i]);
        assert(spec_build_chapters(book_id, volumes)[j] == f[f.len() - 1 - j]);
    }
    assert forall|i: int| 0 <= i < spec_build_chapters(book_id, volumes).len() implies 1 <= (
    #[trigger] spec_build_chapters(book_id, volumes)[i]).chapter_number <= item_total(
        volumes,
        n,
    ) by {
        assert(spec_build_chapters(book_id, volumes)[i] == f[f.len() - 1 - i]);
    }
}

proof fn lemma_items_fold_numbers(
    book_id: Seq<char>,
    volume: VolumeChapters,
    vi: int,
    j: int,
    start: nat,
)
    requires
        0 <= j <= volume.items@.len(),
        start + volume.items@.len() < u64::MAX,
    ensures
        forall|k: int|
            0 <= k < items_fold(book_id, volume, vi, j, start).len() ==> start < (
            #[trigger] items_fold(book_id, volume, vi, j, start)[k]).chapter_number <= start + j,
        forall|a: int, b: int|
            0 <= a < b < items_fold(book_id, volume, vi, j, start).len() ==> (
            #[trigger] items_fold(book_id, volume, vi, j, start)[a]).chapter_number < (
            #[trigger] items_fold(book_id, volume, vi, j, start)[b]).chapter_number,
    decreases j,
{
    if j > 0 {
        lemma_items_fold_numbers(book_id, volume, vi, j - 1, start);
        let prev = items_fold(book_id, volume, vi, j - 1, start);
        let cur = items_fold(book_id, volume, vi, j, start);
        if !spec_value_truthy(volume.items@[j - 1].locked) {
            let c = item_chapter(book_id, volume, vi, j - 1, start);
            assert(cur == prev.push(c));
            assert(c.chapter_number == start + j);
            assert forall|k: int| 0 <= k < cur.len() implies start < (
            #[trigger] cur[k]).chapter_number <= start + j by {
                if k < prev.len() {
                    assert(cur[k] == prev[k]);
                }
            }
            assert forall|a: int, b: int| 0 <= a < b < cur.len() implies (
            #[trigger] cur[a]).chapter_number < (#[trigger] cur[b]).chapter_number by {
                assert(cur[a] == prev[a]);
                if b < prev.len() {
                    assert(cur[b] == prev[b]);
                }
            }
        }
    }
}

proof fn lemma_volumes_fold_numbers(book_id: Seq<char>, volumes: Seq<VolumeChapters>, v: int)
    requires
        0 <= v <= volumes.len(),
        item_total(volumes, volumes.len() as int) < u64::MAX,
    ensures
        forall|k: int|
            0 <= k < volumes_fold(book_id, volumes, v).len() ==> 1 <= (
            #[trigger] volumes_fold(book_id, volumes, v)[k]).chapter_number <= item_total(volumes, v),
        forall|a: int, b: int|
            0 <= a < b < volumes_fold(book_id, volumes, v).len() ==> (
            #[trigger] volumes_fold(book_id, volumes, v)[a]).chapter_number < (
            #[trigger] volumes_fold(book_id, volumes, v)[b]).chapter_number,
    decreases v,
{
    if v > 0 {
        lemma_volumes_fold_numbers(book_id, volumes, v - 1);
        lemma_item_total_monotone(volumes, v, volumes.len() as int);
        let prev = volumes_fold(book_id, volumes, v - 1);
        let start = item_total(volumes, v - 1);
        let vol = volumes[v - 1];
        let len = vol.items@.len() as int;
        lemma_items_fold_numbers(book_id, vol, v - 1, len, start);
        let items = items_fold(book_id, vol, v - 1, len, start);
        let cur = volumes_fold(book_id, volumes, v);
        assert(cur == prev + items);
        assert forall|k: int| 0 <= k < cur.len() implies 1 <= (#[trigger] cur[k]).chapter_number
            <= item_total(volumes, v) by {
            if k < prev.len() {
                assert(cur[k] == prev[k]);
            } else {
                assert(cur[k] == items[k - prev.len()]);
            }
        }
        assert forall|a: int, b: int| 0 <= a < b < cur.len() implies (
        #[trigger] cur[a]).chapter_number < (#[trigger] cur[b]).chapter_number by {
            if b < prev.len() {
                assert(cur[a] == prev[a]);
                assert(cur[b] == prev[b]);
            } else if a < prev.len() {
                assert(cur[a] == prev[a]);
                assert(cur[b] == items[b - prev.len()]);
            } else {
                assert(cur[a] == items[a - prev.len()]);
                assert(cur[b] == items[b - prev.len()]);
            }
        }
    }
}

proof fn lemma_volumes_prefix(book_id: Seq<char>, volumes: Seq<VolumeChapters>, extra: VolumeChapters, v: int)
    requires
        0 <= v <= volumes.len(),
    ensures
        volumes_fold(book_id, volumes.push(extra), v) == volumes_fold(book_id, volumes, v),
        item_total(volumes.push(extra), v) == item_total(volumes, v),
    decreases v,
{
    if v > 0 {
        lemma_volumes_prefix(book_id, volumes, extra, v - 1);
        assert(volumes.push(extra)[v - 1] == volumes[v - 1]);
    }
}

/// Law: the newest chapter of a book whose last volume ends with an unlocked
/// chapter is that chapter: titled `{volume} — {chapter}` (the chapter's title
/// alone under an untitled volume), in the last volume, numbered by how many
/// chapters the volumes list in all, and read at its reader page.
pub proof fn lemma_newest_chapter(book_id: Seq<char>, volumes: Seq<VolumeChapters>, last: VolumeChapters)
    requires
        last.items@.len() > 0,
        !spec_value_truthy(last.items@[last.items@.len() - 1].locked),
    ensures
        ({
            let all = volumes.push(last);
            let r = spec_build_chapters(book_id, all);
            let item = last.items@[last.items@.len() - 1];
            &&& r.len() > 0
            &&& r[0].key == decimal(item.chapter_id as nat)
            &&& r[0].title == Some(
                if last.title@.len() == 0 {
                    item.title@
                } else {
                    last.title@ + " — "@ + item.title@
                },
            )
            &&& r[0].volume_number == Some((volumes.len() + 1) as u64)
            &&& r[0].chapter_number == item_total(all, all.len() as int) as u64
            &&& r[0].url == Some(
                "https://www.lightnovel.fun/reader/"@ + book_id + "/"@ + decimal(
                    item.chapter_id as nat,
                ),
            )
            &&& r[0].published_at == Some(item.published_at@)
        }),
{
    reveal_strlit("https://www.lightnovel.fun");
    reveal_strlit("/reader/");
    reveal_strlit("https://www.lightnovel.fun/reader/");
    let all = volumes.push(last);
    let n = volumes.len() as int;
    lemma_volumes_prefix(book_id, volumes, last, n);
    assert(all[n] == last);
    let start = item_total(all, n);
    let len = last.items@.len() as int;
    let f = volumes_fold(book_id, all, n + 1);
    let items = items_fold(book_id, last, n, len, start);
    assert(f == volumes_fold(book_id, all, n) + items);
    let c = item_chapter(book_id, last, n, len - 1, start);
    assert(items == items_fold(book_id, last, n, len - 1, start).push(c));
    assert(f[f.len() - 1] == c);
    assert(spec_build_chapters(book_id, all)[0] == f[f.len() - 1]);
    assert(item_total(all, n + 1) == start + len);
    assert(c.url->0 =~= "https://www.lightnovel.fun/reader/"@ + book_id + "/"@ + decimal(
        last.items@[len - 1].chapter_id as nat,
    ));
}

/// Law: a chapter is locked when its `locked` value is `true`, a non-zero
/// integer, or one of the strings `1`, `true`, `locked`, `completed`; a locked
/// chapter has no text. Otherwise its text is the Markdown of its HTML (the
/// snapshot's, or the preview's when the snapshot has none) when that is not
/// blank; else the snapshot's plain text, or the preview's when the snapshot
/// has none; and it is missing when what is chosen is blank.
pub proof fn lemma_chapter_text_choice(detail: ChapterDetail, body: Option<Seq<HtmlNode>>)
    ensures
        ({
            let locked = match detail.locked {
                JsonValue::Bool(b) => b,
                JsonValue::Number(n) => n matches Some(x) && x != 0,
                JsonValue::Str(s) => s@ == "1"@ || s@ == "true"@ || s@ == "locked"@ || s@
                    == "completed"@,
                _ => false,
            };
            let html = if detail.body_snapshot.body_html@.len() > 0 {
                detail.body_snapshot.body_html@
            } else {
                detail.render_preview.body_html@
            };
            let md = spec_html_to_markdown(html, body, Flavor::LightNovelFun);
            let plain = if detail.body_snapshot.body_text@.len() > 0 {
                detail.body_snapshot.body_text@
            } else {
                detail.render_preview.body_text@
            };
            spec_chapter_text(detail, body) == if locked {
                Err(SourceError::ChapterLocked)
            } else if trim(md).len() > 0 {
                Ok(md)
            } else if trim(plain).len() > 0 {
                Ok(plain)
            } else {
                Err(SourceError::ChapterTextMissing)
            }
        }),
{
}

/// Law: a blank query asks for page `max(page, 1)` of twenty books of the
/// home feed with every filter `all`; any other query, as given, asks for the
/// zero-based page `page - 1` (saturating) of twenty search results by
/// relevance; so consecutive pages of one query ask for consecutive pages.
pub proof fn lemma_book_list_request_values(query: Option<Seq<char>>, page: i32)
    ensures
        ({
            let r = spec_book_list_request(query, page);
            let q = if query is Some {
                query->0
            } else {
                Seq::empty()
            };
            &&& r.page_size == 20
            &&& r.search == (trim(q).len() > 0)
            &&& !r.search ==> r.path == "/api/bff/home-feed-v1"@ && r.filter == "all"@ && r.page
                == if page < 1 {
                1
            } else {
                page as int
            }
            &&& r.search ==> r.path == "/api/bff/apk-search-result-v1"@ && r.q == q && r.sort
                == "relevance"@ && r.page == if page == i32::MIN {
                page as int
            } else {
                page - 1
            }
            &&& (r.search && page < i32::MAX) ==> spec_book_list_request(query, (page + 1) as i32).page
                == page
        }),
{
}

/// Law: a book keeps its id, title and page; its cover and author where they
/// are not blank; its summary, or else its short summary, where not empty;
/// the names of its visible tags, or of its tags when it shows none; and it
/// is completed exactly when `is_completed` says yes or its serial status is
/// `completed` in any ASCII case.
pub proof fn lemma_book_fields(book: Book)
    ensures
        ({
            let m = spec_book_to_manga(book);
            &&& m.key == decimal(book.book_id as nat)
            &&& m.title == book.title@
            &&& m.cover == if trim(book.cover_url@).len() > 0 {
                Some(book.cover_url@)
            } else {
                None
            }
            &&& m.authors == if trim(book.author_name@).len() > 0 {
                Some(seq![book.author_name@])
            } else {
                None
            }
            &&& m.description == if book.summary@.len() > 0 {
                Some(book.summary@)
            } else if book.summary_short@.len() > 0 {
                Some(book.summary_short@)
            } else {
                None
            }
            &&& m.url == Some("https://www.lightnovel.fun/book/"@ + decimal(book.book_id as nat))
            &&& m.tags == if tag_names(
                if book.visible_tags@.len() == 0 {
                    book.tags@
                } else {
                    book.visible_tags@
                },
            ).len() == 0 {
                None
            } else {
                Some(
                    tag_names(
                        if book.visible_tags@.len() == 0 {
                            book.tags@
                        } else {
                            book.visible_tags@
                        },
                    ),
                )
            }
            &&& (m.status == MangaStatus::Completed) == (spec_value_truthy(book.is_completed) || (
            book.serial_status is Some && eq_ignore_ascii_case(
                book.serial_status->0@,
                "completed"@,
            )))
            &&& m.status != MangaStatus::Unknown
            &&& m.content_rating == ContentRating::Suggestive
        }),
{
    reveal_strlit("https://www.lightnovel.fun");
    reveal_strlit("/book/");
    reveal_strlit("https://www.lightnovel.fun/book/");
    let m = spec_book_to_manga(book);
    assert(m.url->0 =~= "https://www.lightnovel.fun/book/"@ + decimal(book.book_id as nat));
}

/// Law: every chapter that `build_chapters` gives links back, through its
/// address, to itself in the book `book_id`.
pub proof fn lemma_chapters_link_back(book_id: Seq<char>, volumes: Seq<VolumeChapters>)
    requires
        spec_is_id(book_id),
    ensures
        forall|i: int|
            0 <= i < spec_build_chapters(book_id, volumes).len() ==> {
                let c = #[trigger] spec_build_chapters(book_id, volumes)[i];
                c.url is Some && deep_link(c.url->0) == Some(
                    DeepLinkView::Chapter { manga_key: book_id, key: c.key },
                )
            },
{
    lemma_volumes_fold_urls(book_id, volumes, volumes.len() as int);
    let f = volumes_fold(book_id, volumes, volumes.len() as int);
    assert forall|i: int| 0 <= i < spec_build_chapters(book_id, volumes).len() implies {
        let c = #[trigger] spec_build_chapters(book_id, volumes)[i];
        c.url is Some && deep_link(c.url->0) == Some(
            DeepLinkView::Chapter { manga_key: book_id, key: c.key },
        )
    } by {
        let c = f[f.len() - 1 - i];
        assert(spec_build_chapters(book_id, volumes)[i] == c);
        let id = choose|id: nat| c.key == decimal(id) && c.url == Some(spec_reader_url(book_id, id));
        lemma_reader_link_round_trip(book_id, id);
    }
}

proof fn lemma_items_fold_urls(book_id: Seq<char>, volume: VolumeChapters, vi: int, j: int, start: nat)
    ensures
        forall|k: int|
            0 <= k < items_fold(book_id, volume, vi, j, start).len() ==> exists|id: nat|
                (#[trigger] items_fold(book_id, volume, vi, j, start)[k]).key == decimal(id)
                    && items_fold(book_id, volume, vi, j, start)[k].url == Some(
                    spec_reader_url(book_id, id),
                ),
    decreases j,
{
    if j > 0 {
        lemma_items_fold_urls(book_id, volume, vi, j - 1, start);
        let prev = items_fold(book_id, volume, vi, j - 1, start);
        let cur = items_fold(book_id, volume, vi, j, start);
        assert forall|k: int| 0 <= k < cur.len() implies exists|id: nat|
            (#[trigger] cur[k]).key == decimal(id) && cur[k].url == Some(
                spec_reader_url(book_id, id),
            ) by {
            if k < prev.len() {
                assert(cur[k] == prev[k]);
            } else {
                let id = volume.items@[j - 1].chapter_id as nat;
                assert(cur[k] == item_chapter(book_id, volume, vi, j - 1, start));
                assert(cur[k].key == decimal(id));
            }
        }
    }
}

proof fn lemma_volumes_fold_urls(book_id: Seq<char>, volumes: Seq<VolumeChapters>, v: int)
    ensures
        forall|k: int|
            0 <= k < volumes_fold(book_id, volumes, v).len() ==> exists|id: nat|
                (#[trigger] volumes_fold(book_id, volumes, v)[k]).key == decimal(id)
                    && volumes_fold(book_id, volumes, v)[k].url == Some(
                    spec_reader_url(book_id, id),
                ),
    decreases v,
{
    if v > 0 {
        lemma_volumes_fold_urls(book_id, volumes, v - 1);
        let a = volumes_fold(book_id, volumes, v - 1);
        let start = item_total(volumes, v - 1);
        let bb = items_fold(book_id, volumes[v - 1], v - 1, volumes[v - 1].items@.len() as int, start);
        lemma_items_fold_urls(book_id, volumes[v - 1], v - 1, volumes[v - 1].items@.len() as int, start);
        let cur = volumes_fold(book_id, volumes, v);
        assert(cur == a + bb);
        assert forall|k: int| 0 <= k < cur.len() implies exists|id: nat|
            (#[trigger] cur[k]).key == decimal(id) && cur[k].url == Some(
                spec_reader_url(book_id, id),
            ) by {
            if k < a.len() {
                assert(cur[k] == a[k]);
            } else {
                assert(cur[k] == bb[k - a.len()]);
            }
        }
    }
}

} // verus!
