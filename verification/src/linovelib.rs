//! 嗶哩輕小說 (tw.linovelib.com), read through the JSON API at
//! lnovel.animes.garden.
use vstd::prelude::*;
use crate::markdown::{md_nodes, html_to_markdown, opt_nodes, spec_html_to_markdown, Flavor, HtmlNode};
use crate::model::{
    chapters_view, clone_strings, join_title, join_title_exec, mangas_view, nonempty,
    nonempty_exec, opt_link_view, opt_strings_view, opt_view, reverse_chapters, single,
    strings_view, ChapterInfo, ChapterView, ContentRating, DeepLink, DeepLinkView, MangaInfo,
    MangaPage, MangaStatus, MangaView, SourceError,
};
pub use crate::model::check_status;
use crate::text::{
    before_first, before_first_exec, chars_of, concat2, contains, contains_exec, decimal,
    decimal_string, in_class, is_id_chars, push_decimal, replace, replace_exec, slice_range,
    spec_is_id, split, split_exec, starts_with, starts_with_exec, str_contains, str_eq,
    string_of, string_of_range, to_lowercase, lowercase, trim, trim_bounds, trim_class,
    trim_end_pat, trim_end_pat_exec, trim_start_class, trim_start_exec, trim_string, views,
    CharClass, is_in_class,
};
use crate::url::{
    lemma_before_first_none, lemma_matches_char, lemma_rfind_at,
    lemma_site_path_ignores_query, lemma_split_slash_at, lemma_split_slash_last,
    lemma_strip_query_plain, lemma_trim_end_pat_once, lemma_trim_one_leading_slash, site_path,
    site_path_of,
};
use crate::text::{is_ascii_digit, lemma_trim_idempotent, lemma_trim_start_class, lemma_decimal_is_id, lemma_trim_start_no_leading, matches_at};

verus! {

/// The site's address.
pub open spec fn base_url() -> Seq<char> {
    "https://tw.linovelib.com"@
}

/// The API's address.
pub open spec fn api_url() -> Seq<char> {
    "https://lnovel.animes.garden"@
}

/// How many novels a page of results holds.
pub const PAGE_SIZE: usize = 30;

/// An author of a novel and the part they had (`author` or empty for the writer).
#[derive(Clone, Debug, PartialEq, Eq)]
pub struct ApiAuthor {
    pub name: String,
    pub position: String,
}

/// A volume as a novel lists it.
#[derive(Clone, Debug, PartialEq, Eq)]
pub struct ApiVolumeRef {
    pub vid: u64,
    pub title: String,
}

/// A novel as the API describes it.
#[derive(Clone, Debug, PartialEq, Eq)]
pub struct ApiNovel {
    pub nid: u64,
    pub name: String,
    pub authors: Vec<ApiAuthor>,
    pub description: String,
    pub cover: String,
    pub labels: Vec<String>,
    pub volumes: Vec<ApiVolumeRef>,
}

/// A chapter as a volume lists it.
#[derive(Clone, Debug, PartialEq, Eq)]
pub struct ApiChapterRef {
    pub cid: u64,
    pub title: String,
}

/// A volume with its chapters.
#[derive(Clone, Debug, PartialEq, Eq)]
pub struct ApiVolume {
    pub name: String,
    pub chapters: Vec<ApiChapterRef>,
}

/// A novel of the latest-updates list.
#[derive(Clone, Debug, PartialEq, Eq)]
pub struct TopItem {
    pub nid: u64,
    pub title: String,
    pub cover: String,
    pub author: String,
    pub status: String,
    pub description: String,
}

// ---------------------------------------------------------------------------
// Addresses
// ---------------------------------------------------------------------------

/// The page of the novel `nid`: `{BASE_URL}/novel/{nid}.html`.
pub open spec fn spec_novel_url(nid: nat) -> Seq<char> {
    base_url() + "/novel/"@ + decimal(nid) + ".html"@
}

/// The page of the chapter `cid` of the novel `nid`: `{BASE_URL}/novel/{nid}/{cid}.html`.
pub open spec fn spec_chapter_url(nid: nat, cid: nat) -> Seq<char> {
    base_url() + "/novel/"@ + decimal(nid) + "/"@ + decimal(cid) + ".html"@
}

/// The page of the novel `nid`.
pub fn novel_url(nid: u64) -> (r: String)
    ensures
        r@ == spec_novel_url(nid as nat),
{
    let mut out = concat2("https://tw.linovelib.com", "/novel/");
    push_decimal(&mut out, nid);
    out.append(".html");
    out
}

/// The page of the chapter `cid` of the novel `nid`.
pub fn chapter_url(nid: u64, cid: u64) -> (r: String)
    ensures
        r@ == spec_chapter_url(nid as nat, cid as nat),
{
    let mut out = concat2("https://tw.linovelib.com", "/novel/");
    push_decimal(&mut out, nid);
    out.append("/");
    push_decimal(&mut out, cid);
    out.append(".html");
    out
}

/// The API address for `path`.
pub fn api_address(path: &str) -> (r: String)
    ensures
        r@ == api_url() + path@,
{
    concat2("https://lnovel.animes.garden", path)
}

/// The API path of the latest updates, page `page` (at least 1).
pub fn top_path(page: i32) -> (r: String)
    ensures
        r@ == "/bili/top/lastupdate?page="@ + decimal((if page < 1 {
            1
        } else {
            page
        }) as nat),
{
    let p = if page < 1 {
        1
    } else {
        page
    };
    let mut out = String::new();
    out.append("/bili/top/lastupdate?page=");
    push_decimal(&mut out, p as u64);
    out
}

/// The API path of the novel `key`.
pub fn novel_path(key: &str) -> (r: String)
    ensures
        r@ == "/bili/novel/"@ + key@,
{
    concat2("/bili/novel/", key)
}

/// The API path of the volume `vid` of the novel `nid`.
pub fn volume_path(nid: u64, vid: u64) -> (r: String)
    ensures
        r@ == "/bili/novel/"@ + decimal(nid as nat) + "/vol/"@ + decimal(vid as nat),
{
    let mut out = String::new();
    out.append("/bili/novel/");
    push_decimal(&mut out, nid);
    out.append("/vol/");
    push_decimal(&mut out, vid);
    out
}

/// The API path of the chapter `chapter_key` of the novel `manga_key`.
pub fn chapter_path(manga_key: &str, chapter_key: &str) -> (r: String)
    ensures
        r@ == "/bili/novel/"@ + manga_key@ + "/chapter/"@ + chapter_key@,
{
    let mut out = String::new();
    out.append("/bili/novel/");
    out.append(manga_key);
    out.append("/chapter/");
    out.append(chapter_key);
    out
}

// ---------------------------------------------------------------------------
// Deep links
// ---------------------------------------------------------------------------

/// What a link into tw.linovelib.com points at: `novel/{id}[.html]` is a
/// novel, and a further `{chapter}[.html]` (up to its first `_`) a chapter.
pub open spec fn deep_link(url: Seq<char>) -> Option<DeepLinkView> {
    let path = trim_class(site_path(url, "linovelib.com"@), CharClass::Slash);
    let parts = split(path, "/"@);
    if parts.len() < 2 || parts[0] != "novel"@ {
        None
    } else {
        let book = trim_end_pat(parts[1], ".html"@);
        if !spec_is_id(book) {
            None
        } else if parts.len() >= 3 && spec_is_id(
            before_first(trim_end_pat(parts[2], ".html"@), "_"@),
        ) {
            Some(
                DeepLinkView::Chapter {
                    manga_key: book,
                    key: before_first(trim_end_pat(parts[2], ".html"@), "_"@),
                },
            )
        } else {
            Some(DeepLinkView::Manga { key: book })
        }
    }
}

/// The novel or chapter that a link into the site points at, if any.
pub fn handle_deep_link(url: &str) -> (r: Option<DeepLink>)
    ensures
        opt_link_view(r) == deep_link(url@),
{
    let site = site_path_of(url, "linovelib.com");
    let (a, b) = trim_bounds(site.as_slice(), CharClass::Slash);
    let path = slice_range(site.as_slice(), a, b);
    proof {
        reveal_strlit("/");
    }
    let parts = split_exec(path.as_slice(), "/");
    assert(parts@.len() == views(parts@).len());
    if parts.len() < 2 {
        return None;
    }
    assert(views(parts@)[0] == parts@[0]@);
    assert(views(parts@)[1] == parts@[1]@);
    if !chars_eq_novel(parts[0].as_slice()) {
        return None;
    }
    let end = trim_end_pat_exec(parts[1].as_slice(), ".html");
    let book = slice_range(parts[1].as_slice(), 0, end);
    if !is_id_chars(book.as_slice()) {
        return None;
    }
    if parts.len() >= 3 {
        assert(views(parts@)[2] == parts@[2]@);
        let end2 = trim_end_pat_exec(parts[2].as_slice(), ".html");
        let chapter_full = slice_range(parts[2].as_slice(), 0, end2);
        let chapter = before_first_exec(chapter_full.as_slice(), "_");
        if is_id_chars(chapter.as_slice()) {
            return Some(
                DeepLink::Chapter {
                    manga_key: string_of(book.as_slice()),
                    key: string_of(chapter.as_slice()),
                },
            );
        }
    }
    Some(DeepLink::Manga { key: string_of(book.as_slice()) })
}

fn chars_eq_novel(s: &[char]) -> (r: bool)
    ensures
        r == (s@ == "novel"@),
{
    crate::text::chars_eq(s, "novel")
}

// ---------------------------------------------------------------------------
// Novels
// ---------------------------------------------------------------------------

/// A description with its `<br>` tags turned into line breaks, trimmed.
pub open spec fn spec_clean_description(value: Seq<char>) -> Seq<char> {
    trim(replace(replace(replace(value, "<br />"@, "\n"@), "<br/>"@, "\n"@), "<br>"@, "\n"@))
}

/// A description with its `<br>` tags turned into line breaks, trimmed.
pub fn clean_description(value: &str) -> (r: String)
    ensures
        r@ == spec_clean_description(value@),
{
    proof {
        reveal_strlit("<br />");
        reveal_strlit("<br/>");
        reveal_strlit("<br>");
    }
    let a = replace_exec(value, "<br />", "\n");
    let b = replace_exec(a.as_str(), "<br/>", "\n");
    let c = replace_exec(b.as_str(), "<br>", "\n");
    trim_string(c.as_str())
}

/// A text says the novel is finished: it holds 完结 or 完結.
pub open spec fn says_completed(text: Seq<char>) -> bool {
    contains(text, "完结"@) || contains(text, "完結"@)
}

fn says_completed_exec(text: &str) -> (r: bool)
    ensures
        r == says_completed(text@),
{
    str_contains(text, "完结") || str_contains(text, "完結")
}

/// Completed when a label says so, else ongoing.
pub open spec fn spec_status_from_labels(labels: Seq<String>) -> MangaStatus {
    if exists|i: int| 0 <= i < labels.len() && says_completed((#[trigger] labels[i])@) {
        MangaStatus::Completed
    } else {
        MangaStatus::Ongoing
    }
}

/// The status the labels of a novel give.
pub fn status_from_labels(labels: &Vec<String>) -> (r: MangaStatus)
    ensures
        r == spec_status_from_labels(labels@),
{
    let mut i: usize = 0;
    while i < labels.len()
        invariant
            i <= labels@.len(),
            forall|j: int| 0 <= j < i ==> !says_completed((#[trigger] labels@[j])@),
        decreases labels.len() - i,
    {
        if says_completed_exec(labels[i].as_str()) {
            return MangaStatus::Completed;
        }
        i += 1;
    }
    MangaStatus::Ongoing
}

/// The writers of a novel: its authors whose part is empty or `author`, in order.
pub open spec fn writers(authors: Seq<ApiAuthor>) -> Seq<Seq<char>>
    decreases authors.len(),
{
    if authors.len() == 0 {
        Seq::empty()
    } else if authors.last().position@.len() == 0 || authors.last().position@ == "author"@ {
        writers(authors.drop_last()).push(authors.last().name@)
    } else {
        writers(authors.drop_last())
    }
}

/// A novel of the API as the library describes it.
pub open spec fn spec_novel_to_manga(novel: ApiNovel) -> MangaView {
    let authors = writers(novel.authors@);
    MangaView {
        key: decimal(novel.nid as nat),
        title: novel.name@,
        cover: nonempty(novel.cover@),
        authors: if authors.len() == 0 {
            None
        } else {
            Some(authors)
        },
        description: nonempty(spec_clean_description(novel.description@)),
        url: Some(spec_novel_url(novel.nid as nat)),
        tags: if novel.labels@.len() == 0 {
            None
        } else {
            Some(strings_view(novel.labels@))
        },
        status: spec_status_from_labels(novel.labels@),
        content_rating: ContentRating::Suggestive,
    }
}

/// A novel of the API as the library describes it.
pub fn novel_to_manga(novel: &ApiNovel) -> (r: MangaInfo)
    ensures
        r@ == spec_novel_to_manga(*novel),
{
    let mut authors: Vec<String> = Vec::new();
    let mut i: usize = 0;
    while i < novel.authors.len()
        invariant
            i <= novel.authors@.len(),
            strings_view(authors@) == writers(novel.authors@.take(i as int)),
        decreases novel.authors.len() - i,
    {
        proof {
            assert(novel.authors@.take(i + 1).drop_last() == novel.authors@.take(i as int));
            assert(novel.authors@.take(i + 1).last() == novel.authors@[i as int]);
        }
        let author = &novel.authors[i];
        if author.position.as_str().is_empty() || str_eq(author.position.as_str(), "author") {
            let ghost before = authors@;
            authors.push(author.name.clone());
            assert(strings_view(authors@) =~= strings_view(before).push(author.name@));
        }
        i += 1;
    }
    assert(novel.authors@.take(novel.authors@.len() as int) == novel.authors@);
    let authors = if authors.len() == 0 {
        None
    } else {
        Some(authors)
    };
    let tags = if novel.labels.len() == 0 {
        None
    } else {
        Some(clone_strings(&novel.labels))
    };
    MangaInfo {
        key: decimal_string(novel.nid),
        title: novel.name.clone(),
        cover: nonempty_exec(novel.cover.clone()),
        authors,
        description: nonempty_exec(clean_description(novel.description.as_str())),
        url: Some(novel_url(novel.nid)),
        tags,
        status: status_from_labels(&novel.labels),
        content_rating: ContentRating::Suggestive,
    }
}

/// A novel of the latest-updates list as the library describes it.
pub open spec fn spec_top_item_to_manga(item: TopItem) -> MangaView {
    MangaView {
        key: decimal(item.nid as nat),
        title: item.title@,
        cover: nonempty(item.cover@),
        authors: match nonempty(item.author@) {
            Some(a) => Some(seq![a]),
            None => None,
        },
        description: nonempty(item.description@),
        url: Some(spec_novel_url(item.nid as nat)),
        tags: None,
        status: if says_completed(item.status@) {
            MangaStatus::Completed
        } else {
            MangaStatus::Ongoing
        },
        content_rating: ContentRating::Suggestive,
    }
}

/// A novel of the latest-updates list as the library describes it.
pub fn top_item_to_manga(item: &TopItem) -> (r: MangaInfo)
    ensures
        r@ == spec_top_item_to_manga(*item),
{
    let authors = match nonempty_exec(item.author.clone()) {
        Some(a) => Some(single(a)),
        None => None,
    };
    MangaInfo {
        key: decimal_string(item.nid),
        title: item.title.clone(),
        cover: nonempty_exec(item.cover.clone()),
        authors,
        description: nonempty_exec(item.description.clone()),
        url: Some(novel_url(item.nid)),
        tags: None,
        status: if says_completed_exec(item.status.as_str()) {
            MangaStatus::Completed
        } else {
            MangaStatus::Ongoing
        },
        content_rating: ContentRating::Suggestive,
    }
}

/// The latest updates: a full page means there may be another.
pub open spec fn spec_top_results(items: Seq<TopItem>) -> (Seq<MangaView>, bool) {
    (Seq::new(items.len(), |i: int| spec_top_item_to_manga(items[i])), items.len() >= 30)
}

/// A page of the latest updates.
pub fn top_results(items: &Vec<TopItem>) -> (r: MangaPage)
    ensures
        (mangas_view(r.entries@), r.has_next_page) == spec_top_results(items@),
{
    let mut entries: Vec<MangaInfo> = Vec::new();
    let mut i: usize = 0;
    while i < items.len()
        invariant
            i <= items@.len(),
            entries@.len() == i,
            forall|j: int|
                0 <= j < i ==> (#[trigger] entries@[j])@ == spec_top_item_to_manga(items@[j]),
        decreases items.len() - i,
    {
        entries.push(top_item_to_manga(&items[i]));
        i += 1;
    }
    assert(mangas_view(entries@) =~= spec_top_results(items@).0);
    MangaPage { entries, has_next_page: items.len() >= PAGE_SIZE }
}

// ---------------------------------------------------------------------------
// Search
// ---------------------------------------------------------------------------

/// What a search looks for: the query trimmed and lower-cased, or `None`
/// when the query is blank (then the latest updates are shown).
pub open spec fn spec_search_needle(query: Option<Seq<char>>) -> Option<Seq<char>> {
    match query {
        Some(q) => if trim(q).len() > 0 {
            Some(lowercase(trim(q)))
        } else {
            None
        },
        None => None,
    }
}

/// What a search looks for, if the query is not blank.
pub fn search_needle(query: &Option<String>) -> (r: Option<String>)
    ensures
        opt_view(r) == spec_search_needle(opt_view(*query)),
{
    match query {
        Some(q) => {
            let t = trim_string(q.as_str());
            if t.as_str().is_empty() {
                None
            } else {
                Some(to_lowercase(t.as_str()))
            }
        },
        None => None,
    }
}

/// Whether a novel matches a (lower-case) needle: its name, one of its
/// authors' names or one of its labels, lower-cased, holds the needle.
pub open spec fn spec_novel_matches(novel: ApiNovel, needle: Seq<char>) -> bool {
    ||| contains(lowercase(novel.name@), needle)
    ||| exists|i: int|
        0 <= i < novel.authors@.len() && contains(
            lowercase((#[trigger] novel.authors@[i]).name@),
            needle,
        )
    ||| exists|i: int|
        0 <= i < novel.labels@.len() && contains(lowercase((#[trigger] novel.labels@[i])@), needle)
}

/// Whether a novel matches a (lower-case) needle.
pub fn novel_matches(novel: &ApiNovel, needle: &str) -> (r: bool)
    ensures
        r == spec_novel_matches(*novel, needle@),
{
    if str_contains(to_lowercase(novel.name.as_str()).as_str(), needle) {
        return true;
    }
    let mut i: usize = 0;
    while i < novel.authors.len()
        invariant
            i <= novel.authors@.len(),
            forall|j: int|
                0 <= j < i ==> !contains(lowercase((#[trigger] novel.authors@[j]).name@), needle@),
        decreases novel.authors.len() - i,
    {
        if str_contains(to_lowercase(novel.authors[i].name.as_str()).as_str(), needle) {
            return true;
        }
        i += 1;
    }
    let mut k: usize = 0;
    while k < novel.labels.len()
        invariant
            k <= novel.labels@.len(),
            forall|j: int|
                0 <= j < novel.authors@.len() ==> !contains(
                    lowercase((#[trigger] novel.authors@[j]).name@),
                    needle@,
                ),
            !contains(lowercase(novel.name@), needle@),
            forall|j: int| 0 <= j < k ==> !contains(lowercase((#[trigger] novel.labels@[j])@), needle@),
        decreases novel.labels.len() - k,
    {
        if str_contains(to_lowercase(novel.labels[k].as_str()).as_str(), needle) {
            return true;
        }
        k += 1;
    }
    false
}

/// The novels that match, in order.
pub open spec fn matching(novels: Seq<ApiNovel>, needle: Seq<char>) -> Seq<ApiNovel> {
    novels.filter(|n: ApiNovel| spec_novel_matches(n, needle))
}

/// Where page `page` (at least 1) of thirty results starts.
pub open spec fn page_start(page: i32) -> int {
    ((if page < 1 {
        1
    } else {
        page
    }) - 1) * 30
}

/// Page `page` of the novels that match `needle`: thirty of them from
/// `page_start(page)` on, and whether more follow.
pub open spec fn spec_search_results(novels: Seq<ApiNovel>, needle: Seq<char>, page: i32) -> (
    Seq<MangaView>,
    bool,
) {
    let m = matching(novels, needle);
    let start = page_start(page);
    let end = if start + 30 <= m.len() {
        start + 30
    } else {
        m.len() as int
    };
    (
        if start < m.len() {
            Seq::new((end - start) as nat, |i: int| spec_novel_to_manga(m[start + i]))
        } else {
            Seq::empty()
        },
        m.len() > start + 30,
    )
}

/// A page of the novels that match a search.
pub fn search_results(novels: &Vec<ApiNovel>, needle: &str, page: i32) -> (r: MangaPage)
    ensures
        (mangas_view(r.entries@), r.has_next_page) == spec_search_results(novels@, needle@, page),
{
    let ghost m = matching(novels@, needle@);
    let mut matches: Vec<usize> = Vec::new();
    let mut i: usize = 0;
    while i < novels.len()
        invariant
            i <= novels@.len(),
            matches@.len() == novels@.take(i as int).filter(
                |n: ApiNovel| spec_novel_matches(n, needle@),
            ).len(),
            forall|j: int|
                0 <= j < matches@.len() ==> (#[trigger] matches@[j]) < i && novels@[matches@[j] as int]
                    == novels@.take(i as int).filter(
                    |n: ApiNovel| spec_novel_matches(n, needle@),
                )[j],
        decreases novels.len() - i,
    {
        let ghost pred = |n: ApiNovel| spec_novel_matches(n, needle@);
        proof {
            assert(novels@.take(i + 1).drop_last() == novels@.take(i as int));
            reveal_with_fuel(Seq::filter, 1);
        }
        if novel_matches(&novels[i], needle) {
            matches.push(i);
        }
        i += 1;
    }
    assert(novels@.take(novels@.len() as int) == novels@);
    let p: u64 = if page < 1 {
        1
    } else {
        page as u64
    };
    let start: u64 = (p - 1) * 30;
    let total = matches.len() as u64;
    let has_next_page = total > start + 30;
    let mut entries: Vec<MangaInfo> = Vec::new();
    if start < total {
        let end = if start + 30 <= total {
            start + 30
        } else {
            total
        };
        let mut k: u64 = start;
        while k < end
            invariant
                start <= k <= end <= total,
                total == matches@.len(),
                start as int == page_start(page),
                m == matching(novels@, needle@),
                m.len() == matches@.len(),
                forall|j: int| 0 <= j < matches@.len() ==> (#[trigger] matches@[j]) < novels@.len()
                    && novels@[matches@[j] as int] == m[j],
                entries@.len() == k - start,
                forall|j: int|
                    0 <= j < k - start ==> (#[trigger] entries@[j])@ == spec_novel_to_manga(
                        m[start + j],
                    ),
            decreases end - k,
        {
            let idx = matches[k as usize];
            entries.push(novel_to_manga(&novels[idx]));
            k += 1;
        }
        assert(mangas_view(entries@) =~= spec_search_results(novels@, needle@, page).0);
    } else {
        assert(mangas_view(entries@) =~= spec_search_results(novels@, needle@, page).0);
    }
    MangaPage { entries, has_next_page }
}

// ---------------------------------------------------------------------------
// Volumes and chapters
// ---------------------------------------------------------------------------

/// `s` starts with `number`, followed by its end or a label separator.
pub open spec fn starts_with_number(s: Seq<char>, number: Seq<char>) -> bool {
    starts_with(s, number) && (s.len() == number.len() || in_class(
        s[number.len() as int],
        CharClass::LabelSeparator,
    ))
}

/// A volume's label: its title trimmed, without the novel's title (bare or
/// in 《》) in front, without leading separators, and without the volume's
/// number in front when a separator or the end follows it.
pub open spec fn spec_trim_volume_label(
    novel_title: Seq<char>,
    volume_title: Seq<char>,
    volume_number: nat,
) -> Seq<char> {
    let label = trim(volume_title);
    let title = trim(novel_title);
    let wrapped = "《"@ + title + "》"@;
    let label = if starts_with(label, title) {
        label.skip(title.len() as int)
    } else if starts_with(label, wrapped) {
        label.skip(wrapped.len() as int)
    } else {
        label
    };
    let label = trim_start_class(label, CharClass::LabelSeparator);
    let number = decimal(volume_number);
    if starts_with_number(label, number) {
        trim_start_class(label.skip(number.len() as int), CharClass::LabelSeparator)
    } else {
        label
    }
}

/// A volume's label, from the novel's title, the volume's title and its
/// number (counting from 1).
pub fn trim_volume_label(novel_title: &str, volume_title: &str, volume_number: u64) -> (r: String)
    ensures
        r@ == spec_trim_volume_label(novel_title@, volume_title@, volume_number as nat),
{
    let label = chars_of(trim_string(volume_title).as_str());
    let title = trim_string(novel_title);
    let title_chars = chars_of(title.as_str());
    let mut wrapped = String::new();
    wrapped.append("《");
    wrapped.append(title.as_str());
    wrapped.append("》");
    let label = if starts_with_exec(label.as_slice(), title.as_str()) {
        slice_range(label.as_slice(), title_chars.len(), label.len())
    } else if starts_with_exec(label.as_slice(), wrapped.as_str()) {
        let n = chars_of(wrapped.as_str()).len();
        slice_range(label.as_slice(), n, label.len())
    } else {
        label
    };
    let s = trim_start_exec(label.as_slice(), CharClass::LabelSeparator);
    let label = slice_range(label.as_slice(), s, label.len());
    let number = decimal_string(volume_number);
    let nlen = chars_of(number.as_str()).len();
    if starts_with_exec(label.as_slice(), number.as_str()) && (label.len() == nlen || is_in_class(
        label[nlen],
        CharClass::LabelSeparator,
    )) {
        let rest = slice_range(label.as_slice(), nlen, label.len());
        let s2 = trim_start_exec(rest.as_slice(), CharClass::LabelSeparator);
        string_of_range(rest.as_slice(), s2, rest.len())
    } else {
        string_of(label.as_slice())
    }
}

/// The title a volume goes by: its own name, or the novel's title for it.
pub open spec fn volume_title(novel: ApiNovel, details: Seq<ApiVolume>, v: int) -> Seq<char> {
    if details[v].name@.len() == 0 {
        novel.volumes@[v].title@
    } else {
        details[v].name@
    }
}

/// The chapters of volume `v` (from 0), numbered on from `start`.
pub open spec fn volume_chapters(
    novel: ApiNovel,
    details: Seq<ApiVolume>,
    v: int,
    start: nat,
) -> Seq<ChapterView> {
    let label = spec_trim_volume_label(novel.name@, volume_title(novel, details, v), (v + 1) as nat);
    let items = details[v].chapters@;
    Seq::new(
        items.len(),
        |j: int|
            ChapterView {
                key: decimal(items[j].cid as nat),
                title: Some(join_title(label, items[j].title@)),
                chapter_number: (start + j + 1) as u64,
                volume_number: Some((v + 1) as u64),
                url: Some(spec_chapter_url(novel.nid as nat, items[j].cid as nat)),
                language: Some("zh"@),
                published_at: None,
            },
    )
}

/// The chapters of the first `v` volumes, in reading order.
pub open spec fn chapters_upto(novel: ApiNovel, details: Seq<ApiVolume>, v: int) -> Seq<
    ChapterView,
>
    decreases v,
{
    if v <= 0 {
        Seq::empty()
    } else {
        let before = chapters_upto(novel, details, v - 1);
        before + volume_chapters(novel, details, v - 1, before.len())
    }
}

/// How many chapters the first `v` volumes hold.
pub open spec fn chapter_count(details: Seq<ApiVolume>, v: int) -> nat
    decreases v,
{
    if v <= 0 {
        0
    } else {
        chapter_count(details, v - 1) + details[v - 1].chapters@.len()
    }
}

proof fn lemma_chapters_upto_len(novel: ApiNovel, details: Seq<ApiVolume>, v: int)
    ensures
        chapters_upto(novel, details, v).len() == chapter_count(details, v),
    decreases v,
{
    if v > 0 {
        lemma_chapters_upto_len(novel, details, v - 1);
    }
}

/// The chapters of a novel, newest first, given the details of each of its
/// volumes in order.
pub open spec fn spec_build_chapters(novel: ApiNovel, details: Seq<ApiVolume>) -> Seq<ChapterView> {
    chapters_upto(novel, details, details.len() as int).reverse()
}

/// The chapters of a novel, newest first, from the details of each of its
/// volumes in order (the API's answer for each volume of `novel.volumes`).
pub fn build_chapters(novel: &ApiNovel, details: &Vec<ApiVolume>) -> (r: Vec<ChapterInfo>)
    requires
        details@.len() == novel.volumes@.len(),
        chapter_count(details@, details@.len() as int) < u64::MAX,
    ensures
        chapters_view(r@) == spec_build_chapters(*novel, details@),
{
    let mut chapters: Vec<ChapterInfo> = Vec::new();
    let mut v: usize = 0;
    while v < details.len()
        invariant
            v <= details@.len(),
            details@.len() == novel.volumes@.len(),
            chapter_count(details@, details@.len() as int) < u64::MAX,
            chapters_view(chapters@) == chapters_upto(*novel, details@, v as int),
        decreases details.len() - v,
    {
        proof {
            lemma_chapters_upto_len(*novel, details@, v as int);
            lemma_chapter_count_monotone(details@, v + 1, details@.len() as int);
        }
        let detail = &details[v];
        let title = if detail.name.as_str().is_empty() {
            &novel.volumes[v].title
        } else {
            &detail.name
        };
        let vnum = v as u64 + 1;
        let label = trim_volume_label(novel.name.as_str(), title.as_str(), vnum);
        let ghost before = chapters_view(chapters@);
        let ghost vc = volume_chapters(*novel, details@, v as int, before.len());
        let mut j: usize = 0;
        while j < detail.chapters.len()
            invariant
                j <= detail.chapters@.len(),
                *detail == details@[v as int],
                v < details@.len(),
                vnum == v + 1,
                details@.len() == novel.volumes@.len(),
                label@ == spec_trim_volume_label(
                    novel.name@,
                    volume_title(*novel, details@, v as int),
                    (v + 1) as nat,
                ),
                before.len() + detail.chapters@.len() < u64::MAX,
                vc == volume_chapters(*novel, details@, v as int, before.len()),
                vc.len() == detail.chapters@.len(),
                chapters_view(chapters@) == before + vc.take(j as int),
            decreases detail.chapters.len() - j,
        {
            let item = &detail.chapters[j];
            assert(chapters@.len() == chapters_view(chapters@).len());
            assert(chapters@.len() == before.len() + j);
            let number = chapters.len() as u64 + 1;
            let ghost prev = chapters@;
            chapters.push(
                ChapterInfo {
                    key: decimal_string(item.cid),
                    title: Some(join_title_exec(label.as_str(), item.title.as_str())),
                    chapter_number: number,
                    volume_number: Some(vnum),
                    url: Some(chapter_url(novel.nid, item.cid)),
                    language: Some("zh".to_owned()),
                    published_at: None,
                },
            );
            proof {
                reveal_strlit("zh");
                assert(chapters_view(chapters@) =~= chapters_view(prev).push(
                    chapters@[prev.len() as int]@,
                ));
                assert(vc.take(j + 1) =~= vc.take(j as int).push(vc[j as int]));
            }
            j += 1;
        }
        assert(vc.take(detail.chapters@.len() as int) =~= vc);
        v += 1;
    }
    reverse_chapters(chapters)
}

proof fn lemma_chapter_count_monotone(details: Seq<ApiVolume>, a: int, b: int)
    requires
        a <= b,
    ensures
        chapter_count(details, a) <= chapter_count(details, b),
    decreases b - a,
{
    if a < b {
        lemma_chapter_count_monotone(details, a, b - 1);
    }
}

// ---------------------------------------------------------------------------
// Chapter text and API answers
// ---------------------------------------------------------------------------

/// The text of a chapter whose HTML content is `content`; `ChapterTextMissing`
/// when its Markdown is blank.
pub open spec fn spec_chapter_text(content: Seq<char>, body: Option<Seq<HtmlNode>>) -> Result<
    Seq<char>,
    SourceError,
> {
    let text = spec_html_to_markdown(content, body, Flavor::Linovelib);
    if trim(text).len() == 0 {
        Err(SourceError::ChapterTextMissing)
    } else {
        Ok(text)
    }
}

/// The text of a chapter, given its HTML content and the child nodes of the
/// content's parsed `body`.
pub fn chapter_text(content: &str, body: &Option<Vec<HtmlNode>>) -> (r: Result<String, SourceError>)
    ensures
        match r {
            Ok(t) => spec_chapter_text(content@, opt_nodes(*body)) == Ok::<
                Seq<char>,
                SourceError,
            >(t@),
            Err(e) => spec_chapter_text(content@, opt_nodes(*body)) == Err::<
                Seq<char>,
                SourceError,
            >(e),
        },
{
    let text = html_to_markdown(content, body, Flavor::Linovelib);
    if trim_string(text.as_str()).as_str().is_empty() {
        Err(SourceError::ChapterTextMissing)
    } else {
        Ok(text)
    }
}

/// The data of an API envelope: an error with the API's message (or "request
/// failed") when it is not `ok`, `DataMissing` when it holds no data.
pub fn open_envelope<T>(ok: bool, data: Option<T>, message: Option<String>) -> (r: Result<
    T,
    SourceError,
>)
    ensures
        !ok ==> (r matches Err(SourceError::Api(m)) && m@ == (match message {
            Some(s) => s@,
            None => "request failed"@,
        })),
        ok && data is None ==> (r matches Err(SourceError::DataMissing)),
        ok && data is Some ==> r == Ok::<T, SourceError>(data->0),
{
    if !ok {
        let m = match message {
            Some(s) => s,
            None => "request failed".to_owned(),
        };
        return Err(SourceError::Api(m));
    }
    match data {
        Some(d) => Ok(d),
        None => Err(SourceError::DataMissing),
    }
}

// ---------------------------------------------------------------------------
// Laws
// ---------------------------------------------------------------------------

/// Law: the page of a novel, as the library writes it, links back to the novel.
pub proof fn lemma_novel_link_round_trip(nid: nat)
    ensures
        deep_link(spec_novel_url(nid)) == Some(DeepLinkView::Manga { key: decimal(nid) }),
{
    reveal_strlit("https://tw.linovelib.com");
    reveal_strlit("/novel/");
    reveal_strlit(".html");
    reveal_strlit("linovelib.com");
    reveal_strlit("/");
    reveal_strlit("novel");
    reveal_strlit("novel/");
    let d = decimal(nid);
    lemma_decimal_is_id(nid);
    let nd = d.len() as int;
    let u = spec_novel_url(nid);
    assert(u.len() == 36 + nd);
    assert forall|j: int| 0 <= j < u.len() implies !#[trigger] in_class(
        u[j],
        CharClass::QueryStart,
    ) by {
        if 31 <= j < 31 + nd {
            assert(u[j] == d[j - 31]);
            assert(is_ascii_digit(d[j - 31]));
        }
    }
    lemma_strip_query_plain(u);
    let h = "linovelib.com"@;
    assert(u.subrange(11, 24) =~= h);
    assert forall|i: int| 11 < i implies !#[trigger] matches_at(u, h, i) by {
        if matches_at(u, h, i) {
            lemma_matches_char(u, h, i, 0);
            lemma_matches_char(u, h, i, 1);
            lemma_matches_char(u, h, i, 2);
            if 31 <= i < 31 + nd {
                assert(u[i] == d[i - 31]);
                assert(is_ascii_digit(d[i - 31]));
            }
            if 31 <= i + 1 < 31 + nd {
                assert(u[i + 1] == d[i + 1 - 31]);
                assert(is_ascii_digit(d[i + 1 - 31]));
            }
        }
    }
    lemma_rfind_at(u, h, 11);
    let path = u.skip(24);
    assert(path =~= "/novel/"@ + d + ".html"@);
    lemma_trim_one_leading_slash(path);
    let t = path.skip(1);
    assert(t =~= "novel/"@ + d + ".html"@);
    assert forall|j: int| 6 <= j < t.len() implies #[trigger] t[j] != '/' by {
        if j < 6 + nd {
            assert(t[j] == d[j - 6]);
            assert(is_ascii_digit(d[j - 6]));
        }
    }
    lemma_split_slash_at(t, 0, 5);
    lemma_split_slash_last(t, 6);
    assert("/"@ =~= seq!['/']);
    let parts = split(t, "/"@);
    assert(parts =~= seq![t.subrange(0, 5), t.subrange(6, t.len() as int)]);
    assert(t.subrange(0, 5) =~= "novel"@);
    assert(t.subrange(6, t.len() as int) =~= d + ".html"@);
    assert(is_ascii_digit(d[nd - 1]));
    lemma_trim_end_pat_once(d, ".html"@);
}

/// Law: the page of a chapter, as the library writes it, links back to the
/// chapter of that novel.
pub proof fn lemma_chapter_link_round_trip(nid: nat, cid: nat)
    ensures
        deep_link(spec_chapter_url(nid, cid)) == Some(
            DeepLinkView::Chapter { manga_key: decimal(nid), key: decimal(cid) },
        ),
{
    reveal_strlit("https://tw.linovelib.com");
    reveal_strlit("/novel/");
    reveal_strlit(".html");
    reveal_strlit("linovelib.com");
    reveal_strlit("/");
    reveal_strlit("novel");
    reveal_strlit("novel/");
    reveal_strlit("_");
    let d = decimal(nid);
    let c = decimal(cid);
    lemma_decimal_is_id(nid);
    lemma_decimal_is_id(cid);
    let nd = d.len() as int;
    let nc = c.len() as int;
    let u = spec_chapter_url(nid, cid);
    assert(u.len() == 37 + nd + nc);
    assert forall|j: int| 0 <= j < u.len() implies !#[trigger] in_class(
        u[j],
        CharClass::QueryStart,
    ) by {
        if 31 <= j < 31 + nd {
            assert(u[j] == d[j - 31]);
            assert(is_ascii_digit(d[j - 31]));
        } else if 32 + nd <= j < 32 + nd + nc {
            assert(u[j] == c[j - 32 - nd]);
            assert(is_ascii_digit(c[j - 32 - nd]));
        }
    }
    lemma_strip_query_plain(u);
    let h = "linovelib.com"@;
    assert(u.subrange(11, 24) =~= h);
    assert forall|i: int| 11 < i implies !#[trigger] matches_at(u, h, i) by {
        if matches_at(u, h, i) {
            lemma_matches_char(u, h, i, 0);
            lemma_matches_char(u, h, i, 1);
            lemma_matches_char(u, h, i, 2);
            if 31 <= i < 31 + nd {
                assert(u[i] == d[i - 31]);
                assert(is_ascii_digit(d[i - 31]));
            }
            if 32 + nd <= i < 32 + nd + nc {
                assert(u[i] == c[i - 32 - nd]);
                assert(is_ascii_digit(c[i - 32 - nd]));
            }
        }
    }
    lemma_rfind_at(u, h, 11);
    let path = u.skip(24);
    assert(path =~= "/novel/"@ + d + "/"@ + c + ".html"@);
    lemma_trim_one_leading_slash(path);
    let t = path.skip(1);
    assert(t =~= "novel/"@ + d + "/"@ + c + ".html"@);
    assert forall|j: int| 6 <= j < 6 + nd implies #[trigger] t[j] != '/' by {
        assert(t[j] == d[j - 6]);
        assert(is_ascii_digit(d[j - 6]));
    }
    assert forall|j: int| 7 + nd <= j < t.len() implies #[trigger] t[j] != '/' by {
        if j < 7 + nd + nc {
            assert(t[j] == c[j - 7 - nd]);
            assert(is_ascii_digit(c[j - 7 - nd]));
        }
    }
    lemma_split_slash_at(t, 0, 5);
    lemma_split_slash_at(t, 6, 6 + nd);
    lemma_split_slash_last(t, 7 + nd);
    assert("/"@ =~= seq!['/']);
    assert("_"@ =~= seq!['_']);
    let parts = split(t, "/"@);
    assert(parts =~= seq![
        t.subrange(0, 5),
        t.subrange(6, 6 + nd),
        t.subrange(7 + nd, t.len() as int),
    ]);
    assert(t.subrange(0, 5) =~= "novel"@);
    assert(t.subrange(6, 6 + nd) =~= d);
    assert(t.subrange(7 + nd, t.len() as int) =~= c + ".html"@);
    assert(is_ascii_digit(d[nd - 1]));
    assert(is_ascii_digit(c[nc - 1]));
    lemma_trim_end_pat_once(d, ".html"@);
    lemma_trim_end_pat_once(c, ".html"@);
    assert forall|j: int| 0 <= j < c.len() implies #[trigger] c[j] != '_' by {
        assert(is_ascii_digit(c[j]));
    }
    lemma_before_first_none(c, '_');
}

/// Law: a query or a fragment does not change where a link points.
pub proof fn lemma_deep_link_ignores_query(url: Seq<char>, c: char, rest: Seq<char>)
    requires
        forall|j: int| 0 <= j < url.len() ==> !#[trigger] in_class(url[j], CharClass::QueryStart),
        c == '?' || c == '#',
    ensures
        deep_link(url.push(c) + rest) == deep_link(url),
{
    lemma_site_path_ignores_query(url, c, rest, "linovelib.com"@);
}

/// Law: the chapters are numbered from the oldest, one after another: the
/// `i`-th of `n` (newest first) is number `n - i`; each belongs to the novel
/// and links back to itself.
pub proof fn lemma_build_chapters_numbering(novel: ApiNovel, details: Seq<ApiVolume>)
    requires
        chapter_count(details, details.len() as int) < u64::MAX,
    ensures
        forall|i: int|
            0 <= i < spec_build_chapters(novel, details).len() ==> {
                let c = #[trigger] spec_build_chapters(novel, details)[i];
                &&& c.chapter_number == spec_build_chapters(novel, details).len() - i
                &&& c.url is Some
                &&& deep_link(c.url->0) == Some(
                    DeepLinkView::Chapter { manga_key: decimal(novel.nid as nat), key: c.key },
                )
            },
{
    let n = details.len() as int;
    lemma_chapters_upto_props(novel, details, n);
    lemma_chapters_upto_len(novel, details, n);
    let f = chapters_upto(novel, details, n);
    assert forall|i: int| 0 <= i < spec_build_chapters(novel, details).len() implies {
        let c = #[trigger] spec_build_chapters(novel, details)[i];
        &&& c.chapter_number == spec_build_chapters(novel, details).len() - i
        &&& c.url is Some
        &&& deep_link(c.url->0) == Some(
            DeepLinkView::Chapter { manga_key: decimal(novel.nid as nat), key: c.key },
        )
    } by {
        let c = f[f.len() - 1 - i];
        assert(spec_build_chapters(novel, details)[i] == c);
        let cid = choose|cid: nat| c.key == decimal(cid) && c.url == Some(
            spec_chapter_url(novel.nid as nat, cid));
        lemma_chapter_link_round_trip(novel.nid as nat, cid);
    }
}

proof fn lemma_chapters_upto_props(novel: ApiNovel, details: Seq<ApiVolume>, v: int)
    requires
        chapter_count(details, v) < u64::MAX,
    ensures
        forall|k: int|
            0 <= k < chapters_upto(novel, details, v).len() ==> {
                let c = #[trigger] chapters_upto(novel, details, v)[k];
                &&& c.chapter_number == k + 1
                &&& exists|cid: nat| c.key == decimal(cid) && c.url == Some(
                    spec_chapter_url(novel.nid as nat, cid),
                )
            },
    decreases v,
{
    if v > 0 {
        lemma_chapter_count_monotone(details, v - 1, v);
        lemma_chapters_upto_props(novel, details, v - 1);
        lemma_chapters_upto_len(novel, details, v - 1);
        let a = chapters_upto(novel, details, v - 1);
        let b = volume_chapters(novel, details, v - 1, a.len());
        let cur = chapters_upto(novel, details, v);
        assert(cur == a + b);
        assert forall|k: int| 0 <= k < cur.len() implies {
            let c = #[trigger] cur[k];
            &&& c.chapter_number == k + 1
            &&& exists|cid: nat| c.key == decimal(cid) && c.url == Some(
                spec_chapter_url(novel.nid as nat, cid),
            )
        } by {
            if k < a.len() {
                assert(cur[k] == a[k]);
            } else {
                let j = k - a.len();
                assert(cur[k] == b[j]);
                let cid = details[v - 1].chapters@[j].cid as nat;
                assert(b[j].key == decimal(cid));
            }
        }
    }
}

proof fn lemma_chapters_prefix(novel: ApiNovel, details: Seq<ApiVolume>, extra: ApiVolume, v: int)
    requires
        0 <= v <= details.len(),
    ensures
        chapters_upto(novel, details.push(extra), v) == chapters_upto(novel, details, v),
    decreases v,
{
    if v > 0 {
        lemma_chapters_prefix(novel, details, extra, v - 1);
        assert(details.push(extra)[v - 1] == details[v - 1]);
        assert(volume_chapters(novel, details.push(extra), v - 1, chapter_count(details, v - 1))
            =~= volume_chapters(novel, details, v - 1, chapter_count(details, v - 1)));
        lemma_chapters_upto_len(novel, details, v - 1);
    }
}

/// Law: the newest chapter of a novel whose last volume has chapters is that
/// volume's last chapter: titled `{label} — {chapter}` (the chapter's title
/// alone when the label is empty), where the label comes from the volume's
/// own name (or, when that is empty, the title the novel lists it under) and
/// its number; in the last volume, numbered by how many chapters the volumes
/// hold, and read at its page.
pub proof fn lemma_newest_chapter(novel: ApiNovel, details: Seq<ApiVolume>, last: ApiVolume)
    requires
        last.chapters@.len() > 0,
        details.len() < novel.volumes@.len(),
    ensures
        ({
            let all = details.push(last);
            let n = details.len() as int;
            let r = spec_build_chapters(novel, all);
            let item = last.chapters@[last.chapters@.len() - 1];
            let vt = if last.name@.len() == 0 {
                novel.volumes@[n].title@
            } else {
                last.name@
            };
            let label = spec_trim_volume_label(novel.name@, vt, (n + 1) as nat);
            &&& r.len() > 0
            &&& r[0].key == decimal(item.cid as nat)
            &&& r[0].title == Some(
                if label.len() == 0 {
                    item.title@
                } else {
                    label + " — "@ + item.title@
                },
            )
            &&& r[0].volume_number == Some((n + 1) as u64)
            &&& r[0].chapter_number == chapter_count(all, all.len() as int) as u64
            &&& r[0].url == Some(
                "https://tw.linovelib.com/novel/"@ + decimal(novel.nid as nat) + "/"@ + decimal(
                    item.cid as nat,
                ) + ".html"@,
            )
        }),
{
    reveal_strlit("https://tw.linovelib.com");
    reveal_strlit("/novel/");
    reveal_strlit("https://tw.linovelib.com/novel/");
    let all = details.push(last);
    let n = details.len() as int;
    lemma_chapters_prefix(novel, details, last, n);
    lemma_chapters_upto_len(novel, all, n);
    assert(chapter_count(all, n) == chapter_count(details, n)) by {
        lemma_chapters_upto_len(novel, details, n);
    }
    assert(all[n] == last);
    let before = chapters_upto(novel, all, n);
    let vc = volume_chapters(novel, all, n, before.len());
    let f = chapters_upto(novel, all, n + 1);
    assert(f == before + vc);
    let len = last.chapters@.len() as int;
    assert(f[f.len() - 1] == vc[len - 1]);
    assert(spec_build_chapters(novel, all)[0] == f[f.len() - 1]);
    lemma_chapters_upto_len(novel, all, n + 1);
    assert(vc[len - 1].url->0 =~= "https://tw.linovelib.com/novel/"@ + decimal(novel.nid as nat)
        + "/"@ + decimal(last.chapters@[len - 1].cid as nat) + ".html"@);
}

/// Law: a chapter's text is the Markdown of the content's body, trimmed; it
/// is missing when the content is blank, has no body, or renders blank.
pub proof fn lemma_chapter_text_is_markdown(content: Seq<char>, body: Option<Seq<HtmlNode>>)
    ensures
        spec_chapter_text(content, body) == if trim(content).len() == 0 || body is None {
            Err(SourceError::ChapterTextMissing)
        } else if trim(md_nodes(body->0, Flavor::Linovelib)).len() == 0 {
            Err(SourceError::ChapterTextMissing)
        } else {
            Ok(trim(md_nodes(body->0, Flavor::Linovelib)))
        },
{
    lemma_trim_idempotent(Seq::<char>::empty());
    assert(trim(Seq::<char>::empty()) =~= Seq::<char>::empty()) by {
        assert(crate::text::skip_class_from(Seq::<char>::empty(), CharClass::Whitespace, 0) == 0);
    }
    if body is Some {
        lemma_trim_idempotent(md_nodes(body->0, Flavor::Linovelib));
    }
}

/// Law: a volume's label never begins with a separator.
pub proof fn lemma_volume_label_no_leading_separator(
    novel_title: Seq<char>,
    volume_title: Seq<char>,
    volume_number: nat,
)
    ensures
        ({
            let l = spec_trim_volume_label(novel_title, volume_title, volume_number);
            l.len() == 0 || !in_class(l[0], CharClass::LabelSeparator)
        }),
{
    let label = trim(volume_title);
    let title = trim(novel_title);
    let wrapped = "《"@ + title + "》"@;
    let l1 = if starts_with(label, title) {
        label.skip(title.len() as int)
    } else if starts_with(label, wrapped) {
        label.skip(wrapped.len() as int)
    } else {
        label
    };
    lemma_trim_start_no_leading(l1, CharClass::LabelSeparator);
    let l2 = trim_start_class(l1, CharClass::LabelSeparator);
    let number = decimal(volume_number);
    if starts_with_number(l2, number) {
        lemma_trim_start_no_leading(l2.skip(number.len() as int), CharClass::LabelSeparator);
    }
}

/// Law: a volume's label is what is left at the end of the trimmed volume
/// title: a suffix of it.
pub proof fn lemma_volume_label_is_suffix(
    novel_title: Seq<char>,
    volume_title: Seq<char>,
    volume_number: nat,
)
    ensures
        ({
            let v = trim(volume_title);
            let l = spec_trim_volume_label(novel_title, volume_title, volume_number);
            l.len() <= v.len() && l == v.skip(v.len() - l.len())
        }),
{
    let label = trim(volume_title);
    let title = trim(novel_title);
    let wrapped = "《"@ + title + "》"@;
    let l1 = if starts_with(label, title) {
        label.skip(title.len() as int)
    } else if starts_with(label, wrapped) {
        label.skip(wrapped.len() as int)
    } else {
        label
    };
    assert(l1.len() <= label.len() && l1 =~= label.skip(label.len() - l1.len()));
    lemma_trim_start_class(l1, CharClass::LabelSeparator);
    let l2 = trim_start_class(l1, CharClass::LabelSeparator);
    assert(l2 =~= label.skip(label.len() - l2.len()));
    let number = decimal(volume_number);
    if starts_with_number(l2, number) {
        let l3 = l2.skip(number.len() as int);
        assert(l3 =~= label.skip(label.len() - l3.len()));
        lemma_trim_start_class(l3, CharClass::LabelSeparator);
        let l4 = trim_start_class(l3, CharClass::LabelSeparator);
        assert(l4 =~= label.skip(label.len() - l4.len()));
    }
}

/// Law: a novel of the latest-updates list keeps its id, title and page, its
/// cover, author and description where they are not blank, and is completed
/// exactly when its status says 完结 or 完結.
pub proof fn lemma_top_item_fields(item: TopItem)
    ensures
        ({
            let m = spec_top_item_to_manga(item);
            &&& m.key == decimal(item.nid as nat)
            &&& m.title == item.title@
            &&& m.cover == if trim(item.cover@).len() > 0 {
                Some(item.cover@)
            } else {
                None
            }
            &&& m.authors == if trim(item.author@).len() > 0 {
                Some(seq![item.author@])
            } else {
                None
            }
            &&& m.description == if trim(item.description@).len() > 0 {
                Some(item.description@)
            } else {
                None
            }
            &&& m.url == Some(
                "https://tw.linovelib.com/novel/"@ + decimal(item.nid as nat) + ".html"@,
            )
            &&& m.tags is None
            &&& (m.status == MangaStatus::Completed) == (contains(item.status@, "完结"@)
                || contains(item.status@, "完結"@))
            &&& m.status != MangaStatus::Unknown
            &&& m.content_rating == ContentRating::Suggestive
        }),
{
    reveal_strlit("https://tw.linovelib.com");
    reveal_strlit("/novel/");
    reveal_strlit("https://tw.linovelib.com/novel/");
    let m = spec_top_item_to_manga(item);
    assert(m.url->0 =~= "https://tw.linovelib.com/novel/"@ + decimal(item.nid as nat) + ".html"@);
}

/// Law: a page of the latest updates holds one novel per item, in order, and
/// has a next page exactly when it is full (thirty items or more).
pub proof fn lemma_top_results_page(items: Seq<TopItem>)
    ensures
        spec_top_results(items).0.len() == items.len(),
        forall|i: int|
            0 <= i < items.len() ==> (#[trigger] spec_top_results(items).0[i]).key == decimal(
                items[i].nid as nat,
            ),
        spec_top_results(items).1 == (items.len() >= 30),
{
}

/// Law: a novel of the API keeps its id, name and page; its cover where it
/// is not blank; its tags where it has labels; it is completed exactly when a
/// label says 完结 or 完結; its authors are writers of the novel, and it has
/// some exactly when one of its authors has an empty part or the part
/// `author`.
pub proof fn lemma_novel_fields(novel: ApiNovel)
    ensures
        ({
            let m = spec_novel_to_manga(novel);
            &&& m.key == decimal(novel.nid as nat)
            &&& m.title == novel.name@
            &&& m.cover == if trim(novel.cover@).len() > 0 {
                Some(novel.cover@)
            } else {
                None
            }
            &&& m.url == Some(
                "https://tw.linovelib.com/novel/"@ + decimal(novel.nid as nat) + ".html"@,
            )
            &&& m.tags == if novel.labels@.len() > 0 {
                Some(Seq::new(novel.labels@.len(), |i: int| novel.labels@[i]@))
            } else {
                None
            }
            &&& (m.status == MangaStatus::Completed) == exists|i: int|
                0 <= i < novel.labels@.len() && (contains(
                    (#[trigger] novel.labels@[i])@,
                    "完结"@,
                ) || contains(novel.labels@[i]@, "完結"@))
            &&& m.status != MangaStatus::Unknown
            &&& (m.authors is Some) == exists|i: int|
                0 <= i < novel.authors@.len() && ((#[trigger] novel.authors@[i]).position@.len()
                    == 0 || novel.authors@[i].position@ == "author"@)
            &&& m.authors matches Some(names) ==> forall|k: int|
                #![trigger names[k]]
                0 <= k < names.len() ==> exists|i: int|
                    0 <= i < novel.authors@.len() && (#[trigger] novel.authors@[i]).name@
                        == names[k]
            &&& m.content_rating == ContentRating::Suggestive
        }),
{
    reveal_strlit("https://tw.linovelib.com");
    reveal_strlit("/novel/");
    reveal_strlit("https://tw.linovelib.com/novel/");
    let m = spec_novel_to_manga(novel);
    assert(m.url->0 =~= "https://tw.linovelib.com/novel/"@ + decimal(novel.nid as nat)
        + ".html"@);
    lemma_writers(novel.authors@);
    if novel.labels@.len() > 0 {
        assert(strings_view(novel.labels@) =~= Seq::new(
            novel.labels@.len(),
            |i: int| novel.labels@[i]@,
        ));
    }
}

proof fn lemma_writers(authors: Seq<ApiAuthor>)
    ensures
        (writers(authors).len() > 0) == exists|i: int|
            0 <= i < authors.len() && ((#[trigger] authors[i]).position@.len() == 0
                || authors[i].position@ == "author"@),
        forall|k: int|
            #![trigger writers(authors)[k]]
            0 <= k < writers(authors).len() ==> exists|i: int|
                0 <= i < authors.len() && (#[trigger] authors[i]).name@ == writers(authors)[k],
    decreases authors.len(),
{
    if authors.len() > 0 {
        let prev = authors.drop_last();
        lemma_writers(prev);
        let last = authors.len() - 1;
        assert forall|i: int| 0 <= i < prev.len() implies #[trigger] prev[i] == authors[i] by {}
        let w = writers(authors);
        let wp = writers(prev);
        assert forall|k: int| #![trigger w[k]] 0 <= k < w.len() implies exists|i: int|
            0 <= i < authors.len() && (#[trigger] authors[i]).name@ == w[k] by {
            if k < wp.len() {
                assert(w[k] == wp[k]);
                let i = choose|i: int| 0 <= i < prev.len() && (#[trigger] prev[i]).name@ == wp[k];
                assert(authors[i] == prev[i]);
            } else {
                assert(authors[last].name@ == w[k]);
            }
        }
        if exists|i: int|
            0 <= i < authors.len() && ((#[trigger] authors[i]).position@.len() == 0
                || authors[i].position@ == "author"@) {
            let i = choose|i: int|
                0 <= i < authors.len() && ((#[trigger] authors[i]).position@.len() == 0
                    || authors[i].position@ == "author"@);
            if i < prev.len() {
                assert(prev[i] == authors[i]);
            }
        }
        if wp.len() > 0 {
            let i = choose|i: int|
                0 <= i < prev.len() && ((#[trigger] prev[i]).position@.len() == 0
                    || prev[i].position@ == "author"@);
            assert(prev[i] == authors[i]);
        }
    }
}

proof fn lemma_filter_all(novels: Seq<ApiNovel>, needle: Seq<char>)
    requires
        forall|i: int| 0 <= i < novels.len() ==> spec_novel_matches(#[trigger] novels[i], needle),
    ensures
        matching(novels, needle) == novels,
    decreases novels.len(),
{
    reveal(Seq::filter);
    if novels.len() > 0 {
        let prev = novels.drop_last();
        assert forall|i: int| 0 <= i < prev.len() implies spec_novel_matches(
            #[trigger] prev[i],
            needle,
        ) by {
            assert(prev[i] == novels[i]);
        }
        lemma_filter_all(prev, needle);
        assert(spec_novel_matches(novels[novels.len() - 1], needle));
        assert(novels.filter(|n: ApiNovel| spec_novel_matches(n, needle)) == prev.filter(
            |n: ApiNovel| spec_novel_matches(n, needle),
        ).push(novels.last()));
        assert(prev.push(novels.last()) =~= novels);
    }
}

/// Law: every novel on a page of search results is one whose name, one of
/// whose authors' names, or one of whose labels, lower-cased, holds the
/// needle; and where every novel matches, page `p` (at least 1) lists the
/// novels from `30 * (p - 1)` on, in order, thirty at most.
pub proof fn lemma_search_results_match(novels: Seq<ApiNovel>, needle: Seq<char>, page: i32)
    ensures
        forall|i: int|
            0 <= i < spec_search_results(novels, needle, page).0.len() ==> exists|n: ApiNovel|
                #![trigger spec_novel_to_manga(n)]
                (#[trigger] spec_search_results(novels, needle, page).0[i]) == spec_novel_to_manga(n)
                    && (contains(lowercase(n.name@), needle) || (exists|a: int|
                    0 <= a < n.authors@.len() && contains(
                        lowercase((#[trigger] n.authors@[a]).name@),
                        needle,
                    )) || (exists|l: int|
                    0 <= l < n.labels@.len() && contains(
                        lowercase((#[trigger] n.labels@[l])@),
                        needle,
                    ))),
        (forall|i: int| 0 <= i < novels.len() ==> spec_novel_matches(#[trigger] novels[i], needle))
            ==> ({
            let start = 30 * ((if page < 1 {
                1
            } else {
                page as int
            }) - 1);
            let r = spec_search_results(novels, needle, page).0;
            &&& r.len() == if start >= novels.len() {
                0
            } else if novels.len() - start < 30 {
                novels.len() - start
            } else {
                30
            }
            &&& forall|i: int|
                0 <= i < r.len() ==> #[trigger] r[i] == spec_novel_to_manga(novels[start + i])
        }),
{
    let m = matching(novels, needle);
    let start = page_start(page);
    let r = spec_search_results(novels, needle, page).0;
    assert forall|i: int| 0 <= i < r.len() implies exists|n: ApiNovel|
        #![trigger spec_novel_to_manga(n)]
        (#[trigger] r[i]) == spec_novel_to_manga(n) && (contains(lowercase(n.name@), needle) || (
        exists|a: int|
            0 <= a < n.authors@.len() && contains(
                lowercase((#[trigger] n.authors@[a]).name@),
                needle,
            )) || (exists|l: int|
            0 <= l < n.labels@.len() && contains(lowercase((#[trigger] n.labels@[l])@), needle)))
        by {
        let n = m[start + i];
        novels.lemma_filter_pred(|x: ApiNovel| spec_novel_matches(x, needle), start + i);
        assert(r[i] == spec_novel_to_manga(n));
    }
    if forall|i: int| 0 <= i < novels.len() ==> spec_novel_matches(#[trigger] novels[i], needle) {
        lemma_filter_all(novels, needle);
    }
}

/// Law: a page of search results holds at most thirty novels, and there is a
/// next page exactly when matches remain past it.
pub proof fn lemma_search_page_size(novels: Seq<ApiNovel>, needle: Seq<char>, page: i32)
    ensures
        spec_search_results(novels, needle, page).0.len() <= 30,
        spec_search_results(novels, needle, page).1 == (matching(novels, needle).len()
            > page_start(page) + spec_search_results(novels, needle, page).0.len()),
{
}

} // verus!
