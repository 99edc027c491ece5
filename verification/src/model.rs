//! What the sources hand back: novels, chapters and deep links, and their
//! mathematical views.
use vstd::prelude::*;

verus! {

/// The publication status of a novel.
#[derive(Clone, Copy, PartialEq, Eq, Structural, Debug)]
pub enum MangaStatus {
    Unknown,
    Ongoing,
    Completed,
}

/// The content rating of a novel.
#[derive(Clone, Copy, PartialEq, Eq, Structural, Debug)]
pub enum ContentRating {
    Unknown,
    Safe,
    Suggestive,
    Nsfw,
}

/// A novel, as a source describes it.
#[derive(Clone, Debug, PartialEq, Eq)]
pub struct MangaInfo {
    pub key: String,
    pub title: String,
    pub cover: Option<String>,
    pub authors: Option<Vec<String>>,
    pub description: Option<String>,
    pub url: Option<String>,
    pub tags: Option<Vec<String>>,
    pub status: MangaStatus,
    pub content_rating: ContentRating,
}

/// A chapter. `chapter_number` and `volume_number` are the ordinals that the
/// source counts (1 for the first chapter and the first volume).
/// `published_at` is the source's date text, where it has one.
#[derive(Clone, Debug, PartialEq, Eq)]
pub struct ChapterInfo {
    pub key: String,
    pub title: Option<String>,
    pub chapter_number: u64,
    pub volume_number: Option<u64>,
    pub url: Option<String>,
    pub language: Option<String>,
    pub published_at: Option<String>,
}

/// What a link into a source's site points at.
#[derive(Clone, Debug, PartialEq, Eq)]
pub enum DeepLink {
    Manga { key: String },
    Chapter { manga_key: String, key: String },
}

/// A page of search or browse results.
#[derive(Clone, Debug, PartialEq, Eq)]
pub struct MangaPage {
    pub entries: Vec<MangaInfo>,
    pub has_next_page: bool,
}

/// The view of an optional string.
pub open spec fn opt_view(o: Option<String>) -> Option<Seq<char>> {
    match o {
        Some(s) => Some(s@),
        None => None,
    }
}

/// The views of a list of strings.
pub open spec fn strings_view(v: Seq<String>) -> Seq<Seq<char>> {
    Seq::new(v.len(), |i: int| v[i]@)
}

/// The views of an optional list of strings.
pub open spec fn opt_strings_view(o: Option<Vec<String>>) -> Option<Seq<Seq<char>>> {
    match o {
        Some(v) => Some(strings_view(v@)),
        None => None,
    }
}

/// A novel as a mathematical value: `MangaInfo` with its strings as sequences.
pub struct MangaView {
    pub key: Seq<char>,
    pub title: Seq<char>,
    pub cover: Option<Seq<char>>,
    pub authors: Option<Seq<Seq<char>>>,
    pub description: Option<Seq<char>>,
    pub url: Option<Seq<char>>,
    pub tags: Option<Seq<Seq<char>>>,
    pub status: MangaStatus,
    pub content_rating: ContentRating,
}

impl View for MangaInfo {
    type V = MangaView;

    open spec fn view(&self) -> MangaView {
        MangaView {
            key: self.key@,
            title: self.title@,
            cover: opt_view(self.cover),
            authors: opt_strings_view(self.authors),
            description: opt_view(self.description),
            url: opt_view(self.url),
            tags: opt_strings_view(self.tags),
            status: self.status,
            content_rating: self.content_rating,
        }
    }
}

/// A chapter as a mathematical value.
pub struct ChapterView {
    pub key: Seq<char>,
    pub title: Option<Seq<char>>,
    pub chapter_number: u64,
    pub volume_number: Option<u64>,
    pub url: Option<Seq<char>>,
    pub language: Option<Seq<char>>,
    pub published_at: Option<Seq<char>>,
}

impl View for ChapterInfo {
    type V = ChapterView;

    open spec fn view(&self) -> ChapterView {
        ChapterView {
            key: self.key@,
            title: opt_view(self.title),
            chapter_number: self.chapter_number,
            volume_number: self.volume_number,
            url: opt_view(self.url),
            language: opt_view(self.language),
            published_at: opt_view(self.published_at),
        }
    }
}

/// A deep link as a mathematical value.
pub enum DeepLinkView {
    Manga { key: Seq<char> },
    Chapter { manga_key: Seq<char>, key: Seq<char> },
}

impl View for DeepLink {
    type V = DeepLinkView;

    open spec fn view(&self) -> DeepLinkView {
        match self {
            DeepLink::Manga { key } => DeepLinkView::Manga { key: key@ },
            DeepLink::Chapter { manga_key, key } => DeepLinkView::Chapter {
                manga_key: manga_key@,
                key: key@,
            },
        }
    }
}

/// The view of an optional deep link.
pub open spec fn opt_link_view(o: Option<DeepLink>) -> Option<DeepLinkView> {
    match o {
        Some(l) => Some(l@),
        None => None,
    }
}

/// The views of a list of novels.
pub open spec fn mangas_view(v: Seq<MangaInfo>) -> Seq<MangaView> {
    Seq::new(v.len(), |i: int| v[i]@)
}

/// The views of a list of chapters.
pub open spec fn chapters_view(v: Seq<ChapterInfo>) -> Seq<ChapterView> {
    Seq::new(v.len(), |i: int| v[i]@)
}

} // verus!

verus! {

/// The text of an optional string, empty when there is none (`unwrap_or_default`).
pub open spec fn or_empty(o: Option<String>) -> Seq<char> {
    match o {
        Some(s) => s@,
        None => Seq::empty(),
    }
}

/// The text of an optional string, empty when there is none.
pub fn text_or_empty(o: &Option<String>) -> (r: String)
    ensures
        r@ == or_empty(*o),
{
    match o {
        Some(s) => s.clone(),
        None => String::new(),
    }
}

/// A chapter title under its volume's label: `{volume} — {title}`, or the
/// title alone when the label is empty.
pub open spec fn join_title(volume: Seq<char>, title: Seq<char>) -> Seq<char> {
    if volume.len() == 0 {
        title
    } else {
        volume + " — "@ + title
    }
}

/// A chapter title under its volume's label.
pub fn join_title_exec(volume: &str, title: &str) -> (r: String)
    ensures
        r@ == join_title(volume@, title@),
{
    if volume.is_empty() {
        title.to_owned()
    } else {
        let mut out = volume.to_owned();
        out.append(" — ");
        out.append(title);
        out
    }
}

/// `v` with its items in the opposite order (`Vec::reverse`).
pub fn reverse_chapters(v: Vec<ChapterInfo>) -> (r: Vec<ChapterInfo>)
    ensures
        chapters_view(r@) == chapters_view(v@).reverse(),
{
    let mut v = v;
    let ghost orig = v@;
    let mut out: Vec<ChapterInfo> = Vec::new();
    while v.len() > 0
        invariant
            v@ == orig.take(v@.len() as int),
            v@.len() <= orig.len(),
            out@.len() == orig.len() - v@.len(),
            chapters_view(out@) == chapters_view(orig).reverse().take(orig.len() - v@.len()),
        decreases v@.len(),
    {
        let ghost n = v@.len();
        let c = v.pop().unwrap();
        assert(c == orig[n - 1]);
        let ghost before = out@;
        out.push(c);
        assert(v@ =~= orig.take(v@.len() as int));
        let ghost m = orig.len() - n;
        assert forall|k: int| 0 <= k < out@.len() implies #[trigger] chapters_view(out@)[k]
            == chapters_view(orig).reverse()[k] by {
            if k < before.len() {
                assert(chapters_view(before)[k] == chapters_view(orig).reverse().take(m)[k]);
                assert(out@[k] == before[k]);
            } else {
                assert(k == m);
                assert(out@[k] == c);
                assert(chapters_view(orig)[n - 1] == orig[n - 1]@);
            }
        }
        assert(chapters_view(out@) =~= chapters_view(orig).reverse().take(orig.len() - v@.len()));
    }
    assert(chapters_view(out@) =~= chapters_view(orig).reverse());
    out
}

} // verus!

verus! {

/// Why a source could not give what was asked.
#[derive(Clone, Debug, PartialEq, Eq)]
pub enum SourceError {
    /// The site answered a challenge page instead of content.
    Blocked,
    /// The site answered with this HTTP status.
    Http(i32),
    /// The API reported failure, with its message where it gave one.
    Api(String),
    /// The API answered without the data.
    DataMissing,
    /// The API answered with this error code and message.
    ApiCode(i32, String),
    /// A novel key that is not a valid id.
    InvalidNovelId,
    /// The novel's details were not on its page.
    DetailsNotFound,
    /// The catalog listed no chapters.
    NoChapters,
    /// The chapter's text was not found.
    ChapterTextMissing,
    /// The chapter is locked.
    ChapterLocked,
}

} // verus!

verus! {

/// `Some(s)` unless `s` is blank.
pub open spec fn nonempty(s: Seq<char>) -> Option<Seq<char>> {
    if crate::text::trim(s).len() > 0 {
        Some(s)
    } else {
        None
    }
}

/// `Some(value)` unless `value` is blank.
pub fn nonempty_exec(value: String) -> (r: Option<String>)
    ensures
        opt_view(r) == nonempty(value@),
{
    if crate::text::trim_string(value.as_str()).as_str().is_empty() {
        None
    } else {
        Some(value)
    }
}

/// A one-element list holding `s`.
pub fn single(s: String) -> (r: Vec<String>)
    ensures
        strings_view(r@) == seq![s@],
{
    let mut v: Vec<String> = Vec::new();
    v.push(s);
    assert(strings_view(v@) =~= seq![v@[0]@]);
    v
}

/// A copy of a list of strings.
pub fn clone_strings(v: &Vec<String>) -> (r: Vec<String>)
    ensures
        strings_view(r@) == strings_view(v@),
{
    let mut out: Vec<String> = Vec::new();
    let mut i: usize = 0;
    while i < v.len()
        invariant
            i <= v@.len(),
            out@.len() == i,
            strings_view(out@) == strings_view(v@).take(i as int),
        decreases v.len() - i,
    {
        let ghost before = out@;
        let s = v[i].clone();
        assert(s@ == v@[i as int]@);
        out.push(s);
        assert forall|k: int| 0 <= k < i + 1 implies #[trigger] strings_view(out@)[k]
            == strings_view(v@).take(i + 1)[k] by {
            if k < i {
                assert(out@[k] == before[k]);
                assert(strings_view(before)[k] == strings_view(v@).take(i as int)[k]);
            }
        }
        assert(strings_view(out@) =~= strings_view(v@).take(i + 1));
        i += 1;
    }
    assert(strings_view(v@).take(v@.len() as int) =~= strings_view(v@));
    out
}

/// Whether an API answer with status `status` may be read: 200..300 only.
pub fn check_status(status: i32) -> (r: Result<(), SourceError>)
    ensures
        r == (if 200 <= status < 300 {
            Ok::<(), SourceError>(())
        } else {
            Err(SourceError::Http(status))
        }),
{
    if 200 <= status && status < 300 {
        Ok(())
    } else {
        Err(SourceError::Http(status))
    }
}

} // verus!
