use novel_sources::lightnovelfun::{
    api_address, book_list_page, book_list_request, book_to_manga, book_url, build_chapters,
    chapter_html, chapter_text, eq_ignore_ascii_case_exec, handle_deep_link, next_page,
    open_response, reader_url, tag_name, value_truthy, Book, BookListRequest, ChapterBody,
    ChapterDetail, ChapterItem, JsonValue, VolumeChapters,
};
use novel_sources::markdown::{HtmlElement, HtmlNode};
use novel_sources::model::{ContentRating, DeepLink, MangaStatus, SourceError};

fn st(v: &str) -> JsonValue {
    JsonValue::Str(v.into())
}

fn book(id: u64) -> Book {
    Book {
        book_id: id,
        title: format!("书{id}"),
        author_name: String::new(),
        cover_url: String::new(),
        summary: String::new(),
        summary_short: String::new(),
        serial_status: None,
        is_completed: JsonValue::Null,
        tags: vec![],
        visible_tags: vec![],
    }
}

fn item(id: u64, title: &str, locked: JsonValue) -> ChapterItem {
    ChapterItem {
        chapter_id: id,
        title: title.into(),
        published_at: "2024-01-01 10:00:00".into(),
        locked,
    }
}

fn detail(locked: JsonValue, snapshot: (&str, &str), preview: (&str, &str)) -> ChapterDetail {
    ChapterDetail {
        locked,
        body_snapshot: ChapterBody { body_html: snapshot.0.into(), body_text: snapshot.1.into() },
        render_preview: ChapterBody { body_html: preview.0.into(), body_text: preview.1.into() },
    }
}

fn element(tag: &str, children: Vec<HtmlNode>) -> HtmlNode {
    HtmlNode::Element(HtmlElement { tag: tag.into(), abs_src: None, src: None, children })
}

fn text(t: &str) -> HtmlNode {
    HtmlNode::Text(t.into())
}

#[test]
fn truthy_values() {
    assert!(value_truthy(&JsonValue::Bool(true)));
    assert!(!value_truthy(&JsonValue::Bool(false)));
    assert!(!value_truthy(&JsonValue::Number(Some(0))));
    assert!(value_truthy(&JsonValue::Number(Some(-2))));
    assert!(!value_truthy(&JsonValue::Number(None)));
    for yes in ["1", "true", "locked", "completed"] {
        assert!(value_truthy(&st(yes)));
    }
    assert!(!value_truthy(&st("yes")));
    assert!(!value_truthy(&st("True")));
    assert!(!value_truthy(&JsonValue::Null));
    assert!(!value_truthy(&JsonValue::Array(vec![JsonValue::Bool(true)])));
}

#[test]
fn tag_names() {
    assert_eq!(tag_name(&st("奇幻")).as_deref(), Some("奇幻"));
    assert_eq!(tag_name(&st("")), None);
    let object = JsonValue::Object(vec![
        ("id".into(), JsonValue::Number(Some(1))),
        ("name".into(), JsonValue::Number(Some(2))),
        ("label".into(), st("标签")),
        ("tag_name".into(), st("冒险")),
    ]);
    assert_eq!(tag_name(&object).as_deref(), Some("冒险"));
    let titled = JsonValue::Object(vec![("title".into(), st("标题"))]);
    assert_eq!(tag_name(&titled).as_deref(), Some("标题"));
    let empty_name = JsonValue::Object(vec![("name".into(), st("")), ("title".into(), st("标题"))]);
    assert_eq!(tag_name(&empty_name).as_deref(), Some(""));
    assert_eq!(tag_name(&JsonValue::Object(vec![])), None);
    assert_eq!(tag_name(&JsonValue::Number(Some(3))), None);
}

#[test]
fn ascii_case() {
    assert!(eq_ignore_ascii_case_exec("Completed", "completed"));
    assert!(eq_ignore_ascii_case_exec("COMPLETED", "completed"));
    assert!(!eq_ignore_ascii_case_exec("completed!", "completed"));
    assert!(!eq_ignore_ascii_case_exec("ongoing", "completed"));
}

#[test]
fn books() {
    assert_eq!(book_url(123), "https://www.lightnovel.fun/book/123");
    let mut b = book(12);
    b.author_name = " ".into();
    b.cover_url = "https://img/c.jpg".into();
    b.summary_short = "短简介".into();
    b.serial_status = Some("COMPLETED".into());
    b.tags = vec![st("a"), JsonValue::Null, st("b")];
    let m = book_to_manga(&b);
    assert_eq!(m.key, "12");
    assert_eq!(m.title, "书12");
    assert_eq!(m.authors, None);
    assert_eq!(m.cover.as_deref(), Some("https://img/c.jpg"));
    assert_eq!(m.description.as_deref(), Some("短简介"));
    assert_eq!(m.tags, Some(vec!["a".to_string(), "b".to_string()]));
    assert_eq!(m.status, MangaStatus::Completed);
    assert_eq!(m.url.as_deref(), Some("https://www.lightnovel.fun/book/12"));
    assert_eq!(m.content_rating, ContentRating::Suggestive);

    b.summary = "长简介".into();
    b.author_name = "作者".into();
    b.visible_tags = vec![st("可见")];
    b.serial_status = Some("ongoing".into());
    let m = book_to_manga(&b);
    assert_eq!(m.description.as_deref(), Some("长简介"));
    assert_eq!(m.authors, Some(vec!["作者".to_string()]));
    assert_eq!(m.tags, Some(vec!["可见".to_string()]));
    assert_eq!(m.status, MangaStatus::Ongoing);

    b.is_completed = JsonValue::Number(Some(1));
    assert_eq!(book_to_manga(&b).status, MangaStatus::Completed);

    let bare = book_to_manga(&book(1));
    assert_eq!(bare.description, None);
    assert_eq!(bare.tags, None);
    assert_eq!(bare.cover, None);
}

#[test]
fn list_requests() {
    let browse = |page| BookListRequest::Browse {
        path: "/api/bff/home-feed-v1".into(),
        page,
        page_size: 20,
        filter: "all".into(),
    };
    let search = |q: &str, page| BookListRequest::Search {
        path: "/api/bff/apk-search-result-v1".into(),
        q: q.into(),
        page,
        page_size: 20,
        sort: "relevance".into(),
    };
    assert_eq!(book_list_request(&None, 0), browse(1));
    assert_eq!(book_list_request(&Some("  ".into()), 5), browse(5));
    assert_eq!(book_list_request(&Some("魔法".into()), 1), search("魔法", 0));
    assert_eq!(book_list_request(&Some(" x ".into()), 0), search(" x ", -1));
    assert_eq!(book_list_request(&Some("x".into()), i32::MIN), search("x", i32::MIN));
}

#[test]
fn list_pages() {
    let list = vec![book(1), book(2)];
    let page = book_list_page(&list, 1, 3);
    assert_eq!(page.entries.len(), 2);
    assert_eq!(page.entries[1].key, "2");
    assert!(page.has_next_page);
    assert!(!book_list_page(&list, 3, 3).has_next_page);
    assert!(!book_list_page(&vec![], 0, 0).has_next_page);
}

#[test]
fn lightnovelfun_deep_links() {
    assert_eq!(
        handle_deep_link("https://www.lightnovel.fun/book/123"),
        Some(DeepLink::Manga { key: "123".into() })
    );
    assert_eq!(
        handle_deep_link("https://www.lightnovel.fun/reader/123/456?from=home"),
        Some(DeepLink::Chapter { manga_key: "123".into(), key: "456".into() })
    );
    assert_eq!(
        handle_deep_link("https://www.lightnovel.fun/book/9/extra/"),
        Some(DeepLink::Manga { key: "9".into() })
    );
    assert_eq!(handle_deep_link("https://www.lightnovel.fun/book/abc"), None);
    assert_eq!(handle_deep_link("https://www.lightnovel.fun/reader/123/abc"), None);
    assert_eq!(handle_deep_link("https://www.lightnovel.fun/reader/123"), None);
    assert_eq!(handle_deep_link("https://www.lightnovel.fun/"), None);
}

#[test]
fn lightnovelfun_links_round_trip() {
    assert_eq!(handle_deep_link(&book_url(77)), Some(DeepLink::Manga { key: "77".into() }));
    let reader = reader_url("123", 456);
    assert_eq!(reader, "https://www.lightnovel.fun/reader/123/456");
    assert_eq!(
        handle_deep_link(&reader),
        Some(DeepLink::Chapter { manga_key: "123".into(), key: "456".into() })
    );
}

#[test]
fn pagination() {
    assert_eq!(next_page(1, 3), Some(2));
    assert_eq!(next_page(2, 3), Some(3));
    assert_eq!(next_page(3, 3), None);
    assert_eq!(next_page(1, 0), None);
    assert_eq!(next_page(1, -5), None);
    assert_eq!(next_page(0, 0), Some(1));
}

#[test]
fn chapters_skip_locked_but_keep_numbering() {
    let volumes = vec![
        VolumeChapters {
            volume_id: 1,
            title: "第一卷".into(),
            items: vec![
                item(100, "序章", JsonValue::Bool(false)),
                item(101, "第一章", st("locked")),
                item(102, "第二章", JsonValue::Null),
            ],
        },
        VolumeChapters { volume_id: 2, title: String::new(), items: vec![item(200, "番外", JsonValue::Number(Some(0)))] },
    ];
    let chapters = build_chapters("9", &volumes);
    let keys: Vec<_> = chapters.iter().map(|c| c.key.as_str()).collect();
    assert_eq!(keys, vec!["200", "102", "100"]);
    let titles: Vec<_> = chapters.iter().map(|c| c.title.clone().unwrap()).collect();
    assert_eq!(titles, vec!["番外", "第一卷 — 第二章", "第一卷 — 序章"]);
    let numbers: Vec<_> = chapters.iter().map(|c| c.chapter_number).collect();
    assert_eq!(numbers, vec![4, 3, 1]);
    let volumes_of: Vec<_> = chapters.iter().map(|c| c.volume_number).collect();
    assert_eq!(volumes_of, vec![Some(2), Some(1), Some(1)]);
    assert_eq!(chapters[0].url.as_deref(), Some("https://www.lightnovel.fun/reader/9/200"));
    assert_eq!(chapters[0].published_at.as_deref(), Some("2024-01-01 10:00:00"));
    assert_eq!(chapters[0].language.as_deref(), Some("zh"));
    for c in &chapters {
        assert_eq!(
            handle_deep_link(c.url.as_deref().unwrap()),
            Some(DeepLink::Chapter { manga_key: "9".into(), key: c.key.clone() })
        );
    }
    assert!(build_chapters("9", &vec![]).is_empty());
}

#[test]
fn chapter_sources() {
    assert_eq!(
        chapter_html(&detail(JsonValue::Bool(true), ("<p>a</p>", ""), ("", ""))),
        Err(SourceError::ChapterLocked)
    );
    assert_eq!(chapter_html(&detail(JsonValue::Null, ("<p>a</p>", ""), ("<p>b</p>", ""))).unwrap(), "<p>a</p>");
    assert_eq!(chapter_html(&detail(JsonValue::Null, ("", "x"), ("<p>b</p>", ""))).unwrap(), "<p>b</p>");
}

#[test]
fn chapter_texts() {
    let d = detail(JsonValue::Null, ("<h2>标题</h2><p>正文</p>", "纯文本"), ("", ""));
    let body = Some(vec![
        element("h2", vec![text("标题")]),
        element("p", vec![text("正文"), element("center", vec![text("居中")])]),
    ]);
    assert_eq!(chapter_text(&d, &body).unwrap(), "## 标题\n\n正文居中");
    assert_eq!(chapter_text(&d, &Some(vec![])).unwrap(), "纯文本");
    let preview = detail(JsonValue::Null, ("<p></p>", ""), ("", "预览"));
    assert_eq!(chapter_text(&preview, &Some(vec![])).unwrap(), "预览");
    let blank = detail(JsonValue::Null, ("", " "), ("", ""));
    assert_eq!(chapter_text(&blank, &None), Err(SourceError::ChapterTextMissing));
    let locked = detail(st("1"), ("<p>正文</p>", "正文"), ("", ""));
    assert_eq!(chapter_text(&locked, &body), Err(SourceError::ChapterLocked));
}

#[test]
fn api_answers() {
    assert_eq!(open_response(0, None, 5), Ok(5));
    assert_eq!(
        open_response(401, Some("unauthorized".into()), 5),
        Err(SourceError::ApiCode(401, "unauthorized".into()))
    );
    assert_eq!(open_response(1, None, ()), Err(SourceError::ApiCode(1, String::new())));
    assert_eq!(
        api_address("/api/bff/home-feed-v1"),
        "https://www.lightnovel.fun/api/pc-proxy/api/bff/home-feed-v1"
    );
}
