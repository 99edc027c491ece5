use novel_sources::linovelib::{
    api_address, build_chapters, chapter_path, chapter_text, chapter_url, check_status,
    clean_description, handle_deep_link, novel_matches, novel_path, novel_to_manga, novel_url,
    open_envelope, search_needle, search_results, status_from_labels, top_item_to_manga,
    top_path, top_results, trim_volume_label, volume_path, ApiAuthor, ApiChapterRef, ApiNovel,
    ApiVolume, ApiVolumeRef, TopItem, PAGE_SIZE,
};
use novel_sources::markdown::{HtmlElement, HtmlNode};
use novel_sources::model::{ContentRating, DeepLink, MangaStatus, SourceError};

fn author(name: &str, position: &str) -> ApiAuthor {
    ApiAuthor { name: name.into(), position: position.into() }
}

fn novel(nid: u64, name: &str) -> ApiNovel {
    ApiNovel {
        nid,
        name: name.into(),
        authors: vec![],
        description: String::new(),
        cover: String::new(),
        labels: vec![],
        volumes: vec![],
    }
}

fn top_item(nid: u64, status: &str) -> TopItem {
    TopItem {
        nid,
        title: format!("小說{nid}"),
        cover: " ".into(),
        author: "作者".into(),
        status: status.into(),
        description: String::new(),
    }
}

fn element(tag: &str, children: Vec<HtmlNode>) -> HtmlNode {
    HtmlNode::Element(HtmlElement { tag: tag.into(), abs_src: None, src: None, children })
}

fn text(t: &str) -> HtmlNode {
    HtmlNode::Text(t.into())
}

#[test]
fn linovelib_addresses() {
    assert_eq!(PAGE_SIZE, 30);
    assert_eq!(novel_url(3097), "https://tw.linovelib.com/novel/3097.html");
    assert_eq!(chapter_url(3097, 152000), "https://tw.linovelib.com/novel/3097/152000.html");
    assert_eq!(api_address("/bili/novels"), "https://lnovel.animes.garden/bili/novels");
    assert_eq!(top_path(0), "/bili/top/lastupdate?page=1");
    assert_eq!(top_path(4), "/bili/top/lastupdate?page=4");
    assert_eq!(novel_path("3097"), "/bili/novel/3097");
    assert_eq!(volume_path(3097, 12), "/bili/novel/3097/vol/12");
    assert_eq!(chapter_path("3097", "152000"), "/bili/novel/3097/chapter/152000");
}

#[test]
fn linovelib_deep_links() {
    assert_eq!(
        handle_deep_link("https://tw.linovelib.com/novel/3097.html"),
        Some(DeepLink::Manga { key: "3097".into() })
    );
    assert_eq!(
        handle_deep_link("https://tw.linovelib.com/novel/3097/152000_2.html?from=x#top"),
        Some(DeepLink::Chapter { manga_key: "3097".into(), key: "152000".into() })
    );
    assert_eq!(
        handle_deep_link("https://tw.linovelib.com/novel/3097/catalog"),
        Some(DeepLink::Manga { key: "3097".into() })
    );
    assert_eq!(handle_deep_link("https://tw.linovelib.com/novel/abc.html"), None);
    assert_eq!(handle_deep_link("https://tw.linovelib.com/novel/"), None);
    assert_eq!(handle_deep_link("https://tw.linovelib.com/top/lastupdate"), None);
}

#[test]
fn linovelib_links_round_trip() {
    assert_eq!(handle_deep_link(&novel_url(42)), Some(DeepLink::Manga { key: "42".into() }));
    assert_eq!(
        handle_deep_link(&chapter_url(42, 7)),
        Some(DeepLink::Chapter { manga_key: "42".into(), key: "7".into() })
    );
}

#[test]
fn descriptions_and_status() {
    assert_eq!(
        clean_description(" 第一行<br />第二行<br/>第三行<br>第四行 "),
        "第一行\n第二行\n第三行\n第四行"
    );
    assert_eq!(status_from_labels(&vec!["戀愛".into(), "已完結".into()]), MangaStatus::Completed);
    assert_eq!(status_from_labels(&vec!["完结".into()]), MangaStatus::Completed);
    assert_eq!(status_from_labels(&vec!["連載".into()]), MangaStatus::Ongoing);
    assert_eq!(status_from_labels(&vec![]), MangaStatus::Ongoing);
}

#[test]
fn novel_details() {
    let mut n = novel(3097, "藥屋少女");
    n.authors = vec![author("日向夏", "author"), author("しのとうこ", "illustrator"), author("匿名", "")];
    n.description = "簡介<br>第二行".into();
    n.labels = vec!["推理".into(), "完結".into()];
    let m = novel_to_manga(&n);
    assert_eq!(m.key, "3097");
    assert_eq!(m.title, "藥屋少女");
    assert_eq!(m.cover, None);
    assert_eq!(m.authors, Some(vec!["日向夏".to_string(), "匿名".to_string()]));
    assert_eq!(m.description.as_deref(), Some("簡介\n第二行"));
    assert_eq!(m.url.as_deref(), Some("https://tw.linovelib.com/novel/3097.html"));
    assert_eq!(m.tags, Some(vec!["推理".to_string(), "完結".to_string()]));
    assert_eq!(m.status, MangaStatus::Completed);
    assert_eq!(m.content_rating, ContentRating::Suggestive);

    let mut bare = novel(1, "空");
    bare.description = " <br> ".into();
    bare.cover = "https://img/1.jpg".into();
    bare.authors = vec![author("畫師", "illustrator")];
    let m = novel_to_manga(&bare);
    assert_eq!(m.authors, None);
    assert_eq!(m.description, None);
    assert_eq!(m.tags, None);
    assert_eq!(m.cover.as_deref(), Some("https://img/1.jpg"));
    assert_eq!(m.status, MangaStatus::Ongoing);
}

#[test]
fn latest_updates() {
    let m = top_item_to_manga(&top_item(5, "连载中"));
    assert_eq!(m.key, "5");
    assert_eq!(m.title, "小說5");
    assert_eq!(m.cover, None);
    assert_eq!(m.authors, Some(vec!["作者".to_string()]));
    assert_eq!(m.description, None);
    assert_eq!(m.tags, None);
    assert_eq!(m.status, MangaStatus::Ongoing);
    assert_eq!(top_item_to_manga(&top_item(6, "已完结")).status, MangaStatus::Completed);

    let full: Vec<TopItem> = (0..30).map(|i| top_item(i, "")).collect();
    let page = top_results(&full);
    assert_eq!(page.entries.len(), 30);
    assert!(page.has_next_page);
    assert_eq!(page.entries[29].key, "29");
    let short: Vec<TopItem> = (0..29).map(|i| top_item(i, "")).collect();
    assert!(!top_results(&short).has_next_page);
}

#[test]
fn search_terms() {
    assert_eq!(search_needle(&Some("  Sword ART ".into())).as_deref(), Some("sword art"));
    assert_eq!(search_needle(&Some("ÀB".into())).as_deref(), Some("àb"));
    assert_eq!(search_needle(&Some("   ".into())), None);
    assert_eq!(search_needle(&None), None);
}

#[test]
fn matching_novels() {
    let mut n = novel(1, "Sword Art Online");
    assert!(novel_matches(&n, "art"));
    assert!(!novel_matches(&n, "魔法"));
    n.authors = vec![author("Reki KAWAHARA", "author")];
    assert!(novel_matches(&n, "kawahara"));
    n.labels = vec!["魔法少女".into()];
    assert!(novel_matches(&n, "魔法"));
}

#[test]
fn search_pages() {
    let novels: Vec<ApiNovel> = (0..70)
        .map(|i| novel(i, if i % 14 == 13 { "other" } else { "match" }))
        .collect();
    // 5 of the 70 novels do not match, 65 do.
    let first = search_results(&novels, "match", 1);
    assert_eq!(first.entries.len(), 30);
    assert!(first.has_next_page);
    assert_eq!(first.entries[0].key, "0");
    assert_eq!(first.entries[13].key, "14");
    let zero = search_results(&novels, "match", 0);
    assert_eq!(zero.entries.len(), 30);
    let second = search_results(&novels, "match", 2);
    assert_eq!(second.entries.len(), 30);
    assert!(second.has_next_page);
    let third = search_results(&novels, "match", 3);
    assert_eq!(third.entries.len(), 5);
    assert!(!third.has_next_page);
    assert_eq!(third.entries[4].key, "68");
    let fourth = search_results(&novels, "match", 4);
    assert!(fourth.entries.is_empty());
    assert!(!fourth.has_next_page);
}

#[test]
fn volume_labels() {
    assert_eq!(trim_volume_label("藥屋少女", "藥屋少女 第一卷", 1), "第一卷");
    assert_eq!(trim_volume_label(" 藥屋少女 ", "《藥屋少女》2 - 後宮篇", 2), "後宮篇");
    assert_eq!(trim_volume_label("T", "12卷", 1), "12卷");
    assert_eq!(trim_volume_label("T", "1", 1), "");
    assert_eq!(trim_volume_label("T", " T ", 3), "");
    assert_eq!(trim_volume_label("書", "外傳", 4), "外傳");
    for (novel, volume, n) in [("藥屋少女", " 藥屋少女 第一卷 ", 1), ("T", "《T》3·終章", 3), ("T", "-x", 2)] {
        let label = trim_volume_label(novel, volume, n);
        assert!(volume.trim().ends_with(label.as_str()));
        assert!(!label.starts_with(|c: char| c.is_whitespace() || "-—–:：·".contains(c)));
    }
}

#[test]
fn chapters_of_a_novel() {
    let mut n = novel(7, "書");
    n.volumes = vec![
        ApiVolumeRef { vid: 1, title: "書 第一卷".into() },
        ApiVolumeRef { vid: 2, title: "舊名".into() },
    ];
    let details = vec![
        ApiVolume {
            name: String::new(),
            chapters: vec![
                ApiChapterRef { cid: 10, title: "序".into() },
                ApiChapterRef { cid: 11, title: "一".into() },
            ],
        },
        ApiVolume { name: "第二卷".into(), chapters: vec![ApiChapterRef { cid: 20, title: "二".into() }] },
    ];
    let chapters = build_chapters(&n, &details);
    let keys: Vec<_> = chapters.iter().map(|c| c.key.as_str()).collect();
    assert_eq!(keys, vec!["20", "11", "10"]);
    let titles: Vec<_> = chapters.iter().map(|c| c.title.clone().unwrap()).collect();
    assert_eq!(titles, vec!["第二卷 — 二", "第一卷 — 一", "第一卷 — 序"]);
    let numbers: Vec<_> = chapters.iter().map(|c| c.chapter_number).collect();
    assert_eq!(numbers, vec![3, 2, 1]);
    let volumes: Vec<_> = chapters.iter().map(|c| c.volume_number).collect();
    assert_eq!(volumes, vec![Some(2), Some(1), Some(1)]);
    assert_eq!(chapters[0].url.as_deref(), Some("https://tw.linovelib.com/novel/7/20.html"));
    assert_eq!(chapters[0].language.as_deref(), Some("zh"));
    assert!(build_chapters(&novel(1, "x"), &vec![]).is_empty());
}

#[test]
fn chapter_pages() {
    let body = Some(vec![
        element("p", vec![text("第一段")]),
        element("blockquote", vec![element("strong", vec![text("粗")]), element("em", vec![text("斜")])]),
        HtmlNode::Element(HtmlElement {
            tag: "img".into(),
            abs_src: None,
            src: Some("a.png".into()),
            children: vec![],
        }),
    ]);
    assert_eq!(
        chapter_text("<p>第一段</p>...", &body).unwrap(),
        "第一段\n\n**粗***斜*\n\n\n\n![](a.png)"
    );
    assert_eq!(chapter_text("<p> </p>", &Some(vec![text("  ")])), Err(SourceError::ChapterTextMissing));
    assert_eq!(chapter_text("  ", &body), Err(SourceError::ChapterTextMissing));
    assert_eq!(chapter_text("<p>x</p>", &None), Err(SourceError::ChapterTextMissing));
}

#[test]
fn api_envelopes() {
    assert_eq!(open_envelope(false, Some(1), None), Err(SourceError::Api("request failed".into())));
    assert_eq!(open_envelope::<i32>(false, None, Some("bad".into())), Err(SourceError::Api("bad".into())));
    assert_eq!(open_envelope::<i32>(true, None, None), Err(SourceError::DataMissing));
    assert_eq!(open_envelope(true, Some(5), Some("ignored".into())), Ok(5));
    assert_eq!(check_status(200), Ok(()));
    assert_eq!(check_status(299), Ok(()));
    assert_eq!(check_status(300), Err(SourceError::Http(300)));
    assert_eq!(check_status(404), Err(SourceError::Http(404)));
}
