use novel_sources::gbk::{decode_page, percent_encode_gbk};
use novel_sources::markdown::{HtmlElement, HtmlNode};
use novel_sources::model::{ContentRating, DeepLink, MangaStatus, SourceError};
use novel_sources::wenku8::{
    book_key, book_url, catalog_chapters, catalog_url, chapter_text, check_response,
    detail_book_key, extract_between, field_value, first_long_text, handle_deep_link,
    has_next_page, is_cloudflare_challenge, page_url, parse_chapters, parse_detail, parse_grid,
    parse_tags, resolve_url, search_entries, search_url, CatalogCell, CatalogLink, DetailPage,
    GridItem,
};

const CATALOG: &str = "https://www.wenku8.net/modules/article/reader.php?aid=1";

fn s(v: &str) -> Option<String> {
    Some(v.to_string())
}

fn volume_cell(title: &str) -> CatalogCell {
    CatalogCell { class: s("vcss"), text: s(title), link: None }
}

fn chapter_cell(href: &str, title: &str) -> CatalogCell {
    CatalogCell {
        class: s("ccss"),
        text: s(title),
        link: Some(CatalogLink { href: s(href), abs_href: None, text: s(title) }),
    }
}

fn element(tag: &str, children: Vec<HtmlNode>) -> HtmlNode {
    HtmlNode::Element(HtmlElement { tag: tag.to_string(), abs_src: None, src: None, children })
}

fn text(t: &str) -> HtmlNode {
    HtmlNode::Text(t.to_string())
}

fn empty_page() -> DetailPage {
    DetailPage {
        title: None,
        status_cell: None,
        author_cell: None,
        tags_line: None,
        cover: None,
        span_texts: Vec::new(),
    }
}

#[test]
fn parses_gbk_reader_catalog() {
    let fixture = r#"<table>
            <tr><td class="vcss" colspan="4">第一卷</td></tr>
            <tr><td class="ccss"><a href="https://www.wenku8.net/modules/article/reader.php?aid=1&amp;cid=2">第一章</a></td></tr>
            <tr><td class="ccss"></td></tr>
        </table>"#;
    let (data, _, _) = encoding_rs::GBK.encode(fixture);
    assert!(std::str::from_utf8(&data).is_err());
    assert_eq!(decode_page(&data), fixture);
    let cells = vec![
        volume_cell("第一卷"),
        chapter_cell("https://www.wenku8.net/modules/article/reader.php?aid=1&cid=2", "第一章"),
        CatalogCell { class: s("ccss"), text: s(""), link: None },
    ];
    let chapters = parse_chapters(&cells, CATALOG);
    assert_eq!(chapters.len(), 1);
    assert_eq!(chapters[0].title.as_deref(), Some("第一卷 — 第一章"));
    assert_eq!(chapters[0].key, "https://www.wenku8.net/modules/article/reader.php?aid=1&cid=2");
    assert_eq!(chapters[0].chapter_number, 1);
    assert_eq!(chapters[0].language.as_deref(), Some("zh"));
}

#[test]
fn utf8_page_is_read_as_utf8() {
    assert_eq!(decode_page("第一卷".as_bytes()), "第一卷");
}

#[test]
fn catalog_is_numbered_from_the_oldest_and_listed_newest_first() {
    let cells = vec![
        volume_cell(" 第一卷 "),
        chapter_cell("reader.php?aid=1&cid=10", "序章"),
        chapter_cell("/modules/article/reader.php?aid=1&cid=11", " 第一章 "),
        chapter_cell("https://www.wenku8.net/novel/0/1/12.htm", "不是阅读页"),
        chapter_cell("reader.php?aid=1&cid=13", "   "),
        volume_cell(""),
        chapter_cell("reader.php?aid=1&cid=14", "后记"),
        CatalogCell {
            class: s("odd ccss"),
            text: None,
            link: Some(CatalogLink {
                href: None,
                abs_href: s("https://www.wenku8.net/modules/article/reader.php?aid=1&cid=15"),
                text: s("插图"),
            }),
        },
        CatalogCell { class: s("ccssx"), text: None, link: None },
    ];
    let chapters = parse_chapters(&cells, CATALOG);
    let titles: Vec<_> = chapters.iter().map(|c| c.title.clone().unwrap()).collect();
    assert_eq!(titles, vec!["插图", "后记", "第一卷 — 第一章", "第一卷 — 序章"]);
    let numbers: Vec<_> = chapters.iter().map(|c| c.chapter_number).collect();
    assert_eq!(numbers, vec![4, 3, 2, 1]);
    assert_eq!(chapters[3].key, "https://www.wenku8.net/modules/article/reader.php?aid=1&cid=10");
    assert_eq!(chapters[2].key, "https://www.wenku8.net/modules/article/reader.php?aid=1&cid=11");
    assert_eq!(chapters[0].url.as_deref(), Some(chapters[0].key.as_str()));
}

#[test]
fn catalog_errors() {
    let cells = vec![chapter_cell("reader.php?aid=1&cid=2", "第一章")];
    assert_eq!(catalog_chapters(&cells, "abc").unwrap_err(), SourceError::InvalidNovelId);
    assert_eq!(catalog_chapters(&cells, "4294967296").unwrap_err(), SourceError::InvalidNovelId);
    assert_eq!(catalog_chapters(&[], "1").unwrap_err(), SourceError::NoChapters);
    let chapters = catalog_chapters(&cells, "1").unwrap();
    assert_eq!(chapters.len(), 1);
    assert_eq!(chapters[0].key, "https://www.wenku8.net/modules/article/reader.php?aid=1&cid=2");
}

#[test]
fn catalog_address() {
    assert_eq!(catalog_url("1973").as_deref(), Some(CATALOG.replace("aid=1", "aid=1973").as_str()));
    assert_eq!(catalog_url("007").as_deref(), Some("https://www.wenku8.net/modules/article/reader.php?aid=7"));
    assert_eq!(catalog_url(""), None);
    assert_eq!(catalog_url("12a"), None);
}

#[test]
fn deep_link_to_book_page() {
    match handle_deep_link("https://www.wenku8.net/book/2975.htm") {
        Some(DeepLink::Manga { key }) => assert_eq!(key, "2975"),
        _ => panic!("expected a novel link"),
    }
}

#[test]
fn wenku8_deep_links() {
    assert_eq!(
        handle_deep_link("https://www.wenku8.net/book/2975.htm?charset=big5#top"),
        Some(DeepLink::Manga { key: "2975".into() })
    );
    assert_eq!(
        handle_deep_link("https://www.wenku8.net/novel/2/2975/111111.htm"),
        Some(DeepLink::Chapter { manga_key: "2975".into(), key: "/novel/2/2975/111111.htm".into() })
    );
    assert_eq!(
        handle_deep_link("novel/2/2975/111111.htm"),
        Some(DeepLink::Chapter { manga_key: "2975".into(), key: "/novel/2/2975/111111.htm".into() })
    );
    assert_eq!(handle_deep_link("https://www.wenku8.net/book/abc.htm"), None);
    assert_eq!(handle_deep_link("https://www.wenku8.net/novel/2/x/1.htm"), None);
    assert_eq!(handle_deep_link("https://www.wenku8.net/index.php"), None);
}

#[test]
fn book_link_round_trip() {
    let url = book_url("1973");
    assert_eq!(url, "https://www.wenku8.net/book/1973.htm");
    assert_eq!(handle_deep_link(&url), Some(DeepLink::Manga { key: "1973".into() }));
    assert_eq!(book_key(&url).as_deref(), Some("1973"));
}

#[test]
fn book_key_from_detail_address() {
    assert_eq!(book_key("https://www.wenku8.net/book/1973.htm").as_deref(), Some("1973"));
    assert_eq!(book_key("https://www.wenku8.net/book/1973.htm?x=1").as_deref(), Some("1973"));
    assert_eq!(book_key("https://www.wenku8.net/book/1973.htm.htm").as_deref(), Some("1973"));
    assert_eq!(book_key("https://www.wenku8.net/book/abc.htm"), None);
    assert_eq!(book_key("https://www.wenku8.net/index.php"), None);
}

#[test]
fn vote_link_key() {
    assert_eq!(
        detail_book_key("https://www.wenku8.net/modules/article/uservote.php?id=1973&x=1").as_deref(),
        Some("1973")
    );
    assert_eq!(detail_book_key("uservote.php?id=&x=1"), None);
    assert_eq!(detail_book_key("uservote.php"), None);
}

#[test]
fn table_cell_values() {
    assert_eq!(field_value("文章状态：已完结").as_deref(), Some("已完结"));
    assert_eq!(field_value("小说作者: 川原砾 ").as_deref(), Some("川原砾"));
    assert_eq!(field_value("没有冒号"), None);
    assert_eq!(extract_between("作者:川原砾/分类:电击文库", "作者:", "/").as_deref(), Some("川原砾"));
    assert_eq!(extract_between("作者: 川原砾 ", "作者:", "/").as_deref(), Some("川原砾"));
    assert_eq!(extract_between("分类:电击文库", "作者:", "/"), None);
}

#[test]
fn relative_links() {
    assert_eq!(resolve_url(CATALOG, "http://example.com/a"), "http://example.com/a");
    assert_eq!(resolve_url(CATALOG, "/book/1.htm"), "https://www.wenku8.net/book/1.htm");
    assert_eq!(
        resolve_url(CATALOG, "reader.php?aid=1&cid=2"),
        "https://www.wenku8.net/modules/article/reader.php?aid=1&cid=2"
    );
    assert_eq!(resolve_url("nobase", "a.htm"), "nobase/a.htm");
    assert_eq!(page_url("/novel/2/2975/1.htm"), "https://www.wenku8.net/novel/2/2975/1.htm");
    assert_eq!(page_url("https://www.wenku8.net/x"), "https://www.wenku8.net/x");
}

#[test]
fn gbk_percent_encoding() {
    assert_eq!(percent_encode_gbk("魔法"), "%C4%A7%B7%A8");
    assert_eq!(percent_encode_gbk("刀剑 神域"), "%B5%B6%BD%A3%20%C9%F1%D3%F2");
    assert_eq!(percent_encode_gbk("a-b_c.d~e f&"), "a-b_c.d~e%20f%26");
    assert_eq!(percent_encode_gbk(""), "");
}

#[test]
fn search_addresses() {
    assert_eq!(
        search_url(&s("魔法"), 0),
        "https://www.wenku8.net/modules/article/search.php?searchtype=articlename&searchkey=%C4%A7%B7%A8&page=1"
    );
    assert_eq!(
        search_url(&s("   "), 3),
        "https://www.wenku8.net/modules/article/toplist.php?sort=lastupdate&page=3"
    );
    assert_eq!(
        search_url(&None, -5),
        "https://www.wenku8.net/modules/article/toplist.php?sort=lastupdate&page=1"
    );
}

#[test]
fn next_page_links() {
    let links = vec!["/modules/article/toplist.php?sort=lastupdate&page=2".to_string()];
    assert!(has_next_page(&links, 1));
    assert!(has_next_page(&links, -3));
    assert!(!has_next_page(&links, 2));
    assert!(!has_next_page(&Vec::new(), 1));
}

fn grid_item(href: &str, title: Option<String>, text_value: &str) -> GridItem {
    GridItem {
        href: s(href),
        title_attr: title,
        title_text: s("链接文字"),
        text: s(text_value),
        cover: s("https://img.wenku8.com/1.jpg"),
    }
}

#[test]
fn result_grid() {
    let items = vec![
        grid_item("https://www.wenku8.net/book/1973.htm", s("刀剑神域"), "作者:川原砾/分类:电击文库"),
        grid_item("https://www.wenku8.net/book/1973.htm", s("重复"), ""),
        grid_item("https://www.wenku8.net/book/abc.htm", s("坏链接"), ""),
        grid_item("https://www.wenku8.net/book/2.htm", s(""), ""),
        grid_item("https://www.wenku8.net/book/3.htm", None, "没有作者"),
        GridItem { href: None, title_attr: s("无链接"), title_text: None, text: None, cover: None },
    ];
    let entries = parse_grid(&items);
    assert_eq!(entries.len(), 2);
    assert_eq!(entries[0].key, "1973");
    assert_eq!(entries[0].title, "刀剑神域");
    assert_eq!(entries[0].authors, Some(vec!["川原砾".to_string()]));
    assert_eq!(entries[0].url.as_deref(), Some("https://www.wenku8.net/book/1973.htm"));
    assert_eq!(entries[0].cover.as_deref(), Some("https://img.wenku8.com/1.jpg"));
    assert_eq!(entries[0].content_rating, ContentRating::Suggestive);
    assert_eq!(entries[1].key, "3");
    assert_eq!(entries[1].title, "链接文字");
    assert_eq!(entries[1].authors, None);
}

fn long_text() -> String {
    "这是一段很长的简介。".repeat(5)
}

fn detail_page() -> DetailPage {
    DetailPage {
        title: s("刀剑神域"),
        status_cell: s("文章状态：已完结"),
        author_cell: s("小说作者：川原砾"),
        tags_line: s("作品Tags：冒险 战斗/恋爱、游戏,  "),
        cover: s("http://img.wenku8.com/image/1/1973/1973s.jpg"),
        span_texts: vec!["短".to_string(), long_text(), "另一段很长的文字".repeat(10)],
    }
}

#[test]
fn detail_page_fields() {
    let m = parse_detail(&detail_page(), "1973").unwrap();
    assert_eq!(m.key, "1973");
    assert_eq!(m.title, "刀剑神域");
    assert_eq!(m.status, MangaStatus::Completed);
    assert_eq!(m.authors, Some(vec!["川原砾".to_string()]));
    assert_eq!(
        m.tags,
        Some(vec!["冒险".to_string(), "战斗".to_string(), "恋爱".to_string(), "游戏".to_string()])
    );
    assert_eq!(m.cover.as_deref(), Some("https://img.wenku8.com/image/1/1973/1973s.jpg"));
    assert_eq!(m.description, Some(long_text()));
    assert_eq!(m.url.as_deref(), Some("https://www.wenku8.net/book/1973.htm"));
    assert_eq!(m.content_rating, ContentRating::Suggestive);
}

#[test]
fn detail_page_edge_cases() {
    assert_eq!(parse_detail(&empty_page(), "1"), None);
    let mut page = empty_page();
    page.title = s("");
    assert_eq!(parse_detail(&page, "1"), None);
    page.title = s("书名");
    page.status_cell = s("文章状态：连载中");
    let m = parse_detail(&page, "1").unwrap();
    assert_eq!(m.status, MangaStatus::Ongoing);
    assert_eq!(m.tags, None);
    assert_eq!(m.authors, None);
    assert_eq!(m.description, None);
    page.status_cell = s("狀態:完結");
    assert_eq!(parse_detail(&page, "1").unwrap().status, MangaStatus::Completed);
}

#[test]
fn tag_lines() {
    assert_eq!(parse_tags(&s("作品Tags: a,b")), vec!["a".to_string(), "b".to_string()]);
    assert_eq!(parse_tags(&s("没有冒号")), Vec::<String>::new());
    assert_eq!(parse_tags(&None), Vec::<String>::new());
}

#[test]
fn synopsis_is_first_text_over_eighty_bytes() {
    let exactly = "a".repeat(80);
    let over = "a".repeat(81);
    assert_eq!(first_long_text(&vec![exactly.clone()]), None);
    assert_eq!(first_long_text(&vec![exactly, over.clone(), "b".repeat(100)]), Some(over));
    // 27 three-byte characters are 81 bytes.
    let cjk = "字".repeat(27);
    assert_eq!(first_long_text(&vec![cjk.clone()]), Some(cjk));
}

#[test]
fn search_falls_back_to_detail_page() {
    let entries = search_entries(
        &[],
        &s("https://www.wenku8.net/modules/article/uservote.php?id=1973"),
        &detail_page(),
    );
    assert_eq!(entries.len(), 1);
    assert_eq!(entries[0].key, "1973");
    assert!(search_entries(&[], &None, &detail_page()).is_empty());
    let items = vec![grid_item("https://www.wenku8.net/book/5.htm", s("五"), "")];
    let entries = search_entries(&items, &s("uservote.php?id=1973"), &detail_page());
    assert_eq!(entries.len(), 1);
    assert_eq!(entries[0].key, "5");
}

#[test]
fn chapter_text_without_notices() {
    let container = vec![
        text("第一行"),
        element("br", vec![]),
        text("本文来自 轻小说文库(http://www.wenku8.com)"),
        element("p", vec![text("a*b")]),
        element("script", vec![text("var x;")]),
    ];
    assert_eq!(chapter_text(&container).as_deref(), Some("第一行  \na\\*b"));
}

#[test]
fn chapter_text_images_and_missing_text() {
    let image = HtmlNode::Element(HtmlElement {
        tag: "img".into(),
        abs_src: s("http://pic.wenku8.com/1.jpg"),
        src: None,
        children: vec![],
    });
    assert_eq!(chapter_text(&[image]).as_deref(), Some("![](https://pic.wenku8.com/1.jpg)"));
    assert_eq!(chapter_text(&[text("  null ")]), None);
    assert_eq!(chapter_text(&[]), None);
    assert_eq!(chapter_text(&[text("台版 转自 轻之国度")]), None);
    assert_eq!(chapter_text(&[element("b", vec![text("粗")])]).as_deref(), Some("粗"));
}

#[test]
fn responses() {
    assert_eq!(check_response(403, &None), Err(SourceError::Blocked));
    assert_eq!(check_response(200, &s("challenge")), Err(SourceError::Blocked));
    assert_eq!(check_response(404, &None), Err(SourceError::Http(404)));
    assert_eq!(check_response(199, &None), Err(SourceError::Http(199)));
    assert_eq!(check_response(302, &None), Ok(()));
    assert_eq!(check_response(200, &s("other")), Ok(()));
    assert!(is_cloudflare_challenge(false, &s("Just a moment...")));
    assert!(is_cloudflare_challenge(true, &None));
    assert!(!is_cloudflare_challenge(false, &s("輕小說文庫")));
    assert!(!is_cloudflare_challenge(false, &None));
}
