use novel_sources::gbk::percent_encode;
use novel_sources::linovelib::{clean_description, search_needle};
use novel_sources::markdown::{
    classify_tag, convert_children, escape_markdown, html_to_markdown, image_source_exec, Flavor,
    HtmlElement, HtmlNode, TagKind,
};
use novel_sources::model::{join_title_exec, nonempty_exec, reverse_chapters, text_or_empty, ChapterInfo};
use novel_sources::text::{
    decimal_string, is_id, parse_u32, str_contains, trim_string, utf8_longer_than,
};

fn element(tag: &str, children: Vec<HtmlNode>) -> HtmlNode {
    HtmlNode::Element(HtmlElement { tag: tag.into(), abs_src: None, src: None, children })
}

fn image(abs_src: Option<&str>, src: Option<&str>) -> HtmlElement {
    HtmlElement {
        tag: "img".into(),
        abs_src: abs_src.map(String::from),
        src: src.map(String::from),
        children: vec![],
    }
}

#[test]
fn markdown_escaping() {
    assert_eq!(escape_markdown(r"a\b*c_d[e]f"), r"a\\b\*c\_d\[e\]f");
    assert_eq!(escape_markdown("普通文字"), "普通文字");
    assert_eq!(escape_markdown(""), "");
}

#[test]
fn escaping_equals_the_chain_of_replacements() {
    for s in [r"\*_[]", r"**\\__", "a[b]c", r"\\\*", "no specials"] {
        let chained = s
            .replace('\\', "\\\\")
            .replace('*', "\\*")
            .replace('_', "\\_")
            .replace('[', "\\[")
            .replace(']', "\\]");
        assert_eq!(escape_markdown(s), chained);
    }
}

#[test]
fn tag_kinds_per_source() {
    assert_eq!(classify_tag("script", Flavor::Wenku8), TagKind::Skip);
    assert_eq!(classify_tag("center", Flavor::Wenku8), TagKind::Block);
    assert_eq!(classify_tag("center", Flavor::LightNovelFun), TagKind::Inline);
    assert_eq!(classify_tag("blockquote", Flavor::Linovelib), TagKind::Block);
    assert_eq!(classify_tag("blockquote", Flavor::Wenku8), TagKind::Inline);
    assert_eq!(classify_tag("b", Flavor::Wenku8), TagKind::Inline);
    assert_eq!(classify_tag("b", Flavor::Linovelib), TagKind::Strong);
    assert_eq!(classify_tag("i", Flavor::LightNovelFun), TagKind::Emphasis);
    assert_eq!(classify_tag("h3", Flavor::LightNovelFun), TagKind::Heading(3));
    assert_eq!(classify_tag("h3", Flavor::Linovelib), TagKind::Inline);
    assert_eq!(classify_tag("h7", Flavor::LightNovelFun), TagKind::Inline);
    assert_eq!(classify_tag("br", Flavor::Linovelib), TagKind::Break);
    assert_eq!(classify_tag("hr", Flavor::Linovelib), TagKind::Rule);
    assert_eq!(classify_tag("img", Flavor::Wenku8), TagKind::Image);
    assert_eq!(classify_tag("", Flavor::Wenku8), TagKind::Inline);
}

#[test]
fn image_sources() {
    assert_eq!(
        image_source_exec(&image(Some("http://a/1.jpg"), None), Flavor::Wenku8).as_deref(),
        Some("https://a/1.jpg")
    );
    assert_eq!(image_source_exec(&image(None, Some("1.jpg")), Flavor::Wenku8), None);
    assert_eq!(
        image_source_exec(&image(None, Some("1.jpg")), Flavor::Linovelib).as_deref(),
        Some("1.jpg")
    );
    assert_eq!(
        image_source_exec(&image(Some("http://a/1.jpg"), Some("1.jpg")), Flavor::LightNovelFun).as_deref(),
        Some("http://a/1.jpg")
    );
    assert_eq!(image_source_exec(&image(Some(""), Some("1.jpg")), Flavor::LightNovelFun), None);
}

#[test]
fn rendering_appends() {
    let mut out = String::from("前:");
    convert_children(
        &[
            element("hr", vec![]),
            HtmlNode::Other,
            element("h1", vec![HtmlNode::Text("题".into())]),
            element("style", vec![HtmlNode::Text("p{}".into())]),
        ],
        Flavor::LightNovelFun,
        &mut out,
    );
    assert_eq!(out, "前:\n\n---\n\n# 题\n\n");
}

#[test]
fn fragments() {
    let body = Some(vec![element("p", vec![HtmlNode::Text(" 段 ".into())])]);
    assert_eq!(html_to_markdown("<p> 段 </p>", &body, Flavor::Linovelib), "段");
    assert_eq!(html_to_markdown(" \n ", &body, Flavor::Linovelib), "");
    assert_eq!(html_to_markdown("<p>x</p>", &None, Flavor::Linovelib), "");
}

#[test]
fn whitespace_and_case() {
    assert_eq!(trim_string("\u{3000} 文字\t\n"), "文字");
    assert_eq!(trim_string("\u{a0}a b\u{2028}"), "a b");
    assert_eq!(trim_string("-a-"), "-a-");
    assert_eq!(search_needle(&Some("ÀBC Def".into())).as_deref(), Some("àbc def"));
    assert_eq!(search_needle(&Some("中文".into())).as_deref(), Some("中文"));
}

#[test]
fn numbers_and_ids() {
    assert_eq!(decimal_string(0), "0");
    assert_eq!(decimal_string(18446744073709551615), "18446744073709551615");
    assert_eq!(parse_u32("4294967295"), Some(4294967295));
    assert_eq!(parse_u32("4294967296"), None);
    assert_eq!(parse_u32("0042"), Some(42));
    assert_eq!(parse_u32(""), None);
    assert_eq!(parse_u32("-1"), None);
    assert_eq!(parse_u32("+7"), Some(7));
    assert!(is_id("0123"));
    assert!(!is_id(""));
    assert!(!is_id("12a"));
    assert!(!is_id("１２"));
}

#[test]
fn string_helpers() {
    assert_eq!(clean_description("a<br/>b<br /><br>c"), "a\nb\n\nc");
    assert!(str_contains("abc", ""));
    assert!(str_contains("轻小说文库", "小说"));
    assert!(!str_contains("abc", "abcd"));
    assert!(utf8_longer_than("字字", 5));
    assert!(!utf8_longer_than("字字", 6));
    assert_eq!(percent_encode(&[0x00, 0x41, 0xFF, 0x2F]), "%00A%FF%2F");
}

#[test]
fn titles_and_options() {
    assert_eq!(join_title_exec("第一卷", "第一章"), "第一卷 — 第一章");
    assert_eq!(join_title_exec("", "第一章"), "第一章");
    assert_eq!(nonempty_exec(" x ".into()).as_deref(), Some(" x "));
    assert_eq!(nonempty_exec(" \t".into()), None);
    assert_eq!(text_or_empty(&None), "");
    assert_eq!(text_or_empty(&Some("t".into())), "t");
}

#[test]
fn chapters_reverse() {
    let chapter = |n: u64| ChapterInfo {
        key: n.to_string(),
        title: None,
        chapter_number: n,
        volume_number: None,
        url: None,
        language: None,
        published_at: None,
    };
    let reversed = reverse_chapters(vec![chapter(1), chapter(2), chapter(3)]);
    let keys: Vec<_> = reversed.iter().map(|c| c.key.as_str()).collect();
    assert_eq!(keys, vec!["3", "2", "1"]);
}

#[test]
fn percent_encoding_round_trips() {
    let bytes: Vec<u8> = (0..=255).collect();
    let encoded = percent_encode(&bytes);
    assert!(encoded.is_ascii());
    let chars: Vec<char> = encoded.chars().collect();
    let mut decoded = Vec::new();
    let mut i = 0;
    while i < chars.len() {
        if chars[i] == '%' {
            let hex: String = chars[i + 1..i + 3].iter().collect();
            decoded.push(u8::from_str_radix(&hex, 16).unwrap());
            i += 3;
        } else {
            decoded.push(chars[i] as u8);
            i += 1;
        }
    }
    assert_eq!(decoded, bytes);
}

#[test]
fn numerals_parse_back() {
    for n in [0u32, 7, 10, 1973, 4294967295] {
        assert_eq!(parse_u32(&decimal_string(n as u64)), Some(n));
    }
}

#[test]
fn escaping_adds_one_backslash_per_special_character() {
    for s in [r"a\b*c_d[e]f", "普通", "", r"\\"] {
        let specials = s.chars().filter(|c| "\\*_[]".contains(*c)).count();
        let escaped = escape_markdown(s);
        assert_eq!(escaped.chars().count(), s.chars().count() + specials);
        let mut back = String::new();
        let mut chars = escaped.chars();
        while let Some(c) = chars.next() {
            if c == '\\' {
                back.push(chars.next().unwrap());
            } else {
                back.push(c);
            }
        }
        assert_eq!(back, s);
    }
}

#[test]
fn markdown_is_trimmed() {
    let body = Some(vec![element("p", vec![HtmlNode::Text("\u{3000}段\t".into())])]);
    let md = html_to_markdown("<p>段</p>", &body, Flavor::LightNovelFun);
    assert_eq!(md, md.trim());
    assert_eq!(md, "段");
}

#[test]
fn percent_encoding_shape() {
    let bytes: Vec<u8> = (0..=255).collect();
    let encoded = percent_encode(&bytes);
    let unreserved = bytes
        .iter()
        .filter(|b| b.is_ascii_alphanumeric() || b"-_.~".contains(b))
        .count();
    assert_eq!(encoded.chars().count(), unreserved + 3 * (256 - unreserved));
    let chars: Vec<char> = encoded.chars().collect();
    for (i, c) in chars.iter().enumerate() {
        assert!(c.is_ascii_alphanumeric() || "-_.~%".contains(*c));
        if *c == '%' {
            assert!(chars[i + 1].is_ascii_hexdigit() && !chars[i + 1].is_ascii_lowercase());
            assert!(chars[i + 2].is_ascii_hexdigit() && !chars[i + 2].is_ascii_lowercase());
        }
    }
}
