//! Chapter HTML rendered as Markdown text, the way each source renders it.
use vstd::prelude::*;
use crate::text::{
    chars_eq, chars_of, find_from, lemma_find_from_bounds, lemma_find_from_first, push_char, replace, replace_exec,
    replace_from, trim, trim_string, lemma_trim_idempotent, skip_class_from, CharClass,
};
use crate::url::lemma_matches_single;

verus! {

/// A node of parsed HTML: what the renderer reads of it.
#[derive(Debug)]
pub enum HtmlNode {
    /// A text node, with its text.
    Text(String),
    /// An element.
    Element(HtmlElement),
    /// Any other node (comment, doctype, ...), which renders as nothing.
    Other,
}

/// An HTML element: its tag name (empty when it has none), its `abs:src` and
/// `src` attributes, and its child nodes.
#[derive(Debug)]
pub struct HtmlElement {
    pub tag: String,
    pub abs_src: Option<String>,
    pub src: Option<String>,
    pub children: Vec<HtmlNode>,
}

/// Which source's rendering rules apply.
#[derive(Clone, Copy, PartialEq, Eq, Structural, Debug)]
pub enum Flavor {
    Wenku8,
    Linovelib,
    LightNovelFun,
}

/// What an element's tag makes of it.
#[derive(Clone, Copy, PartialEq, Eq, Structural, Debug)]
pub enum TagKind {
    /// `script` and `style`: dropped with their content.
    Skip,
    /// A block: its content, then a blank line.
    Block,
    /// `br`: a hard line break.
    Break,
    /// `hr`: a thematic break.
    Rule,
    /// `strong`, `b`: bold.
    Strong,
    /// `em`, `i`: italic.
    Emphasis,
    /// `img`: an image.
    Image,
    /// `h1` to `h6`, with the level.
    Heading(u8),
    /// Anything else: its content only.
    Inline,
}

/// What the tag `tag` makes of an element under the rules of `f`.
pub open spec fn tag_kind(tag: Seq<char>, f: Flavor) -> TagKind {
    if tag == "script"@ || tag == "style"@ {
        TagKind::Skip
    } else if tag == "p"@ || tag == "div"@ || tag == "section"@ || (f != Flavor::LightNovelFun
        && tag == "center"@) || (f == Flavor::Linovelib && tag == "blockquote"@) {
        TagKind::Block
    } else if tag == "br"@ {
        TagKind::Break
    } else if tag == "hr"@ {
        TagKind::Rule
    } else if f != Flavor::Wenku8 && (tag == "strong"@ || tag == "b"@) {
        TagKind::Strong
    } else if f != Flavor::Wenku8 && (tag == "em"@ || tag == "i"@) {
        TagKind::Emphasis
    } else if tag == "img"@ {
        TagKind::Image
    } else if f == Flavor::LightNovelFun && tag.len() == 2 && tag[0] == 'h' && '1' <= tag[1]
        <= '6' {
        TagKind::Heading((tag[1] as int - '0' as int) as u8)
    } else {
        TagKind::Inline
    }
}

/// The Markdown escape of one character: `\`, `*`, `_`, `[` and `]` get a backslash.
pub open spec fn escape_char(c: char) -> Seq<char> {
    if c == '\\' || c == '*' || c == '_' || c == '[' || c == ']' {
        seq!['\\', c]
    } else {
        seq![c]
    }
}

/// `s` with every Markdown-special character escaped.
pub open spec fn escaped(s: Seq<char>) -> Seq<char>
    decreases s.len(),
{
    if s.len() == 0 {
        seq![]
    } else {
        escaped(s.drop_last()) + escape_char(s.last())
    }
}

/// The image source an `img` element renders with, if any.
pub open spec fn image_source(e: HtmlElement, f: Flavor) -> Option<Seq<char>> {
    if f == Flavor::Wenku8 {
        match e.abs_src {
            Some(s) => if s@.len() > 0 {
                Some(replace(s@, "http://"@, "https://"@))
            } else {
                None
            },
            None => None,
        }
    } else {
        let chosen = if e.abs_src is Some {
            e.abs_src
        } else {
            e.src
        };
        match chosen {
            Some(s) => if s@.len() > 0 {
                Some(s@)
            } else {
                None
            },
            None => None,
        }
    }
}

/// `n` hash signs: the marker of a level-`n` heading.
pub open spec fn hashes(n: nat) -> Seq<char>
    decreases n,
{
    if n == 0 {
        seq![]
    } else {
        hashes((n - 1) as nat).push('#')
    }
}

/// The Markdown of a node.
pub open spec fn md_node(n: HtmlNode, f: Flavor) -> Seq<char>
    decreases n,
{
    match n {
        HtmlNode::Text(t) => escaped(t@),
        HtmlNode::Other => seq![],
        HtmlNode::Element(e) => md_element(e, f),
    }
}

/// The Markdown of an element.
pub open spec fn md_element(e: HtmlElement, f: Flavor) -> Seq<char>
    decreases e,
{
    match tag_kind(e.tag@, f) {
            TagKind::Skip => seq![],
            TagKind::Block => md_nodes(e.children@, f) + "\n\n"@,
            TagKind::Break => "  \n"@,
            TagKind::Rule => "\n\n---\n\n"@,
            TagKind::Strong => "**"@ + md_nodes(e.children@, f) + "**"@,
            TagKind::Emphasis => "*"@ + md_nodes(e.children@, f) + "*"@,
            TagKind::Image => match image_source(e, f) {
                Some(src) => "\n\n![]("@ + src + ")\n\n"@,
                None => seq![],
            },
            TagKind::Heading(level) => hashes(level as nat) + " "@ + md_nodes(e.children@, f)
                + "\n\n"@,
            TagKind::Inline => md_nodes(e.children@, f),
    }
}

/// The Markdown of a sequence of nodes: theirs, one after another.
pub open spec fn md_nodes(ns: Seq<HtmlNode>, f: Flavor) -> Seq<char>
    decreases ns,
{
    if ns.len() == 0 {
        seq![]
    } else {
        md_nodes(ns.drop_last(), f) + md_node(ns.last(), f)
    }
}


/// The kind of an element with tag `tag`.
pub fn classify_tag(tag: &str, f: Flavor) -> (k: TagKind)
    ensures
        k == tag_kind(tag@, f),
{
    let t = chars_of(tag);
    let t = t.as_slice();
    if chars_eq(t, "script") || chars_eq(t, "style") {
        TagKind::Skip
    } else if chars_eq(t, "p") || chars_eq(t, "div") || chars_eq(t, "section") || (f
        != Flavor::LightNovelFun && chars_eq(t, "center")) || (f == Flavor::Linovelib && chars_eq(
        t,
        "blockquote",
    )) {
        TagKind::Block
    } else if chars_eq(t, "br") {
        TagKind::Break
    } else if chars_eq(t, "hr") {
        TagKind::Rule
    } else if f != Flavor::Wenku8 && (chars_eq(t, "strong") || chars_eq(t, "b")) {
        TagKind::Strong
    } else if f != Flavor::Wenku8 && (chars_eq(t, "em") || chars_eq(t, "i")) {
        TagKind::Emphasis
    } else if chars_eq(t, "img") {
        TagKind::Image
    } else if f == Flavor::LightNovelFun && t.len() == 2 && t[0] == 'h' && '1' <= t[1] && t[1]
        <= '6' {
        let level = (t[1] as u32 - '0' as u32) as u8;
        TagKind::Heading(level)
    } else {
        TagKind::Inline
    }
}

/// Appends the Markdown escape of `text` to `out`.
pub fn escape_into(out: &mut String, text: &str)
    ensures
        final(out)@ == old(out)@ + escaped(text@),
{
    let cs = chars_of(text);
    let mut i: usize = 0;
    while i < cs.len()
        invariant
            i <= cs@.len(),
            cs@ == text@,
            out@ == old(out)@ + escaped(cs@.take(i as int)),
        decreases cs.len() - i,
    {
        let c = cs[i];
        if c == '\\' || c == '*' || c == '_' || c == '[' || c == ']' {
            push_char(out, '\\');
        }
        push_char(out, c);
        assert(cs@.take(i + 1).drop_last() == cs@.take(i as int));
        i += 1;
    }
    assert(cs@.take(cs@.len() as int) == cs@);
}

/// `text` with `\`, `*`, `_`, `[` and `]` escaped by a backslash.
pub fn escape_markdown(text: &str) -> (r: String)
    ensures
        r@ == escaped(text@),
{
    let mut out = String::new();
    escape_into(&mut out, text);
    out
}

/// The source an `img` element renders with, if any.
pub fn image_source_exec(e: &HtmlElement, f: Flavor) -> (r: Option<String>)
    ensures
        match r {
            Some(s) => image_source(*e, f) == Some(s@),
            None => image_source(*e, f) is None,
        },
{
    if f == Flavor::Wenku8 {
        match &e.abs_src {
            Some(s) => if s.as_str().is_empty() {
                None
            } else {
                proof {
                    reveal_strlit("http://");
                }
                Some(replace_exec(s.as_str(), "http://", "https://"))
            },
            None => None,
        }
    } else {
        let chosen = match &e.abs_src {
            Some(s) => Some(s),
            None => match &e.src {
                Some(s) => Some(s),
                None => None,
            },
        };
        match chosen {
            Some(s) => if s.as_str().is_empty() {
                None
            } else {
                Some(s.clone())
            },
            None => None,
        }
    }
}

/// Appends the Markdown of `nodes` to `out`.
pub fn convert_children(nodes: &[HtmlNode], f: Flavor, out: &mut String)
    ensures
        final(out)@ == old(out)@ + md_nodes(nodes@, f),
    decreases nodes@,
{
    let mut i: usize = 0;
    while i < nodes.len()
        invariant
            i <= nodes@.len(),
            out@ == old(out)@ + md_nodes(nodes@.take(i as int), f),
        decreases nodes.len() - i,
    {
        let ghost before = out@;
        match &nodes[i] {
            HtmlNode::Text(t) => escape_into(out, t.as_str()),
            HtmlNode::Element(e) => convert_tag(e, f, out),
            HtmlNode::Other => {},
        }
        assert(out@ == before + md_node(nodes@[i as int], f));
        assert(nodes@.take(i + 1).drop_last() == nodes@.take(i as int));
        assert(nodes@.take(i + 1).last() == nodes@[i as int]);
        i += 1;
    }
    assert(nodes@.take(nodes@.len() as int) == nodes@);
}

/// Appends the Markdown of the element `e` to `out`.
pub fn convert_tag(e: &HtmlElement, f: Flavor, out: &mut String)
    ensures
        final(out)@ == old(out)@ + md_element(*e, f),
    decreases e,
{
    match classify_tag(e.tag.as_str(), f) {
        TagKind::Skip => {},
        TagKind::Block => {
            convert_children(e.children.as_slice(), f, out);
            out.append("\n\n");
        },
        TagKind::Break => out.append("  \n"),
        TagKind::Rule => out.append("\n\n---\n\n"),
        TagKind::Strong => {
            out.append("**");
            convert_children(e.children.as_slice(), f, out);
            out.append("**");
        },
        TagKind::Emphasis => {
            out.append("*");
            convert_children(e.children.as_slice(), f, out);
            out.append("*");
        },
        TagKind::Image => match image_source_exec(e, f) {
            Some(src) => {
                out.append("\n\n![](");
                out.append(src.as_str());
                out.append(")\n\n");
            },
            None => {},
        },
        TagKind::Heading(level) => {
            let mut k: u8 = 0;
            while k < level
                invariant
                    k <= level,
                    out@ == old(out)@ + hashes(k as nat),
                decreases level - k,
            {
                push_char(out, '#');
                k += 1;
            }
            out.append(" ");
            convert_children(e.children.as_slice(), f, out);
            out.append("\n\n");
        },
        TagKind::Inline => convert_children(e.children.as_slice(), f, out),
    }
}

/// The Markdown of an HTML fragment whose `body` holds `body`: empty when the
/// fragment is blank or has no body, else the body's Markdown, trimmed.
pub open spec fn spec_html_to_markdown(fragment: Seq<char>, body: Option<Seq<HtmlNode>>, f: Flavor) -> Seq<char> {
    if trim(fragment).len() == 0 {
        Seq::empty()
    } else {
        match body {
            None => Seq::empty(),
            Some(nodes) => trim(md_nodes(nodes, f)),
        }
    }
}

/// The view of an optional list of nodes.
pub open spec fn opt_nodes(o: Option<Vec<HtmlNode>>) -> Option<Seq<HtmlNode>> {
    match o {
        Some(v) => Some(v@),
        None => None,
    }
}

/// The Markdown of an HTML fragment, given the child nodes of its parsed
/// `body` (`None` when the parsed fragment has no body).
pub fn html_to_markdown(fragment: &str, body: &Option<Vec<HtmlNode>>, f: Flavor) -> (r: String)
    ensures
        r@ == spec_html_to_markdown(fragment@, opt_nodes(*body), f),
        trim(r@) == r@,
        trim(fragment@).len() == 0 ==> r@.len() == 0,
{
    proof {
        match opt_nodes(*body) {
            Some(nodes) => lemma_trim_idempotent(md_nodes(nodes, f)),
            None => {},
        }
        lemma_trim_idempotent(Seq::<char>::empty());
        assert(trim(Seq::<char>::empty()) =~= Seq::<char>::empty()) by {
            assert(skip_class_from(Seq::<char>::empty(), CharClass::Whitespace, 0) == 0);
        }
    }
    if trim_string(fragment).as_str().is_empty() {
        return String::new();
    }
    match body {
        None => String::new(),
        Some(nodes) => {
            let mut out = String::new();
            convert_children(nodes.as_slice(), f, &mut out);
            trim_string(out.as_str())
        },
    }
}

/// Law: the Markdown of two runs of nodes, one after the other, is the
/// Markdown of the first followed by that of the second; a text node renders
/// as its escaped text and any other non-element node as nothing.
pub proof fn lemma_md_nodes_concat(a: Seq<HtmlNode>, b: Seq<HtmlNode>, f: Flavor)
    ensures
        md_nodes(a + b, f) == md_nodes(a, f) + md_nodes(b, f),
        forall|t: String| #[trigger] md_nodes(seq![HtmlNode::Text(t)], f) == escaped(t@),
        md_nodes(seq![HtmlNode::Other], f) == Seq::<char>::empty(),
    decreases b.len(),
{
    if b.len() == 0 {
        assert(a + b =~= a);
        assert(md_nodes(a, f) + md_nodes(b, f) =~= md_nodes(a, f));
    } else {
        lemma_md_nodes_concat(a, b.drop_last(), f);
        assert((a + b).drop_last() =~= a + b.drop_last());
        assert((a + b).last() == b.last());
        assert(md_nodes(a, f) + md_nodes(b, f) =~= md_nodes(a, f) + md_nodes(b.drop_last(), f)
            + md_node(b.last(), f));
    }
    reveal_with_fuel(md_nodes, 2);
    assert forall|t: String| #[trigger] md_nodes(seq![HtmlNode::Text(t)], f) == escaped(t@) by {
        let s = seq![HtmlNode::Text(t)];
        assert(s.drop_last() =~= Seq::<HtmlNode>::empty());
        assert(s.last() == HtmlNode::Text(t));
        assert(md_nodes(Seq::<HtmlNode>::empty(), f) == Seq::<char>::empty());
        assert(md_nodes(s, f) =~= md_nodes(Seq::<HtmlNode>::empty(), f) + escaped(t@));
    }
    let o = seq![HtmlNode::Other];
    assert(o.drop_last() =~= Seq::<HtmlNode>::empty());
    assert(o.last() == HtmlNode::Other);
    assert(md_nodes(Seq::<HtmlNode>::empty(), f) == Seq::<char>::empty());
    assert(md_nodes(o, f) =~= Seq::<char>::empty());
}

/// Law: how each element renders. `script` and `style` vanish; `p`, `div`
/// and `section` are their content and a blank line; `br` is a hard break;
/// `hr` a thematic break; under Linovelib and LightNovel.fun `strong`/`b`
/// are bold and `em`/`i` italic, under Wenku8 just their content; an `img`
/// with no usable source vanishes; any unknown tag is its content.
pub proof fn lemma_md_element_tags(e: HtmlElement, f: Flavor)
    ensures
        ({
            let inner = md_nodes(e.children@, f);
            let t = e.tag@;
            &&& (t == "script"@ || t == "style"@) ==> md_element(e, f).len() == 0
            &&& (t == "p"@ || t == "div"@ || t == "section"@) ==> md_element(e, f) == inner
                + "\n\n"@
            &&& t == "br"@ ==> md_element(e, f) == "  \n"@
            &&& t == "hr"@ ==> md_element(e, f) == "\n\n---\n\n"@
            &&& (t == "strong"@ || t == "b"@) ==> md_element(e, f) == if f == Flavor::Wenku8 {
                inner
            } else {
                "**"@ + inner + "**"@
            }
            &&& (t == "em"@ || t == "i"@) ==> md_element(e, f) == if f == Flavor::Wenku8 {
                inner
            } else {
                "*"@ + inner + "*"@
            }
            &&& (t == "img"@ && (e.abs_src is None || e.abs_src->0@.len() == 0) && (f
                == Flavor::Wenku8 || e.abs_src is None && (e.src is None || e.src->0@.len()
                == 0))) ==> md_element(e, f).len() == 0
            &&& (t == "span"@ || t == "font"@ || t == "a"@ || t.len() == 0) ==> md_element(e, f)
                == inner
        }),
{
    reveal_strlit("script");
    reveal_strlit("style");
    reveal_strlit("p");
    reveal_strlit("div");
    reveal_strlit("section");
    reveal_strlit("center");
    reveal_strlit("blockquote");
    reveal_strlit("br");
    reveal_strlit("hr");
    reveal_strlit("strong");
    reveal_strlit("b");
    reveal_strlit("em");
    reveal_strlit("i");
    reveal_strlit("img");
    reveal_strlit("span");
    reveal_strlit("font");
    reveal_strlit("a");
    reveal_strlit("");
    assert("script"@ =~= seq!['s', 'c', 'r', 'i', 'p', 't']);
    assert("style"@ =~= seq!['s', 't', 'y', 'l', 'e']);
    assert("p"@ =~= seq!['p']);
    assert("div"@ =~= seq!['d', 'i', 'v']);
    assert("section"@ =~= seq!['s', 'e', 'c', 't', 'i', 'o', 'n']);
    assert("center"@ =~= seq!['c', 'e', 'n', 't', 'e', 'r']);
    assert("blockquote"@ =~= seq!['b', 'l', 'o', 'c', 'k', 'q', 'u', 'o', 't', 'e']);
    assert("br"@ =~= seq!['b', 'r']);
    assert("hr"@ =~= seq!['h', 'r']);
    assert("strong"@ =~= seq!['s', 't', 'r', 'o', 'n', 'g']);
    assert("b"@ =~= seq!['b']);
    assert("em"@ =~= seq!['e', 'm']);
    assert("i"@ =~= seq!['i']);
    assert("img"@ =~= seq!['i', 'm', 'g']);
    assert("span"@ =~= seq!['s', 'p', 'a', 'n']);
    assert("font"@ =~= seq!['f', 'o', 'n', 't']);
    assert("a"@ =~= seq!['a']);
    let t = e.tag@;
    if t == "script"@ || t == "style"@ {
        assert(tag_kind(t, f) == TagKind::Skip);
    }
    if t == "p"@ || t == "div"@ || t == "section"@ {
        assert(tag_kind(t, f) == TagKind::Block);
    }
    if t == "br"@ {
        assert(tag_kind(t, f) == TagKind::Break);
    }
    if t == "hr"@ {
        assert(tag_kind(t, f) == TagKind::Rule);
    }
    if t == "strong"@ || t == "b"@ {
        assert(t.len() == 6 || t.len() == 1);
        assert(t[0] == 's' || t[0] == 'b');
        assert(t.len() == 6 ==> t[1] == 't');
        if f == Flavor::Wenku8 {
            assert(tag_kind(t, f) == TagKind::Inline);
        } else {
            assert(tag_kind(t, f) == TagKind::Strong);
        }
    }
    if t == "em"@ || t == "i"@ {
        assert(t.len() == 2 || t.len() == 1);
        assert(t[0] == 'e' || t[0] == 'i');
        if f == Flavor::Wenku8 {
            assert(tag_kind(t, f) == TagKind::Inline);
        } else {
            assert(tag_kind(t, f) == TagKind::Emphasis);
        }
    }
    if t == "span"@ || t == "font"@ || t == "a"@ || t.len() == 0 {
        assert(t.len() == 4 || t.len() == 1 || t.len() == 0);
        assert(t.len() > 0 ==> (t[0] == 's' || t[0] == 'f' || t[0] == 'a'));
        assert(t.len() == 4 ==> (t[1] == 'p' || t[1] == 'o'));
        assert(tag_kind(t, f) == TagKind::Inline);
    }
    if t == "img"@ {
        assert(t.len() == 3 && t[0] == 'i');
        assert(tag_kind(t, f) == TagKind::Image);
    }
}

/// Whether `c` takes a backslash in Markdown text.
pub open spec fn is_special(c: char) -> bool {
    c == '\\' || c == '*' || c == '_' || c == '[' || c == ']'
}

/// How many characters of `s` take a backslash.
pub open spec fn special_count(s: Seq<char>) -> nat
    decreases s.len(),
{
    if s.len() == 0 {
        0
    } else {
        special_count(s.drop_last()) + if is_special(s.last()) {
            1nat
        } else {
            0nat
        }
    }
}

/// `s` with each backslash dropped and the character after it kept as is.
pub open spec fn unescaped(s: Seq<char>) -> Seq<char>
    decreases s.len(),
{
    if s.len() == 0 {
        seq![]
    } else if s[0] == '\\' && s.len() >= 2 {
        seq![s[1]] + unescaped(s.skip(2))
    } else {
        seq![s[0]] + unescaped(s.drop_first())
    }
}

proof fn lemma_escaped_concat(a: Seq<char>, b: Seq<char>)
    ensures
        escaped(a + b) == escaped(a) + escaped(b),
    decreases b.len(),
{
    if b.len() == 0 {
        assert(a + b =~= a);
        assert(escaped(a) + escaped(b) =~= escaped(a));
    } else {
        lemma_escaped_concat(a, b.drop_last());
        assert((a + b).drop_last() =~= a + b.drop_last());
        assert((a + b).last() == b.last());
        assert(escaped(a) + escaped(b) =~= escaped(a) + escaped(b.drop_last()) + escape_char(b.last()));
    }
}

/// Law: escaping adds exactly one backslash per special character, and
/// dropping the escaping backslashes gives back the text.
pub proof fn lemma_escape_reversible(s: Seq<char>)
    ensures
        escaped(s).len() == s.len() + special_count(s),
        unescaped(escaped(s)) == s,
    decreases s.len(),
{
    if s.len() > 0 {
        lemma_escape_reversible(s.drop_last());
        let c = s[0];
        let rest = s.drop_first();
        lemma_escape_reversible(rest);
        assert(s =~= seq![c] + rest);
        lemma_escaped_concat(seq![c], rest);
        assert(seq![c].drop_last() =~= Seq::<char>::empty());
        assert(seq![c].last() == c);
        assert(escaped(Seq::<char>::empty()) == Seq::<char>::empty());
        assert(escaped(seq![c]) == escaped(seq![c].drop_last()) + escape_char(c));
        assert(escaped(seq![c]) =~= escape_char(c));
        let e = escaped(rest);
        let x = escape_char(c) + e;
        assert(escaped(s) == x);
        if is_special(c) {
            assert(x[0] == '\\');
            assert(x[1] == c);
            assert(x.skip(2) =~= e);
            assert(unescaped(x) == seq![c] + unescaped(e));
        } else {
            assert(x[0] == c);
            assert(x.drop_first() =~= e);
            assert(unescaped(x) == seq![c] + unescaped(e));
        }
    }
}

// ---------------------------------------------------------------------------
// Escaping as a chain of replacements
// ---------------------------------------------------------------------------

/// `s` with every `c` replaced by `r`, read from the right.
pub open spec fn subst(s: Seq<char>, c: char, r: Seq<char>) -> Seq<char>
    decreases s.len(),
{
    if s.len() == 0 {
        Seq::empty()
    } else {
        subst(s.drop_last(), c, r) + (if s.last() == c {
            r
        } else {
            seq![s.last()]
        })
    }
}

proof fn lemma_subst_concat(a: Seq<char>, b: Seq<char>, c: char, r: Seq<char>)
    ensures
        subst(a + b, c, r) == subst(a, c, r) + subst(b, c, r),
    decreases b.len(),
{
    if b.len() == 0 {
        assert(a + b =~= a);
    } else {
        lemma_subst_concat(a, b.drop_last(), c, r);
        assert((a + b).drop_last() =~= a + b.drop_last());
        assert((a + b).last() == b.last());
    }
}

proof fn lemma_subst_absent(s: Seq<char>, c: char, r: Seq<char>)
    requires
        forall|j: int| 0 <= j < s.len() ==> #[trigger] s[j] != c,
    ensures
        subst(s, c, r) == s,
    decreases s.len(),
{
    if s.len() > 0 {
        lemma_subst_absent(s.drop_last(), c, r);
        assert(s.drop_last().push(s.last()) =~= s);
    }
}

proof fn lemma_subst_single(x: char, c: char, r: Seq<char>)
    ensures
        subst(seq![x], c, r) == (if x == c {
            r
        } else {
            seq![x]
        }),
{
    assert(seq![x].drop_last() =~= Seq::<char>::empty());
    assert(subst(Seq::<char>::empty(), c, r) == Seq::<char>::empty());
}

/// Replacing a one-character pattern is substituting the character.
proof fn lemma_replace_single(s: Seq<char>, c: char, r: Seq<char>, i: int)
    requires
        0 <= i <= s.len(),
    ensures
        replace_from(s, seq![c], r, i) == subst(s.skip(i), c, r),
    decreases s.len() - i,
{
    lemma_find_from_bounds(s, seq![c], i);
    lemma_find_from_first(s, seq![c], i);
    match find_from(s, seq![c], i) {
        None => {
            assert forall|j: int| 0 <= j < s.skip(i).len() implies #[trigger] s.skip(i)[j] != c by {
                lemma_matches_single(s, c, i + j);
            }
            lemma_subst_absent(s.skip(i), c, r);
        },
        Some(k) => {
            lemma_matches_single(s, c, k);
            lemma_replace_single(s, c, r, k + 1);
            let pre = s.subrange(i, k);
            assert forall|j: int| 0 <= j < pre.len() implies #[trigger] pre[j] != c by {
                assert(pre[j] == s[i + j]);
                lemma_matches_single(s, c, i + j);
            }
            lemma_subst_absent(pre, c, r);
            assert(s.skip(i) =~= pre + seq![c] + s.skip(k + 1));
            lemma_subst_concat(pre + seq![c], s.skip(k + 1), c, r);
            lemma_subst_concat(pre, seq![c], c, r);
            lemma_subst_single(c, c, r);
        },
    }
}

/// The five escapes as five passes of `replace`, one after another.
pub open spec fn chained_escape(s: Seq<char>) -> Seq<char> {
    replace(
        replace(
            replace(
                replace(replace(s, "\\"@, "\\\\"@), "*"@, "\\*"@),
                "_"@,
                "\\_"@,
            ),
            "["@,
            "\\["@,
        ),
        "]"@,
        "\\]"@,
    )
}

/// The five escapes as five passes of character substitution.
pub open spec fn chained_subst(s: Seq<char>) -> Seq<char> {
    subst(
        subst(
            subst(
                subst(subst(s, '\\', seq!['\\', '\\']), '*', seq!['\\', '*']),
                '_',
                seq!['\\', '_'],
            ),
            '[',
            seq!['\\', '['],
        ),
        ']',
        seq!['\\', ']'],
    )
}

proof fn lemma_chained_subst_concat(a: Seq<char>, b: Seq<char>)
    ensures
        chained_subst(a + b) == chained_subst(a) + chained_subst(b),
{
    let s1 = subst(a, '\\', seq!['\\', '\\']);
    let t1 = subst(b, '\\', seq!['\\', '\\']);
    lemma_subst_concat(a, b, '\\', seq!['\\', '\\']);
    let s2 = subst(s1, '*', seq!['\\', '*']);
    let t2 = subst(t1, '*', seq!['\\', '*']);
    lemma_subst_concat(s1, t1, '*', seq!['\\', '*']);
    let s3 = subst(s2, '_', seq!['\\', '_']);
    let t3 = subst(t2, '_', seq!['\\', '_']);
    lemma_subst_concat(s2, t2, '_', seq!['\\', '_']);
    let s4 = subst(s3, '[', seq!['\\', '[']);
    let t4 = subst(t3, '[', seq!['\\', '[']);
    lemma_subst_concat(s3, t3, '[', seq!['\\', '[']);
    lemma_subst_concat(s4, t4, ']', seq!['\\', ']']);
}

proof fn lemma_subst_two(x: char, y: char, c: char, r: Seq<char>)
    requires
        x != c,
        y != c,
    ensures
        subst(seq![x, y], c, r) == seq![x, y],
{
    let s = seq![x, y];
    assert forall|j: int| 0 <= j < s.len() implies #[trigger] s[j] != c by {}
    lemma_subst_absent(s, c, r);
}

proof fn lemma_chained_subst_char(x: char)
    ensures
        chained_subst(seq![x]) == escape_char(x),
{
    let bs = '\\';
    lemma_subst_single(x, bs, seq![bs, bs]);
    if x == bs {
        lemma_subst_two(bs, bs, '*', seq![bs, '*']);
        lemma_subst_two(bs, bs, '_', seq![bs, '_']);
        lemma_subst_two(bs, bs, '[', seq![bs, '[']);
        lemma_subst_two(bs, bs, ']', seq![bs, ']']);
    } else {
        lemma_subst_single(x, '*', seq![bs, '*']);
        if x == '*' {
            lemma_subst_two(bs, '*', '_', seq![bs, '_']);
            lemma_subst_two(bs, '*', '[', seq![bs, '[']);
            lemma_subst_two(bs, '*', ']', seq![bs, ']']);
        } else {
            lemma_subst_single(x, '_', seq![bs, '_']);
            if x == '_' {
                lemma_subst_two(bs, '_', '[', seq![bs, '[']);
                lemma_subst_two(bs, '_', ']', seq![bs, ']']);
            } else {
                lemma_subst_single(x, '[', seq![bs, '[']);
                if x == '[' {
                    lemma_subst_two(bs, '[', ']', seq![bs, ']']);
                } else {
                    lemma_subst_single(x, ']', seq![bs, ']']);
                }
            }
        }
    }
}

proof fn lemma_escaped_is_chained_subst(s: Seq<char>)
    ensures
        escaped(s) == chained_subst(s),
    decreases s.len(),
{
    if s.len() == 0 {
        assert(chained_subst(s) == Seq::<char>::empty());
    } else {
        lemma_escaped_is_chained_subst(s.drop_last());
        assert(s =~= s.drop_last() + seq![s.last()]);
        lemma_chained_subst_concat(s.drop_last(), seq![s.last()]);
        lemma_chained_subst_char(s.last());
    }
}

proof fn lemma_replace_is_subst(s: Seq<char>, c: char, r: Seq<char>)
    ensures
        replace(s, seq![c], r) == subst(s, c, r),
{
    lemma_replace_single(s, c, r, 0);
    assert(s.skip(0) =~= s);
}

/// Law: escaping a text character by character is the same as a chain of five
/// replacements: `\` first, then `*`, `_`, `[` and `]`.
pub proof fn lemma_escape_is_chained_replace(s: Seq<char>)
    ensures
        escaped(s) == chained_escape(s),
{
    reveal_strlit("\\");
    reveal_strlit("\\\\");
    reveal_strlit("*");
    reveal_strlit("\\*");
    reveal_strlit("_");
    reveal_strlit("\\_");
    reveal_strlit("[");
    reveal_strlit("\\[");
    reveal_strlit("]");
    reveal_strlit("\\]");
    assert("\\"@ =~= seq!['\\']);
    assert("\\\\"@ =~= seq!['\\', '\\']);
    assert("*"@ =~= seq!['*']);
    assert("\\*"@ =~= seq!['\\', '*']);
    assert("_"@ =~= seq!['_']);
    assert("\\_"@ =~= seq!['\\', '_']);
    assert("["@ =~= seq!['[']);
    assert("\\["@ =~= seq!['\\', '[']);
    assert("]"@ =~= seq![']']);
    assert("\\]"@ =~= seq!['\\', ']']);
    let s1 = replace(s, "\\"@, "\\\\"@);
    lemma_replace_is_subst(s, '\\', seq!['\\', '\\']);
    let s2 = replace(s1, "*"@, "\\*"@);
    lemma_replace_is_subst(s1, '*', seq!['\\', '*']);
    let s3 = replace(s2, "_"@, "\\_"@);
    lemma_replace_is_subst(s2, '_', seq!['\\', '_']);
    let s4 = replace(s3, "["@, "\\["@);
    lemma_replace_is_subst(s3, '[', seq!['\\', '[']);
    lemma_replace_is_subst(s4, ']', seq!['\\', ']']);
    lemma_escaped_is_chained_subst(s);
}

} // verus!
