use mediumrare::client::{create_post_query, IFrame, IFrameMediaResource, Markup, Metadata, Paragraph};
use mediumrare::content::{render_article, render_header, render_page, render_text, Content, Render};
use mediumrare::text_markup::{RenderingError, SpanContent, SpanWrap, TextSpan};
use mediumrare::utf16::{utf16_boundary, utf16_len, utf16_to_byte_offset};

fn markup(start: usize, end: usize, kind: &str) -> Markup {
    Markup {
        start,
        end,
        href: None,
        kind: kind.to_string(),
    }
}

fn html(nodes: &[Content]) -> String {
    nodes.iter().map(|n| n.to_string()).collect()
}

fn paragraph(kind: &str, text: Option<&str>, markups: Vec<Markup>) -> Paragraph {
    Paragraph {
        id: String::new(),
        href: None,
        layout: None,
        text: text.map(|t| t.to_string()),
        kind: kind.to_string(),
        markups,
        metadata: None,
        iframe: None,
    }
}

#[test]
fn nesting_in_input_order() {
    let text = "This is a test with some text";
    let out = render_text(text, &[markup(8, 13, "STRONG"), markup(10, 13, "EM")]).unwrap();
    assert_eq!(
        "This is <strong >a <em >test</em></strong> with some text",
        html(&out)
    );
}

#[test]
fn nesting_in_reverse_order() {
    let text = "This is a test with some text";
    let out = render_text(text, &[markup(10, 13, "EM"), markup(8, 13, "STRONG")]).unwrap();
    assert_eq!(
        "This is <strong >a <em >test</em></strong> with some text",
        html(&out)
    );
}

#[test]
fn astral_split_points() {
    let input = "L 👋🏽 R";
    let mut span = TextSpan::create(input);
    assert_eq!(SpanContent::Text("L "), span.get_sub_span_mut(0, 1).unwrap().content);
    let mut span = TextSpan::create(input);
    assert_eq!(SpanContent::Text("👋🏽 R"), span.get_sub_span_mut(2, 7).unwrap().content);
    let mut span = TextSpan::create(input);
    assert_eq!(SpanContent::Text("L 👋🏽"), span.get_sub_span_mut(0, 5).unwrap().content);
    let mut span = TextSpan::create(input);
    assert_eq!(SpanContent::Text(" R"), span.get_sub_span_mut(6, 7).unwrap().content);
}

#[test]
fn utf16_lengths_and_boundaries() {
    assert_eq!(8, utf16_len("L 👋🏽 R"));
    assert_eq!(0, utf16_len(""));
    assert!(utf16_boundary("L 👋🏽 R", 4));
    assert!(!utf16_boundary("L 👋🏽 R", 3));
    assert!(!utf16_boundary("L 👋🏽 R", 9));
    assert_eq!(12, utf16_to_byte_offset("L 👋🏽 R", 8));
    assert_eq!(6, utf16_to_byte_offset("L 👋🏽 R", 3));
}

#[test]
fn split_inside_surrogate_pair_fails() {
    let mut span = TextSpan::create("L 👋🏽 R");
    assert_eq!(
        RenderingError::NoSuchSpan(3, 5),
        span.get_sub_span_mut(3, 5).unwrap_err()
    );
    assert_eq!(TextSpan::create("L 👋🏽 R"), span);
}

#[test]
fn no_markups_gives_one_text_node() {
    let out = render_text("plain text", &[]).unwrap();
    assert_eq!(1, out.len());
    match &out[0] {
        Content::Text(t) => assert_eq!("plain text", t),
        Content::Tag { .. } => panic!("expected a text node"),
    }
}

#[test]
fn text_is_escaped() {
    let out = render_text("a<b & c>d", &[]).unwrap();
    assert_eq!("a&lt;b &amp; c&gt;d", html(&out));
    assert_eq!("x&amp;y", Content::text("x&y").to_string());
}

#[test]
fn crossing_ranges_of_equal_length_fail() {
    let text = "0123456789";
    let r = render_text(text, &[markup(0, 3, "STRONG"), markup(2, 5, "EM")]);
    assert_eq!(RenderingError::NoSuchSpan(2, 5), r.unwrap_err());
    let r = render_text(text, &[markup(4, 7, "EM"), markup(2, 5, "STRONG")]);
    assert_eq!(RenderingError::NoSuchSpan(2, 5), r.unwrap_err());
}

#[test]
fn same_range_twice_returns_same_span() {
    let mut span = TextSpan::create("0123456789");
    span.get_sub_span_mut(3, 6).unwrap().add_wrap(SpanWrap::Strong);
    let node = span.get_sub_span_mut(3, 6).unwrap();
    assert_eq!(SpanContent::Text("3456"), node.content);
    assert_eq!(vec![SpanWrap::Strong], node.wraps);
    let before = format!("{:?}", span);
    let _ = span.get_sub_span_mut(3, 6);
    assert_eq!(before, format!("{:?}", span));
}

#[test]
fn full_range_keeps_root_a_leaf() {
    let mut span = TextSpan::create("abc");
    span.get_sub_span_mut(0, 2).unwrap().add_wrap(SpanWrap::Emphasized);
    assert_eq!(SpanContent::Text("abc"), span.content);
    assert_eq!(vec![SpanWrap::Emphasized], span.wraps);
}

#[test]
fn end_is_clamped_to_text() {
    let out = render_text("hello world", &[markup(6, 99, "EM")]).unwrap();
    assert_eq!("hello <em >world</em>", html(&out));
}

#[test]
fn start_past_end_fails() {
    let r = render_text("hello", &[markup(7, 9, "EM")]);
    assert_eq!(RenderingError::NoSuchSpan(7, 4), r.unwrap_err());
}

#[test]
fn markups_on_empty_text_fail() {
    let r = render_text("", &[markup(0, 2, "EM")]);
    assert_eq!(RenderingError::NoSuchSpan(0, 2), r.unwrap_err());
}

#[test]
fn unknown_kind_fails() {
    let r = render_text("hello", &[markup(0, 1, "CODE")]);
    assert_eq!(
        RenderingError::UnknownMarkupKind("CODE".to_string()),
        r.unwrap_err()
    );
}

#[test]
fn link_and_wrap_order() {
    let mut m = markup(0, 4, "A");
    m.href = Some("https://x.org".to_string());
    let out = render_text("hello", &[m, markup(0, 4, "STRONG")]).unwrap();
    assert_eq!(
        "<strong ><a href=\"https://x.org\" >hello</a></strong>",
        html(&out)
    );
    let out = render_text("hello", &[markup(0, 1, "A")]).unwrap();
    assert_eq!("<a href=\"\" >he</a>llo", html(&out));
}

#[test]
fn disjoint_ranges_keep_text() {
    let text = "one two three";
    let out = render_text(
        text,
        &[markup(0, 2, "EM"), markup(8, 12, "STRONG"), markup(4, 6, "EM")],
    )
    .unwrap();
    assert_eq!(
        "<em >one</em> <em >two</em> <strong >three</strong>",
        html(&out)
    );
}

#[test]
fn hyperlink_sets_href() {
    let attrs = vec![
        ("href".to_string(), "old".to_string()),
        ("rel".to_string(), "x".to_string()),
    ];
    let link = Content::hyperlink("new", vec![Content::text("t")], Some(attrs));
    assert_eq!("<a href=\"new\" rel=\"x\" >t</a>", link.to_string());
    let tag = Content::tag("br", None, None);
    assert_eq!("<br />", tag.to_string());
}

#[test]
fn paragraph_kinds() {
    let p = paragraph("H2", Some("Title"), vec![]);
    assert_eq!("<h2 >Title</h2>", p.render().unwrap().to_string());
    let p = paragraph("BQ", Some("q"), vec![]);
    assert_eq!("<blockquote >q</blockquote>", p.render().unwrap().to_string());
    let p = paragraph("ULI", None, vec![]);
    assert_eq!("<li ></li>", p.render().unwrap().to_string());
    let p = paragraph("XYZ", Some("z"), vec![]);
    assert_eq!(
        "<div x-real-tag=\"XYZ\" >z</div>",
        p.render().unwrap().to_string()
    );
}

#[test]
fn image_and_embed_paragraphs() {
    let mut p = paragraph("IMG", None, vec![]);
    assert_eq!(RenderingError::MissingMetadata, p.render().unwrap_err());
    p.metadata = Some(Metadata {
        alt: None,
        id: "abc.png".to_string(),
        original_width: 1,
        original_height: 1,
    });
    assert_eq!(
        "<img src=\"https://miro.medium.com/v2/resize:fit:2000/abc.png\" loading=\"lazy\" />",
        p.render().unwrap().to_string()
    );
    let mut p = paragraph("IFRAME", None, vec![]);
    assert_eq!(RenderingError::MissingIframe, p.render().unwrap_err());
    p.iframe = Some(IFrame {
        media_resource: IFrameMediaResource {
            id: String::new(),
            iframe_src: "https://v".to_string(),
            iframe_height: 1,
            iframe_width: 1,
            title: "T<".to_string(),
        },
    });
    assert_eq!(
        "<a href=\"https://v\" >IFRAME: T&lt;</a>",
        p.render().unwrap().to_string()
    );
}

#[test]
fn header_article_and_page() {
    let header = render_header("bob", "Bob", "https://m/p");
    assert_eq!(
        "<div class=\"post-head\" >published by <a href=\"https://medium.com/@bob\" >Bob</a> on medium <a href=\"https://m/p\" >here</a>.</div>",
        html(&header)
    );
    let article = render_article(vec![], &[paragraph("P", Some("x"), vec![])]).unwrap();
    assert_eq!("<article ><p >x</p></article>", article.to_string());
    let bad = render_article(vec![], &[paragraph("P", Some("x"), vec![markup(0, 0, "U")])]);
    assert_eq!(
        RenderingError::UnknownMarkupKind("U".to_string()),
        bad.unwrap_err()
    );
    let page = render_page("T", Content::text("b")).to_string();
    assert!(page.starts_with("<html ><head ><style >body {"));
    assert!(page.ends_with("</style><title >T</title></head><body >b</body></html>"));
}

#[test]
fn post_query_carries_id() {
    let q = create_post_query("abc123");
    assert_eq!("PostHandler", q.operation_name);
    assert_eq!(vec![("postId".to_string(), "abc123".to_string())], q.variables);
    assert!(q.query.starts_with("query PostHandler($postId:ID!)"));
}
