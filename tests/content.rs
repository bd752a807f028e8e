use mediumrare::client::{Markup, Paragraph};
use mediumrare::content::Render;

#[test]
fn test_renders_incorrectly_sorted_markup_correctly() {
    let p = Paragraph {
        id: String::from(""),
        href: None,
        layout: None,
        text: Some(String::from("This is a test with some text")),
        kind: "P".into(),
        markups: vec![
            Markup {
                start: 10,
                end: 13,
                kind: String::from("EM"),
                href: None,
            },
            Markup {
                start: 8,
                end: 13,
                kind: String::from("STRONG"),
                href: None,
            },
        ],
        metadata: None,
        iframe: None,
    };

    assert_eq!(
        "<p >This is <strong >a <em >test</em></strong> with some text</p>",
        p.render().unwrap().to_string()
    );
}
