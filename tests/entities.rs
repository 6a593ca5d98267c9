use discogram::entities::to_telegram_entities;
use discogram::format::{telegram_to_discord_format, Entity, EntityKind};
use discogram::model::RichText;
use discogram::render::to_markdown;

fn plain(s: &str) -> RichText {
    RichText::Plain(s.to_string())
}

#[test]
fn nested_styles_become_outer_first_entities() {
    let t = RichText::Bold(Box::new(RichText::Sequence(vec![
        plain("a"),
        RichText::Italic(Box::new(plain("b"))),
    ])));
    let (text, ents) = to_telegram_entities(&t);
    assert_eq!(text, "ab");
    assert_eq!(
        ents,
        vec![
            Entity { kind: EntityKind::Bold, start: 0, end: 2 },
            Entity { kind: EntityKind::Italic, start: 1, end: 2 },
        ]
    );
    assert_eq!(telegram_to_discord_format(&text, ents), to_markdown(&t));
}

#[test]
fn translating_entities_back_gives_the_markdown() {
    let t = RichText::Sequence(vec![
        RichText::Strikethrough(Box::new(RichText::Bold(Box::new(plain("ü"))))),
        RichText::FixedWidth("y".to_string()),
        plain(" z "),
        RichText::Italic(Box::new(RichText::Sequence(vec![plain("p"), RichText::Bold(Box::new(plain("q")))]))),
    ]);
    let (text, ents) = to_telegram_entities(&t);
    assert_eq!(text, "üy z pq");
    let md = to_markdown(&t);
    assert_eq!(md, "~~**ü**~~`y` z _p**q**_");
    assert_eq!(telegram_to_discord_format(&text, ents), md);
}

#[test]
fn links_and_code_are_encoded_too() {
    let t = RichText::Sequence(vec![
        RichText::Hyperlink { text: "doc".to_string(), link: "https://d".to_string() },
        RichText::Code { language: Some("rs".to_string()), body: "f()".to_string() },
        RichText::Blockquote(Box::new(plain("q"))),
    ]);
    let (text, ents) = to_telegram_entities(&t);
    assert_eq!(text, "docf()q");
    assert_eq!(
        ents,
        vec![
            Entity { kind: EntityKind::TextLink { url: "https://d".to_string() }, start: 0, end: 3 },
            Entity { kind: EntityKind::Pre { language: Some("rs".to_string()) }, start: 3, end: 6 },
            Entity { kind: EntityKind::Blockquote, start: 6, end: 7 },
        ]
    );
    assert_eq!(telegram_to_discord_format(&text, ents), "[doc](https://d)```rsf()```> q");
}
