use discord_md::ast::{
    Bold, ItalicsStar, MarkdownElement, MarkdownElementCollection, MultiLineCode, Plain, Spoiler,
};
use discogram::format::markdown_to_telegram;
use discogram::format::{
    discord_author_name, discord_reactor_name, reply_preview, DiscordAuthor,
    code_block, discord_reaction_string, discord_to_telegram_format, escape_html,
    filter_telegram_reactions, telegram_author_name, telegram_reactor_name,
    telegram_to_discord_format, wrap_html, DiscordReaction, Entity, EntityKind, HtmlStyle,
    TelegramChat, TelegramReaction, TelegramSender, TelegramUser,
};
use discogram::model::RichText;
use discogram::render::to_markdown;

fn ent(kind: EntityKind, start: usize, end: usize) -> Entity {
    Entity { kind, start, end }
}

#[test]
fn bold_span_is_wrapped() {
    let out = telegram_to_discord_format("hello world", vec![ent(EntityKind::Bold, 0, 5)]);
    assert_eq!(out, "**hello** world");
}

#[test]
fn nested_spans_close_in_reverse_order() {
    let out = telegram_to_discord_format(
        "ab",
        vec![ent(EntityKind::Bold, 0, 2), ent(EntityKind::Italic, 0, 2)],
    );
    assert_eq!(out, "**_ab_**");
}

#[test]
fn adjacent_spans_close_before_they_open() {
    let out = telegram_to_discord_format(
        "abcd",
        vec![ent(EntityKind::Bold, 0, 2), ent(EntityKind::Strikethrough, 2, 4)],
    );
    assert_eq!(out, "**ab**~~cd~~");
}

#[test]
fn empty_link_opens_before_it_closes() {
    let out = telegram_to_discord_format(
        "x",
        vec![ent(EntityKind::TextLink { url: "https://a.b/".to_string() }, 0, 0)],
    );
    assert_eq!(out, "[](https://a.b/)x");
}

#[test]
fn text_link_and_code_blocks() {
    let out = telegram_to_discord_format(
        "see docs: fn f",
        vec![
            ent(EntityKind::TextLink { url: "https://d.rs".to_string() }, 4, 8),
            ent(EntityKind::Pre { language: Some("rust".to_string()) }, 10, 14),
        ],
    );
    assert_eq!(out, "see [docs](https://d.rs): ```rustfn f```");
}

#[test]
fn block_quote_continues_on_each_line() {
    let out = telegram_to_discord_format("a\nb\nc", vec![ent(EntityKind::Blockquote, 0, 3)]);
    assert_eq!(out, "> a\n> b\nc");
}

#[test]
fn malformed_spans_are_skipped() {
    let out = telegram_to_discord_format(
        "abc",
        vec![
            ent(EntityKind::Bold, 2, 1),
            ent(EntityKind::Italic, 1, 9),
            ent(EntityKind::Code, 1, 2),
        ],
    );
    assert_eq!(out, "a`b`c");
}

#[test]
fn unformatted_kinds_insert_nothing() {
    let out = telegram_to_discord_format(
        "#tag @me",
        vec![ent(EntityKind::Hashtag, 0, 4), ent(EntityKind::Mention, 5, 8)],
    );
    assert_eq!(out, "#tag @me");
}

#[test]
fn splicing_keeps_every_character_in_order() {
    let text = "héllo wörld";
    let out = telegram_to_discord_format(
        text,
        vec![
            ent(EntityKind::Underline, 1, 4),
            ent(EntityKind::Spoiler, 6, 11),
            ent(EntityKind::Bold, 4, 4),
        ],
    );
    assert_eq!(out, "h__éll__****o ||wörld||");
    let stripped: String = out.chars().filter(|c| !"_*|".contains(*c)).collect();
    assert_eq!(stripped, text);
}

#[test]
fn inline_delimiters_nest_without_collision() {
    let t = RichText::Bold(Box::new(RichText::Sequence(vec![
        RichText::Plain("a".to_string()),
        RichText::Italic(Box::new(RichText::Plain("b".to_string()))),
    ])));
    assert_eq!(to_markdown(&t), "**a_b_**");
}

#[test]
fn markdown_of_other_constructs() {
    let t = RichText::Sequence(vec![
        RichText::Strikethrough(Box::new(RichText::Plain("x".to_string()))),
        RichText::FixedWidth("y".to_string()),
        RichText::Hyperlink { text: "z".to_string(), link: "https://z".to_string() },
        RichText::Blockquote(Box::new(RichText::Plain("q\nr".to_string()))),
        RichText::Code { language: Some("py".to_string()), body: "p".to_string() },
    ]);
    assert_eq!(to_markdown(&t), "~~x~~`y`[z](https://z)> q\n> r```py\np```");
}

#[test]
fn discord_markdown_becomes_telegram_html() {
    assert_eq!(discord_to_telegram_format("**bold** <x> & y"), "<b>bold</b> &lt;x&gt; &amp; y");
    assert_eq!(discord_to_telegram_format("*it* and __u__"), "<i>it</i> and <u>u</u>");
    assert_eq!(discord_to_telegram_format("`a<b`"), "<code>a&lt;b</code>");
    assert_eq!(discord_to_telegram_format("~~s~~ ||p||"), "<s>s</s> <tg-spoiler>p</tg-spoiler>");
}

#[test]
fn html_helpers() {
    assert_eq!(escape_html("a&b<c>d"), "a&amp;b&lt;c&gt;d");
    assert_eq!(wrap_html(HtmlStyle::BlockQuote, "q"), "<blockquote>q</blockquote>");
    assert_eq!(code_block("x<y", Some("rust")), "<pre><code class=\"language-rust\">x&lt;y</code></pre>");
    assert_eq!(code_block("z", None), "<pre>z</pre>");
}

fn user(first: &str, last: Option<&str>) -> TelegramUser {
    TelegramUser { first_name: first.to_string(), last_name: last.map(|s| s.to_string()) }
}

#[test]
fn telegram_names() {
    let full = TelegramSender { user: Some(user("Ada", Some("Lovelace"))), chat: None };
    assert_eq!(telegram_author_name(&full), "Ada Lovelace");
    let first = TelegramSender { user: Some(user("Ada", None)), chat: None };
    assert_eq!(telegram_reactor_name(&first), "Ada");
    let chat = TelegramSender {
        user: None,
        chat: Some(TelegramChat { title: Some("News".to_string()) }),
    };
    assert_eq!(telegram_author_name(&chat), "News");
    let nobody = TelegramSender { user: None, chat: Some(TelegramChat { title: None }) };
    assert_eq!(telegram_author_name(&nobody), "Unknown [this shouldn't be possible]");
    assert_eq!(telegram_reactor_name(&nobody), "Internal Error");
}

#[test]
fn discord_reaction_texts() {
    assert_eq!(discord_reaction_string(&DiscordReaction::Unicode("👍".to_string())), Some("👍"));
    let custom = DiscordReaction::Custom { animated: false, id: 7, name: Some("party".to_string()) };
    assert_eq!(discord_reaction_string(&custom), Some("party"));
    let nameless = DiscordReaction::Custom { animated: true, id: 7, name: None };
    assert_eq!(discord_reaction_string(&nameless), None);
    assert_eq!(discord_reaction_string(&DiscordReaction::Other), None);
}

#[test]
fn telegram_reaction_texts() {
    let out = filter_telegram_reactions(&[
        TelegramReaction::Emoji("❤".to_string()),
        TelegramReaction::Emoji("👍".to_string()),
        TelegramReaction::CustomEmoji("5368324170671202286".to_string()),
    ]);
    assert_eq!(out, vec!["❤\u{fe0f}".to_string(), "👍".to_string(), "5368324170671202286".to_string()]);
}

#[test]
fn discord_names() {
    let a = DiscordAuthor { nick: Some("Nick".to_string()), global_name: Some("Glob".to_string()), name: "acct".to_string() };
    assert_eq!(discord_author_name(&a), "Nick");
    let b = DiscordAuthor { nick: None, global_name: Some("Glob".to_string()), name: "acct".to_string() };
    assert_eq!(discord_reactor_name(Some(&b)), "Glob");
    let c = DiscordAuthor { nick: None, global_name: None, name: "acct".to_string() };
    assert_eq!(discord_author_name(&c), "acct");
    assert_eq!(discord_reactor_name(None), "Unknown User");
}

#[test]
fn reply_previews() {
    assert_eq!(reply_preview("hi"), "hi");
    assert_eq!(reply_preview("a\nb\nc\nd\ne\nf"), "a\nb\nc\nd\ne\n...");
    assert_eq!(reply_preview("a\nb\nc\nd\ne"), "a\nb\nc\nd\ne");
    let words = "word ".repeat(50);
    let expected = format!("{}word...", "word ".repeat(39));
    assert_eq!(reply_preview(&words), expected);
    let solid = "x".repeat(250);
    assert_eq!(reply_preview(&solid), format!("{}...", "x".repeat(200)));
}

#[test]
fn empty_text() {
    assert_eq!(telegram_to_discord_format("", Vec::new()), "");
    assert_eq!(telegram_to_discord_format("", vec![ent(EntityKind::Bold, 0, 0)]), "****");
    assert_eq!(telegram_to_discord_format("", vec![ent(EntityKind::Bold, 0, 1)]), "");
    assert_eq!(discord_to_telegram_format(""), "");
    assert_eq!(escape_html(""), "");
}

#[test]
fn markdown_tree_translates_recursively() {
    let plain = |s: &str| MarkdownElement::Plain(Box::new(Plain::new(s)));
    let tree = MarkdownElementCollection::new(vec![MarkdownElement::Bold(Box::new(Bold::new(
        MarkdownElementCollection::new(vec![
            plain("a"),
            MarkdownElement::ItalicsStar(Box::new(ItalicsStar::new(MarkdownElementCollection::new(vec![
                plain("b"),
            ])))),
        ]),
    )))]);
    assert_eq!(markdown_to_telegram(&tree), "<b>a<i>b</i></b>");
    let nested = MarkdownElementCollection::new(vec![
        MarkdownElement::Spoiler(Box::new(Spoiler::new(MarkdownElementCollection::new(vec![
            MarkdownElement::Bold(Box::new(Bold::new("x"))),
            plain("<&>"),
        ])))),
        MarkdownElement::MultiLineCode(Box::new(MultiLineCode::new("a<b", Some("rs".to_string())))),
    ]);
    assert_eq!(
        markdown_to_telegram(&nested),
        "<tg-spoiler><b>x</b>&lt;&amp;&gt;</tg-spoiler><pre><code class=\"language-rs\">a&lt;b</code></pre>"
    );
    assert_eq!(discord_to_telegram_format("a < b & c"), "a &lt; b &amp; c");
}
