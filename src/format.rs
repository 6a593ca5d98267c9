//! Translators between the markups of the two platforms.

use vstd::prelude::*;
use crate::text::{chars_of, push_char, push_str};
use discord_md::ast::{MarkdownDocument, MarkdownElement, MarkdownElementCollection};

verus! {

/// The kind of a formatting entity of a span-annotated message.
#[derive(Clone, Eq, PartialEq, Debug)]
pub enum EntityKind {
    Bold,
    Italic,
    Underline,
    Strikethrough,
    Spoiler,
    Code,
    Pre { language: Option<String> },
    TextLink { url: String },
    TextMention,
    CustomEmoji,
    Blockquote,
    Mention,
    Hashtag,
    Cashtag,
    BotCommand,
    Url,
    Email,
    PhoneNumber,
}

/// A formatting entity: `kind` applies to the characters `start..end` of the text.
#[derive(Clone, Eq, PartialEq, Debug)]
pub struct Entity {
    pub kind: EntityKind,
    pub start: usize,
    pub end: usize,
}

/// The inline-delimiter markup that opens an entity of kind `k`, if it has any.
pub open spec fn open_marker(k: EntityKind) -> Option<Seq<char>> {
    match k {
        EntityKind::Bold => Some("**"@),
        EntityKind::Italic => Some("_"@),
        EntityKind::Underline => Some("__"@),
        EntityKind::Strikethrough => Some("~~"@),
        EntityKind::Spoiler => Some("||"@),
        EntityKind::Code => Some("`"@),
        EntityKind::Pre { language } => Some(
            "```"@ + match language {
                Some(l) => l@,
                None => Seq::empty(),
            },
        ),
        EntityKind::TextLink { .. } => Some("["@),
        EntityKind::Blockquote => Some("> "@),
        _ => None,
    }
}

/// The markup that closes an entity of kind `k`.
pub open spec fn close_marker(k: EntityKind) -> Seq<char> {
    match k {
        EntityKind::Bold => "**"@,
        EntityKind::Italic => "_"@,
        EntityKind::Underline => "__"@,
        EntityKind::Strikethrough => "~~"@,
        EntityKind::Spoiler => "||"@,
        EntityKind::Code => "`"@,
        EntityKind::Pre { .. } => "```"@,
        EntityKind::TextLink { url } => "]("@ + url@ + ")"@,
        _ => Seq::empty(),
    }
}

/// An entity that lies within a text of `n` characters and has markup.
pub open spec fn marked(e: Entity, n: nat) -> bool {
    &&& e.start <= e.end
    &&& e.end <= n
    &&& open_marker(e.kind) is Some
}

/// What `e` inserts at offset `p` as a closing delimiter.
pub open spec fn close_at(e: Entity, n: nat, p: int) -> Seq<char> {
    if marked(e, n) && e.end == p && e.start < e.end {
        close_marker(e.kind)
    } else {
        Seq::empty()
    }
}

/// What `e` inserts at offset `p` as an opening delimiter; an empty entity
/// closes right after it opens.
pub open spec fn open_at(e: Entity, n: nat, p: int) -> Seq<char> {
    if marked(e, n) && e.start == p {
        open_marker(e.kind)->0 + if e.start == e.end {
            close_marker(e.kind)
        } else {
            Seq::empty()
        }
    } else {
        Seq::empty()
    }
}

/// The closing delimiters at `p` of the first `k` entities, the last opened first.
pub open spec fn closes(es: Seq<Entity>, k: int, n: nat, p: int) -> Seq<char>
    decreases k,
{
    if k <= 0 {
        Seq::empty()
    } else {
        close_at(es[k - 1], n, p) + closes(es, k - 1, n, p)
    }
}

/// The opening delimiters at `p` of the first `k` entities, in their order.
pub open spec fn opens(es: Seq<Entity>, k: int, n: nat, p: int) -> Seq<char>
    decreases k,
{
    if k <= 0 {
        Seq::empty()
    } else {
        opens(es, k - 1, n, p) + open_at(es[k - 1], n, p)
    }
}

/// All that is inserted at offset `p`: closing delimiters before opening ones.
pub open spec fn slot(es: Seq<Entity>, n: nat, p: int) -> Seq<char> {
    closes(es, es.len() as int, n, p) + opens(es, es.len() as int, n, p)
}

/// Whether character `p` lies inside a block quote.
pub open spec fn in_quote(es: Seq<Entity>, n: nat, p: int) -> bool {
    exists|i: int|
        0 <= i < es.len() && marked(#[trigger] es[i], n) && es[i].kind is Blockquote
            && es[i].start <= p < es[i].end
}

/// Character `p` as it stands in the output: a line break inside a block quote
/// starts the next quoted line.
pub open spec fn rendered_char(text: Seq<char>, es: Seq<Entity>, p: int) -> Seq<char> {
    if text[p] == '\n' && in_quote(es, text.len(), p) {
        "\n> "@
    } else {
        seq![text[p]]
    }
}

/// The output for the first `q` characters, each preceded by its slot.
pub open spec fn spliced_prefix(text: Seq<char>, es: Seq<Entity>, q: int) -> Seq<char>
    decreases q,
{
    if q <= 0 {
        Seq::empty()
    } else {
        spliced_prefix(text, es, q - 1) + slot(es, text.len(), q - 1) + rendered_char(
            text,
            es,
            q - 1,
        )
    }
}

/// The text with every entity's delimiters spliced in at its offsets.
pub open spec fn spliced(text: Seq<char>, es: Seq<Entity>) -> Seq<char> {
    spliced_prefix(text, es, text.len() as int) + slot(es, text.len(), text.len() as int)
}

/// The delimiters of one entity, as the translator inserts them.
struct Marks {
    active: bool,
    quote: bool,
    start: usize,
    end: usize,
    open: String,
    close: String,
}

fn marks_of(e: &Entity, n: usize) -> (r: Marks)
    ensures
        r.active == marked(*e, n as nat),
        r.quote == (e.kind is Blockquote),
        r.start == e.start,
        r.end == e.end,
        r.active ==> r.open@ == open_marker(e.kind)->0,
        r.close@ == close_marker(e.kind),
{
    proof {
        reveal_strlit("**");
        reveal_strlit("_");
    }
    let (has, open, close) = match &e.kind {
        EntityKind::Bold => (true, "**".to_string(), "**".to_string()),
        EntityKind::Italic => (true, "_".to_string(), "_".to_string()),
        EntityKind::Underline => (true, "__".to_string(), "__".to_string()),
        EntityKind::Strikethrough => (true, "~~".to_string(), "~~".to_string()),
        EntityKind::Spoiler => (true, "||".to_string(), "||".to_string()),
        EntityKind::Code => (true, "`".to_string(), "`".to_string()),
        EntityKind::Pre { language } => {
            let mut o = "```".to_string();
            match language {
                Some(l) => push_str(&mut o, l.as_str()),
                None => {},
            }
            (true, o, "```".to_string())
        },
        EntityKind::TextLink { url } => {
            let mut c = "](".to_string();
            push_str(&mut c, url.as_str());
            push_str(&mut c, ")");
            (true, "[".to_string(), c)
        },
        EntityKind::Blockquote => (true, "> ".to_string(), String::new()),
        _ => (false, String::new(), String::new()),
    };
    let active = has && e.start <= e.end && e.end <= n;
    let quote = match &e.kind {
        EntityKind::Blockquote => true,
        _ => false,
    };
    Marks { active, quote, start: e.start, end: e.end, open, close }
}

proof fn lemma_closes_step(es: Seq<Entity>, k: int, n: nat, p: int)
    requires
        0 < k,
    ensures
        closes(es, k, n, p) == close_at(es[k - 1], n, p) + closes(es, k - 1, n, p),
{
}

/// Translates span-annotated text into inline-delimiter markdown: each
/// entity's delimiters are spliced in at its character offsets, and line
/// breaks inside block quotes continue the quote. Entities that fall outside
/// the text, end before they start, or have no markup are skipped.
pub fn telegram_to_discord_format(content: &str, entities: Vec<Entity>) -> (r: String)
    ensures
        r@ == spliced(content@, entities@),
{
    let text = chars_of(content);
    let n = text.len();
    let ghost es = entities@;
    let ghost t = content@;
    let mut marks: Vec<Marks> = Vec::new();
    let mut i: usize = 0;
    while i < entities.len()
        invariant
            i <= entities.len(),
            es == entities@,
            n == t.len(),
            marks.len() == i,
            forall|j: int|
                0 <= j < i ==> {
                    &&& (#[trigger] marks[j]).active == marked(es[j], n as nat)
                    &&& marks[j].quote == (es[j].kind is Blockquote)
                    &&& marks[j].start == es[j].start
                    &&& marks[j].end == es[j].end
                    &&& marks[j].active ==> marks[j].open@ == open_marker(es[j].kind)->0
                    &&& marks[j].close@ == close_marker(es[j].kind)
                },
        decreases entities.len() - i,
    {
        marks.push(marks_of(&entities[i], n));
        i += 1;
    }
    let mut out = String::new();
    let mut p: usize = 0;
    loop
        invariant_except_break
            out@ == spliced_prefix(t, es, p as int),
        invariant
            p <= n,
            n == t.len(),
            text@ == t,
            es == entities@,
            marks.len() == es.len(),
            forall|j: int|
                0 <= j < es.len() ==> {
                    &&& (#[trigger] marks[j]).active == marked(es[j], n as nat)
                    &&& marks[j].quote == (es[j].kind is Blockquote)
                    &&& marks[j].start == es[j].start
                    &&& marks[j].end == es[j].end
                    &&& marks[j].active ==> marks[j].open@ == open_marker(es[j].kind)->0
                    &&& marks[j].close@ == close_marker(es[j].kind)
                },
        ensures
            out@ == spliced(t, es),
        decreases n - p,
    {
        let ghost before = out@;
        let mut k: usize = marks.len();
        while k > 0
            invariant
                k <= marks.len(),
                marks.len() == es.len(),
                forall|j: int|
                    0 <= j < es.len() ==> {
                        &&& (#[trigger] marks[j]).active == marked(es[j], n as nat)
                        &&& marks[j].start == es[j].start
                        &&& marks[j].end == es[j].end
                        &&& marks[j].close@ == close_marker(es[j].kind)
                    },
                out@ + closes(es, k as int, n as nat, p as int) == before + closes(
                    es,
                    es.len() as int,
                    n as nat,
                    p as int,
                ),
            decreases k,
        {
            let m = &marks[k - 1];
            proof {
                lemma_closes_step(es, k as int, n as nat, p as int);
            }
            if m.active && m.end == p && m.start < m.end {
                push_str(&mut out, m.close.as_str());
            }
            k -= 1;
            assert(out@ + closes(es, k as int, n as nat, p as int) == before + closes(
                es,
                es.len() as int,
                n as nat,
                p as int,
            ));
        }
        assert(closes(es, 0, n as nat, p as int) == Seq::<char>::empty());
        assert(out@ == before + closes(es, es.len() as int, n as nat, p as int));
        let ghost mid = out@;
        let mut k: usize = 0;
        while k < marks.len()
            invariant
                k <= marks.len(),
                marks.len() == es.len(),
                forall|j: int|
                    0 <= j < es.len() ==> {
                        &&& (#[trigger] marks[j]).active == marked(es[j], n as nat)
                        &&& marks[j].start == es[j].start
                        &&& marks[j].end == es[j].end
                        &&& marks[j].active ==> marks[j].open@ == open_marker(es[j].kind)->0
                        &&& marks[j].close@ == close_marker(es[j].kind)
                    },
                out@ == mid + opens(es, k as int, n as nat, p as int),
            decreases marks.len() - k,
        {
            let m = &marks[k];
            if m.active && m.start == p {
                push_str(&mut out, m.open.as_str());
                if m.start == m.end {
                    push_str(&mut out, m.close.as_str());
                }
            }
            k += 1;
            assert(out@ =~= mid + opens(es, k as int, n as nat, p as int));
        }
        assert(out@ =~= spliced_prefix(t, es, p as int) + slot(es, n as nat, p as int));
        if p == n {
            break;
        }
        let c = text[p];
        let mut quoted = false;
        let mut k: usize = 0;
        while k < marks.len()
            invariant
                k <= marks.len(),
                p < n,
                marks.len() == es.len(),
                forall|j: int|
                    0 <= j < es.len() ==> {
                        &&& (#[trigger] marks[j]).active == marked(es[j], n as nat)
                        &&& marks[j].quote == (es[j].kind is Blockquote)
                        &&& marks[j].start == es[j].start
                        &&& marks[j].end == es[j].end
                    },
                quoted == exists|i: int|
                    0 <= i < k && marked(#[trigger] es[i], n as nat) && es[i].kind is Blockquote
                        && es[i].start <= p < es[i].end,
            decreases marks.len() - k,
        {
            let m = &marks[k];
            if m.active && m.quote && m.start <= p && p < m.end {
                quoted = true;
            }
            k += 1;
        }
        push_char(&mut out, c);
        if c == '\n' && quoted {
            push_str(&mut out, "> ");
        }
        proof {
            reveal_strlit("\n> ");
            reveal_strlit("> ");
            assert(rendered_char(t, es, p as int) == if c == '\n' && quoted {
                "\n> "@
            } else {
                seq![c]
            });
        }
        p += 1;
        assert(out@ =~= spliced_prefix(t, es, p as int));
    }
    out
}

/// Where character `p` of the text stands in the spliced output.
pub open spec fn text_pos(text: Seq<char>, es: Seq<Entity>, p: int) -> int {
    (spliced_prefix(text, es, p).len() + slot(es, text.len(), p).len()) as int
}

/// How many characters the slots at offsets below `q` insert.
pub open spec fn inserted_len(es: Seq<Entity>, n: nat, q: int) -> int
    decreases q,
{
    if q <= 0 {
        0
    } else {
        inserted_len(es, n, q - 1) + slot(es, n, q - 1).len() as int
    }
}

proof fn lemma_prefix_grows(text: Seq<char>, es: Seq<Entity>, q1: int, q2: int)
    requires
        0 <= q1 <= q2 <= text.len(),
    ensures
        spliced_prefix(text, es, q1).len() <= spliced_prefix(text, es, q2).len(),
        spliced_prefix(text, es, q2).subrange(0, spliced_prefix(text, es, q1).len() as int)
            == spliced_prefix(text, es, q1),
    decreases q2 - q1,
{
    if q1 < q2 {
        lemma_prefix_grows(text, es, q1, q2 - 1);
        let a = spliced_prefix(text, es, q1);
        let b = spliced_prefix(text, es, q2 - 1);
        let c = spliced_prefix(text, es, q2);
        assert(c == b + slot(es, text.len(), q2 - 1) + rendered_char(text, es, q2 - 1));
        assert(c.subrange(0, a.len() as int) =~= b.subrange(0, a.len() as int));
    } else {
        assert(spliced_prefix(text, es, q2).subrange(0, spliced_prefix(text, es, q1).len() as int)
            =~= spliced_prefix(text, es, q1));
    }
}

proof fn lemma_char_kept(text: Seq<char>, es: Seq<Entity>, p: int)
    requires
        0 <= p < text.len(),
    ensures
        text_pos(text, es, p) < spliced_prefix(text, es, p + 1).len(),
        spliced_prefix(text, es, p + 1)[text_pos(text, es, p)] == text[p],
{
    reveal_strlit("\n> ");
    let r = rendered_char(text, es, p);
    assert(r.len() >= 1 && r[0] == text[p]);
    let c = spliced_prefix(text, es, p + 1);
    assert(c == spliced_prefix(text, es, p) + slot(es, text.len(), p) + r);
}

proof fn lemma_plain_length(text: Seq<char>, es: Seq<Entity>, q: int)
    requires
        0 <= q <= text.len(),
        forall|i: int| 0 <= i < es.len() ==> !(#[trigger] es[i].kind is Blockquote),
    ensures
        spliced_prefix(text, es, q).len() == q + inserted_len(es, text.len(), q),
    decreases q,
{
    if q > 0 {
        lemma_plain_length(text, es, q - 1);
        assert(!in_quote(es, text.len(), q - 1));
    }
}

/// Splicing loses and duplicates no character of the text: character `p`
/// stands at `text_pos(p)` in the output, these positions increase with `p`,
/// and without block quotes the output is exactly the text plus the inserted
/// delimiters.
pub proof fn lemma_splice_keeps_text(text: Seq<char>, es: Seq<Entity>)
    ensures
        forall|p: int|
            0 <= p < text.len() ==> 0 <= #[trigger] text_pos(text, es, p) < spliced(text, es).len()
                && spliced(text, es)[text_pos(text, es, p)] == text[p],
        forall|p: int, q: int|
            0 <= p < q < text.len() ==> #[trigger] text_pos(text, es, p) < #[trigger] text_pos(
                text,
                es,
                q,
            ),
        (forall|i: int| 0 <= i < es.len() ==> !(#[trigger] es[i].kind is Blockquote))
            ==> spliced(text, es).len() == text.len() + inserted_len(es, text.len(), text.len() as int)
            + slot(es, text.len(), text.len() as int).len(),
{
    let n = text.len() as int;
    let whole = spliced(text, es);
    assert forall|p: int| 0 <= p < n implies 0 <= #[trigger] text_pos(text, es, p) < whole.len()
        && whole[text_pos(text, es, p)] == text[p] by {
        lemma_char_kept(text, es, p);
        lemma_prefix_grows(text, es, p + 1, n);
        let c = spliced_prefix(text, es, p + 1);
        let all = spliced_prefix(text, es, n);
        assert(all.subrange(0, c.len() as int)[text_pos(text, es, p)] == all[text_pos(text, es, p)]);
        assert(whole == all + slot(es, text.len(), n));
    }
    assert forall|p: int, q: int| 0 <= p < q < n implies #[trigger] text_pos(text, es, p)
        < #[trigger] text_pos(text, es, q) by {
        lemma_char_kept(text, es, p);
        lemma_prefix_grows(text, es, p + 1, q);
    }
    if forall|i: int| 0 <= i < es.len() ==> !(#[trigger] es[i].kind is Blockquote) {
        lemma_plain_length(text, es, n);
    }
}

/// A style of Telegram HTML.
#[derive(Clone, Copy, Debug, PartialEq, Eq, Structural)]
pub enum HtmlStyle {
    Bold,
    Italic,
    Underline,
    Strikethrough,
    Spoiler,
    Code,
    BlockQuote,
}

/// The opening tag of a style.
pub open spec fn open_tag(k: HtmlStyle) -> Seq<char> {
    match k {
        HtmlStyle::Bold => "<b>"@,
        HtmlStyle::Italic => "<i>"@,
        HtmlStyle::Underline => "<u>"@,
        HtmlStyle::Strikethrough => "<s>"@,
        HtmlStyle::Spoiler => "<tg-spoiler>"@,
        HtmlStyle::Code => "<code>"@,
        HtmlStyle::BlockQuote => "<blockquote>"@,
    }
}

/// The closing tag of a style.
pub open spec fn close_tag(k: HtmlStyle) -> Seq<char> {
    match k {
        HtmlStyle::Bold => "</b>"@,
        HtmlStyle::Italic => "</i>"@,
        HtmlStyle::Underline => "</u>"@,
        HtmlStyle::Strikethrough => "</s>"@,
        HtmlStyle::Spoiler => "</tg-spoiler>"@,
        HtmlStyle::Code => "</code>"@,
        HtmlStyle::BlockQuote => "</blockquote>"@,
    }
}

/// `s` as HTML text: `&`, `<` and `>` become entities.
pub open spec fn html_escape(s: Seq<char>) -> Seq<char>
    decreases s.len(),
{
    if s.len() == 0 {
        Seq::empty()
    } else {
        html_escape(s.drop_last()) + if s.last() == '&' {
            "&amp;"@
        } else if s.last() == '<' {
            "&lt;"@
        } else if s.last() == '>' {
            "&gt;"@
        } else {
            seq![s.last()]
        }
    }
}

/// Escapes `s` for Telegram HTML.
pub fn escape_html(s: &str) -> (r: String)
    ensures
        r@ == html_escape(s@),
{
    let chars = chars_of(s);
    let mut out = String::new();
    let mut i: usize = 0;
    while i < chars.len()
        invariant
            i <= chars.len(),
            chars@ == s@,
            out@ == html_escape(s@.take(i as int)),
        decreases chars.len() - i,
    {
        assert(s@.take(i + 1).drop_last() =~= s@.take(i as int));
        let c = chars[i];
        if c == '&' {
            push_str(&mut out, "&amp;");
        } else if c == '<' {
            push_str(&mut out, "&lt;");
        } else if c == '>' {
            push_str(&mut out, "&gt;");
        } else {
            push_char(&mut out, c);
        }
        i += 1;
        assert(out@ =~= html_escape(s@.take(i as int)));
    }
    assert(s@.take(i as int) =~= s@);
    out
}

/// `inner`, already HTML, inside the tags of `style`.
pub fn wrap_html(style: HtmlStyle, inner: &str) -> (r: String)
    ensures
        r@ == open_tag(style) + inner@ + close_tag(style),
{
    let (open, close) = match style {
        HtmlStyle::Bold => ("<b>", "</b>"),
        HtmlStyle::Italic => ("<i>", "</i>"),
        HtmlStyle::Underline => ("<u>", "</u>"),
        HtmlStyle::Strikethrough => ("<s>", "</s>"),
        HtmlStyle::Spoiler => ("<tg-spoiler>", "</tg-spoiler>"),
        HtmlStyle::Code => ("<code>", "</code>"),
        HtmlStyle::BlockQuote => ("<blockquote>", "</blockquote>"),
    };
    let mut out = String::new();
    push_str(&mut out, open);
    push_str(&mut out, inner);
    push_str(&mut out, close);
    out
}

/// A code block as Telegram HTML, tagged with its language where it has one.
pub open spec fn code_block_html(body: Seq<char>, language: Option<Seq<char>>) -> Seq<char> {
    match language {
        Some(l) => "<pre><code class=\"language-"@ + l + "\">"@ + html_escape(body) + "</code></pre>"@,
        None => "<pre>"@ + html_escape(body) + "</pre>"@,
    }
}

/// Renders a code block for Telegram HTML.
pub fn code_block(body: &str, language: Option<&str>) -> (r: String)
    ensures
        r@ == code_block_html(
            body@,
            match language {
                Some(l) => Some(l@),
                None => None,
            },
        ),
{
    let mut out = String::new();
    match language {
        Some(l) => {
            push_str(&mut out, "<pre><code class=\"language-");
            push_str(&mut out, l);
            push_str(&mut out, "\">");
            let b = escape_html(body);
            push_str(&mut out, b.as_str());
            push_str(&mut out, "</code></pre>");
        },
        None => {
            push_str(&mut out, "<pre>");
            let b = escape_html(body);
            push_str(&mut out, b.as_str());
            push_str(&mut out, "</pre>");
        },
    }
    out
}

/// How many characters entity `e` inserts into a text of `n` characters:
/// its opening and closing delimiters where it has markup and lies within
/// the text, else none.
pub open spec fn entity_insert_len(e: Entity, n: nat) -> int {
    if marked(e, n) {
        (open_marker(e.kind)->0.len() + close_marker(e.kind).len()) as int
    } else {
        0
    }
}

/// How many characters the first `k` entities insert.
pub open spec fn entities_insert_len(es: Seq<Entity>, k: int, n: nat) -> int
    decreases k,
{
    if k <= 0 {
        0
    } else {
        entities_insert_len(es, k - 1, n) + entity_insert_len(es[k - 1], n)
    }
}

/// What entity `e` inserts at offsets below `q`, counted.
pub open spec fn entity_sum(e: Entity, n: nat, q: int) -> int
    decreases q,
{
    if q <= 0 {
        0
    } else {
        entity_sum(e, n, q - 1) + close_at(e, n, q - 1).len() + open_at(e, n, q - 1).len()
    }
}

/// What the first `k` entities insert at offsets below `q`, counted entity by entity.
pub open spec fn entities_sum(es: Seq<Entity>, k: int, n: nat, q: int) -> int
    decreases k,
{
    if k <= 0 {
        0
    } else {
        entities_sum(es, k - 1, n, q) + entity_sum(es[k - 1], n, q)
    }
}

/// What the first `k` entities insert at offset `p`, counted.
pub open spec fn at_sum(es: Seq<Entity>, k: int, n: nat, p: int) -> int
    decreases k,
{
    if k <= 0 {
        0
    } else {
        at_sum(es, k - 1, n, p) + close_at(es[k - 1], n, p).len() + open_at(es[k - 1], n, p).len()
    }
}

proof fn lemma_slot_len(es: Seq<Entity>, k: int, n: nat, p: int)
    requires
        0 <= k <= es.len(),
    ensures
        closes(es, k, n, p).len() + opens(es, k, n, p).len() == at_sum(es, k, n, p),
    decreases k,
{
    if k > 0 {
        lemma_slot_len(es, k - 1, n, p);
    }
}

proof fn lemma_entities_sum_step(es: Seq<Entity>, k: int, n: nat, q: int)
    requires
        0 <= k <= es.len(),
        q > 0,
    ensures
        entities_sum(es, k, n, q) == entities_sum(es, k, n, q - 1) + at_sum(es, k, n, q - 1),
    decreases k,
{
    if k > 0 {
        lemma_entities_sum_step(es, k - 1, n, q);
    }
}

proof fn lemma_inserted_is_sum(es: Seq<Entity>, n: nat, q: int)
    requires
        q >= 0,
    ensures
        inserted_len(es, n, q) == entities_sum(es, es.len() as int, n, q),
    decreases q,
{
    if q > 0 {
        lemma_inserted_is_sum(es, n, q - 1);
        lemma_entities_sum_step(es, es.len() as int, n, q);
        lemma_slot_len(es, es.len() as int, n, q - 1);
    } else {
        lemma_entities_sum_zero(es, es.len() as int, n);
    }
}

proof fn lemma_entities_sum_zero(es: Seq<Entity>, k: int, n: nat)
    ensures
        entities_sum(es, k, n, 0) == 0,
    decreases k,
{
    if k > 0 {
        lemma_entities_sum_zero(es, k - 1, n);
    }
}

proof fn lemma_entity_sum(e: Entity, n: nat, q: int)
    requires
        0 <= q,
    ensures
        entity_sum(e, n, q) == (if marked(e, n) && e.start < e.end && e.end < q {
            close_marker(e.kind).len() as int
        } else {
            0
        }) + (if marked(e, n) && e.start < q {
            open_marker(e.kind)->0.len() + if e.start == e.end {
                close_marker(e.kind).len() as int
            } else {
                0
            }
        } else {
            0
        }),
    decreases q,
{
    if q > 0 {
        lemma_entity_sum(e, n, q - 1);
    }
}

proof fn lemma_entities_total(es: Seq<Entity>, k: int, n: nat)
    requires
        0 <= k <= es.len(),
    ensures
        entities_sum(es, k, n, n + 1int) == entities_insert_len(es, k, n),
    decreases k,
{
    if k > 0 {
        lemma_entities_total(es, k - 1, n);
        lemma_entity_sum(es[k - 1], n, n + 1int);
    }
}

/// Splicing adds to the text exactly the delimiters of its entities: without
/// block quotes, the output is as long as the text plus, for each entity
/// with markup that lies within the text, its opening and closing
/// delimiters.
pub proof fn lemma_splice_length(text: Seq<char>, es: Seq<Entity>)
    requires
        forall|i: int| 0 <= i < es.len() ==> !(#[trigger] es[i].kind is Blockquote),
    ensures
        spliced(text, es).len() == text.len() + entities_insert_len(es, es.len() as int, text.len()),
{
    let n = text.len();
    lemma_splice_keeps_text(text, es);
    lemma_inserted_is_sum(es, n, n + 1int);
    lemma_entities_total(es, es.len() as int, n);
    assert(inserted_len(es, n, n + 1int) == inserted_len(es, n, n as int) + slot(es, n, n as int).len());
}

#[verifier::external_type_specification]
#[verifier::external_body]
pub struct ExMarkdownDocument(MarkdownDocument);

#[verifier::external_type_specification]
#[verifier::external_body]
pub struct ExMarkdownElementCollection(MarkdownElementCollection);

/// A Discord markdown tree as a value: the elements that discord-md parses,
/// with both spellings of italics as one.
pub enum MdTree {
    Plain(Seq<char>),
    Italics(Seq<MdTree>),
    Bold(Seq<MdTree>),
    Underline(Seq<MdTree>),
    Strikethrough(Seq<MdTree>),
    Spoiler(Seq<MdTree>),
    OneLineCode(Seq<char>),
    MultiLineCode(Seq<char>, Option<Seq<char>>),
    BlockQuote(Seq<MdTree>),
}

/// The elements that `discord_md::parse` finds in a text.
pub uninterp spec fn discord_tree_of(s: Seq<char>) -> Seq<MdTree>;

/// The elements of a parsed document.
pub uninterp spec fn document_tree(d: MarkdownDocument) -> Seq<MdTree>;

/// The elements that a collection holds, in order.
pub uninterp spec fn collection_tree(c: MarkdownElementCollection) -> Seq<MdTree>;

/// Relies on `discord_md::parse`: Discord markdown as its syntax tree, a
/// function of the text alone. The parser accepts every input.
#[verifier::external_body]
fn parse_discord_markdown(content: &str) -> (r: MarkdownDocument)
    ensures
        document_tree(r) == discord_tree_of(content@),
{
    discord_md::parse(content)
}

/// Relies on `MarkdownDocument::content`: the top-level elements of a parsed document.
pub assume_specification[ MarkdownDocument::content ](d: &MarkdownDocument) -> (r: &MarkdownElementCollection)
    ensures
        collection_tree(*r) == document_tree(*d),
;

/// Relies on `MarkdownElementCollection::get`: how many elements a collection holds.
#[verifier::external_body]
fn markdown_len(c: &MarkdownElementCollection) -> (r: usize)
    ensures
        r == collection_tree(*c).len(),
{
    c.get().len()
}

/// One element of a Discord markdown tree, with its content.
pub enum MarkdownNode<'a> {
    Plain(&'a str),
    Italics(&'a MarkdownElementCollection),
    Bold(&'a MarkdownElementCollection),
    Underline(&'a MarkdownElementCollection),
    Strikethrough(&'a MarkdownElementCollection),
    Spoiler(&'a MarkdownElementCollection),
    OneLineCode(&'a str),
    MultiLineCode(&'a str, Option<&'a str>),
    BlockQuote(&'a MarkdownElementCollection),
}

pub open spec fn opt_str_ref_view(o: Option<&str>) -> Option<Seq<char>> {
    match o {
        Some(s) => Some(s@),
        None => None,
    }
}

/// What element `i` of a collection is, given the node handed out for it.
pub open spec fn node_is(t: MdTree, n: MarkdownNode) -> bool {
    match n {
        MarkdownNode::Plain(s) => t == MdTree::Plain(s@),
        MarkdownNode::Italics(c) => t == MdTree::Italics(collection_tree(*c)),
        MarkdownNode::Bold(c) => t == MdTree::Bold(collection_tree(*c)),
        MarkdownNode::Underline(c) => t == MdTree::Underline(collection_tree(*c)),
        MarkdownNode::Strikethrough(c) => t == MdTree::Strikethrough(collection_tree(*c)),
        MarkdownNode::Spoiler(c) => t == MdTree::Spoiler(collection_tree(*c)),
        MarkdownNode::OneLineCode(s) => t == MdTree::OneLineCode(s@),
        MarkdownNode::MultiLineCode(s, l) => t == MdTree::MultiLineCode(s@, opt_str_ref_view(l)),
        MarkdownNode::BlockQuote(c) => t == MdTree::BlockQuote(collection_tree(*c)),
    }
}

/// Relies on `MarkdownElementCollection::get` and the variants of
/// `discord_md::ast::MarkdownElement` with their `content` / `language`
/// accessors: tells element `i`'s kind and hands out its content.
#[verifier::external_body]
fn markdown_node(c: &MarkdownElementCollection, i: usize) -> (r: MarkdownNode<'_>)
    requires
        i < collection_tree(*c).len(),
    ensures
        node_is(collection_tree(*c)[i as int], r),
{
    match &c.get()[i] {
        MarkdownElement::Plain(x) => MarkdownNode::Plain(x.content()),
        MarkdownElement::ItalicsStar(x) => MarkdownNode::Italics(x.content()),
        MarkdownElement::ItalicsUnderscore(x) => MarkdownNode::Italics(x.content()),
        MarkdownElement::Bold(x) => MarkdownNode::Bold(x.content()),
        MarkdownElement::Underline(x) => MarkdownNode::Underline(x.content()),
        MarkdownElement::Strikethrough(x) => MarkdownNode::Strikethrough(x.content()),
        MarkdownElement::Spoiler(x) => MarkdownNode::Spoiler(x.content()),
        MarkdownElement::OneLineCode(x) => MarkdownNode::OneLineCode(x.content()),
        MarkdownElement::MultiLineCode(x) => MarkdownNode::MultiLineCode(x.content(), x.language()),
        MarkdownElement::BlockQuote(x) => MarkdownNode::BlockQuote(x.content()),
    }
}

/// The Telegram HTML of one element: styles become tags around their
/// translated content, text is escaped, code becomes `code` / `pre`.
pub open spec fn telegram_html_node(t: MdTree) -> Seq<char>
    decreases t,
{
    match t {
        MdTree::Plain(s) => html_escape(s),
        MdTree::Italics(cs) => open_tag(HtmlStyle::Italic) + telegram_html_items(cs, cs.len() as int)
            + close_tag(HtmlStyle::Italic),
        MdTree::Bold(cs) => open_tag(HtmlStyle::Bold) + telegram_html_items(cs, cs.len() as int) + close_tag(
            HtmlStyle::Bold,
        ),
        MdTree::Underline(cs) => open_tag(HtmlStyle::Underline) + telegram_html_items(cs, cs.len() as int)
            + close_tag(HtmlStyle::Underline),
        MdTree::Strikethrough(cs) => open_tag(HtmlStyle::Strikethrough) + telegram_html_items(
            cs,
            cs.len() as int,
        ) + close_tag(HtmlStyle::Strikethrough),
        MdTree::Spoiler(cs) => open_tag(HtmlStyle::Spoiler) + telegram_html_items(cs, cs.len() as int)
            + close_tag(HtmlStyle::Spoiler),
        MdTree::OneLineCode(s) => open_tag(HtmlStyle::Code) + html_escape(s) + close_tag(HtmlStyle::Code),
        MdTree::MultiLineCode(s, l) => code_block_html(s, l),
        MdTree::BlockQuote(cs) => open_tag(HtmlStyle::BlockQuote) + telegram_html_items(cs, cs.len() as int)
            + close_tag(HtmlStyle::BlockQuote),
    }
}

/// The Telegram HTML of the first `k` elements, concatenated.
pub open spec fn telegram_html_items(ts: Seq<MdTree>, k: int) -> Seq<char>
    decreases ts, k,
{
    if k <= 0 || k > ts.len() {
        Seq::empty()
    } else {
        telegram_html_items(ts, k - 1) + telegram_html_node(ts[k - 1])
    }
}

/// The Telegram HTML of a markdown tree.
pub open spec fn telegram_html(ts: Seq<MdTree>) -> Seq<char> {
    telegram_html_items(ts, ts.len() as int)
}

fn styled(style: HtmlStyle, c: &MarkdownElementCollection, Ghost(t): Ghost<Seq<MdTree>>) -> (r: String)
    requires
        collection_tree(*c) == t,
    ensures
        r@ == open_tag(style) + telegram_html(t) + close_tag(style),
    decreases t, 1nat,
{
    let inner = collection_html(c, Ghost(t));
    wrap_html(style, inner.as_str())
}

fn element_html(c: &MarkdownElementCollection, i: usize, Ghost(t): Ghost<Seq<MdTree>>) -> (r: String)
    requires
        collection_tree(*c) == t,
        i < t.len(),
    ensures
        r@ == telegram_html_node(t[i as int]),
    decreases t[i as int], 2nat,
{
    let ghost node = t[i as int];
    proof {
        assert(decreases_to!(t => t[i as int]));
    }
    match markdown_node(c, i) {
        MarkdownNode::Plain(s) => escape_html(s),
        MarkdownNode::Italics(inner) => {
            proof {
                assert(decreases_to!(node => node->Italics_0));
            }
            styled(HtmlStyle::Italic, inner, Ghost(collection_tree(*inner)))
        },
        MarkdownNode::Bold(inner) => {
            proof {
                assert(decreases_to!(node => node->Bold_0));
            }
            styled(HtmlStyle::Bold, inner, Ghost(collection_tree(*inner)))
        },
        MarkdownNode::Underline(inner) => {
            proof {
                assert(decreases_to!(node => node->Underline_0));
            }
            styled(HtmlStyle::Underline, inner, Ghost(collection_tree(*inner)))
        },
        MarkdownNode::Strikethrough(inner) => {
            proof {
                assert(decreases_to!(node => node->Strikethrough_0));
            }
            styled(HtmlStyle::Strikethrough, inner, Ghost(collection_tree(*inner)))
        },
        MarkdownNode::Spoiler(inner) => {
            proof {
                assert(decreases_to!(node => node->Spoiler_0));
            }
            styled(HtmlStyle::Spoiler, inner, Ghost(collection_tree(*inner)))
        },
        MarkdownNode::OneLineCode(s) => {
            let body = escape_html(s);
            wrap_html(HtmlStyle::Code, body.as_str())
        },
        MarkdownNode::MultiLineCode(s, language) => code_block(s, language),
        MarkdownNode::BlockQuote(inner) => {
            proof {
                assert(decreases_to!(node => node->BlockQuote_0));
            }
            styled(HtmlStyle::BlockQuote, inner, Ghost(collection_tree(*inner)))
        },
    }
}

fn collection_html(c: &MarkdownElementCollection, Ghost(t): Ghost<Seq<MdTree>>) -> (r: String)
    requires
        collection_tree(*c) == t,
    ensures
        r@ == telegram_html(t),
    decreases t, 0nat,
{
    let n = markdown_len(c);
    let mut out = String::new();
    let mut i: usize = 0;
    while i < n
        invariant
            i <= n,
            n == t.len(),
            collection_tree(*c) == t,
            out@ == telegram_html_items(t, i as int),
        decreases n - i,
    {
        let piece = element_html(c, i, Ghost(t));
        push_str(&mut out, piece.as_str());
        i += 1;
    }
    out
}

/// Translates a Discord markdown tree into Telegram HTML.
pub fn markdown_to_telegram(c: &MarkdownElementCollection) -> (r: String)
    ensures
        r@ == telegram_html(collection_tree(*c)),
{
    collection_html(c, Ghost(collection_tree(*c)))
}

/// Translates Discord markdown into Telegram HTML: styles become tags around
/// their translated content, code becomes `code` / `pre`, and text is
/// escaped.
pub fn discord_to_telegram_format(content: &str) -> (r: String)
    ensures
        r@ == telegram_html(discord_tree_of(content@)),
{
    let doc = parse_discord_markdown(content);
    markdown_to_telegram(doc.content())
}

/// A Telegram user, as far as names go.
#[derive(Clone, Debug, PartialEq, Eq)]
pub struct TelegramUser {
    pub first_name: String,
    pub last_name: Option<String>,
}

/// A Telegram chat; groups and channels have a title.
#[derive(Clone, Debug, PartialEq, Eq)]
pub struct TelegramChat {
    pub title: Option<String>,
}

/// Who sent a Telegram message: a user, or a chat posting as itself.
#[derive(Clone, Debug, PartialEq, Eq)]
pub struct TelegramSender {
    pub user: Option<TelegramUser>,
    pub chat: Option<TelegramChat>,
}

/// A user's full name: the first name, then the last name after a space
/// where there is one.
pub open spec fn full_name(u: TelegramUser) -> Seq<char> {
    match u.last_name {
        Some(l) => u.first_name@ + " "@ + l@,
        None => u.first_name@,
    }
}

/// The name shown for a sender: the user's full name, else the chat's title,
/// else `fallback`.
pub open spec fn sender_name(s: TelegramSender, fallback: Seq<char>) -> Seq<char> {
    match s.user {
        Some(u) => full_name(u),
        None => match s.chat {
            Some(c) => match c.title {
                Some(t) => t@,
                None => fallback,
            },
            None => fallback,
        },
    }
}

fn user_full_name(u: &TelegramUser) -> (r: String)
    ensures
        r@ == full_name(*u),
{
    let mut out = u.first_name.clone();
    match &u.last_name {
        Some(l) => {
            push_str(&mut out, " ");
            push_str(&mut out, l.as_str());
        },
        None => {},
    }
    out
}

fn name_of_sender(s: &TelegramSender, fallback: &str) -> (r: String)
    ensures
        r@ == sender_name(*s, fallback@),
{
    match &s.user {
        Some(u) => user_full_name(u),
        None => match &s.chat {
            Some(TelegramChat { title: Some(t) }) => t.clone(),
            _ => fallback.to_string(),
        },
    }
}

/// The author name shown for a Telegram message.
pub fn telegram_author_name(msg: &TelegramSender) -> (r: String)
    ensures
        r@ == sender_name(*msg, "Unknown [this shouldn't be possible]"@),
{
    name_of_sender(msg, "Unknown [this shouldn't be possible]")
}

/// The name shown for whoever changed the reactions on a Telegram message.
pub fn telegram_reactor_name(reaction: &TelegramSender) -> (r: String)
    ensures
        r@ == sender_name(*reaction, "Internal Error"@),
{
    name_of_sender(reaction, "Internal Error")
}

/// The names a Discord user goes by: a server nickname, a global display
/// name, and the account name.
#[derive(Clone, Debug, PartialEq, Eq)]
pub struct DiscordAuthor {
    pub nick: Option<String>,
    pub global_name: Option<String>,
    pub name: String,
}

/// The name shown for a Discord user: the nickname, else the global display
/// name, else the account name.
pub open spec fn discord_display_name(a: DiscordAuthor) -> Seq<char> {
    match a.nick {
        Some(n) => n@,
        None => match a.global_name {
            Some(g) => g@,
            None => a.name@,
        },
    }
}

/// The author name shown for a Discord message.
pub fn discord_author_name(author: &DiscordAuthor) -> (r: String)
    ensures
        r@ == discord_display_name(*author),
{
    match &author.nick {
        Some(n) => n.clone(),
        None => match &author.global_name {
            Some(g) => g.clone(),
            None => author.name.clone(),
        },
    }
}

/// The name shown for whoever reacted on Discord, where they could be
/// found; else `Unknown User`.
pub fn discord_reactor_name(reactor: Option<&DiscordAuthor>) -> (r: String)
    ensures
        match reactor {
            Some(a) => r@ == discord_display_name(*a),
            None => r@ == "Unknown User"@,
        },
{
    match reactor {
        Some(a) => discord_author_name(a),
        None => "Unknown User".to_string(),
    }
}

/// A reaction on Discord.
#[derive(Clone, Debug, PartialEq, Eq)]
pub enum DiscordReaction {
    Unicode(String),
    Custom { animated: bool, id: u64, name: Option<String> },
    Other,
}

/// The text that stands for a Discord reaction: the emoji itself, or a
/// custom emoji's name; other kinds have none.
pub fn discord_reaction_string(reaction: &DiscordReaction) -> (r: Option<&str>)
    ensures
        match *reaction {
            DiscordReaction::Unicode(e) => r is Some && r->0@ == e@,
            DiscordReaction::Custom { name: Some(n), .. } => r is Some && r->0@ == n@,
            _ => r is None,
        },
{
    match reaction {
        DiscordReaction::Unicode(emoji) => Some(emoji.as_str()),
        DiscordReaction::Custom { name: Some(n), .. } => Some(n.as_str()),
        _ => None,
    }
}

/// A reaction on Telegram.
#[derive(Clone, Debug, PartialEq, Eq)]
pub enum TelegramReaction {
    Emoji(String),
    CustomEmoji(String),
}

/// `s` with each heavy black heart followed by the emoji presentation
/// selector, as Discord expects it.
pub open spec fn with_heart_selector(s: Seq<char>) -> Seq<char>
    decreases s.len(),
{
    if s.len() == 0 {
        Seq::empty()
    } else {
        with_heart_selector(s.drop_last()) + if s.last() == '\u{2764}' {
            seq!['\u{2764}', '\u{fe0f}']
        } else {
            seq![s.last()]
        }
    }
}

/// The text of a Telegram reaction as Discord shows it.
pub open spec fn telegram_reaction_text(r: TelegramReaction) -> Seq<char> {
    match r {
        TelegramReaction::Emoji(e) => with_heart_selector(e@),
        TelegramReaction::CustomEmoji(id) => id@,
    }
}

fn heart_selector(s: &str) -> (r: String)
    ensures
        r@ == with_heart_selector(s@),
{
    let chars = chars_of(s);
    let mut out = String::new();
    let mut i: usize = 0;
    while i < chars.len()
        invariant
            i <= chars.len(),
            chars@ == s@,
            out@ == with_heart_selector(s@.take(i as int)),
        decreases chars.len() - i,
    {
        assert(s@.take(i + 1).drop_last() =~= s@.take(i as int));
        push_char(&mut out, chars[i]);
        if chars[i] == '\u{2764}' {
            push_char(&mut out, '\u{fe0f}');
        }
        i += 1;
        assert(out@ =~= with_heart_selector(s@.take(i as int)));
    }
    assert(s@.take(i as int) =~= s@);
    out
}

/// The texts of Telegram reactions as Discord shows them, in order.
pub fn filter_telegram_reactions(reactions: &[TelegramReaction]) -> (r: Vec<String>)
    ensures
        r.len() == reactions@.len(),
        forall|i: int| 0 <= i < r.len() ==> (#[trigger] r[i])@ == telegram_reaction_text(reactions@[i]),
{
    let mut out: Vec<String> = Vec::new();
    let mut i: usize = 0;
    while i < reactions.len()
        invariant
            i <= reactions@.len(),
            out.len() == i,
            forall|j: int| 0 <= j < i ==> (#[trigger] out[j])@ == telegram_reaction_text(reactions@[j]),
        decreases reactions@.len() - i,
    {
        let text = match &reactions[i] {
            TelegramReaction::Emoji(e) => heart_selector(e.as_str()),
            TelegramReaction::CustomEmoji(id) => id.clone(),
        };
        out.push(text);
        i += 1;
    }
    out
}

/// The most characters of a replied-to message that a reply preview shows.
pub const PREVIEW_MAX_CHARS: usize = 200;

/// The most lines of a replied-to message that a reply preview shows.
pub const PREVIEW_MAX_LINES: usize = 5;

/// The index of the last white space among the first `k` characters of `s`.
pub open spec fn last_space_before(s: Seq<char>, k: int) -> Option<int>
    decreases k,
{
    if k <= 0 {
        None
    } else if crate::reactions::is_space(s[k - 1]) {
        Some(k - 1)
    } else {
        last_space_before(s, k - 1)
    }
}

/// How many line feeds the first `k` characters of `s` hold.
pub open spec fn count_newlines(s: Seq<char>, k: int) -> nat
    decreases k,
{
    if k <= 0 {
        0
    } else {
        count_newlines(s, k - 1) + if s[k - 1] == '\n' {
            1nat
        } else {
            0nat
        }
    }
}

/// The index of the line feed that ends line `n` (counting from 1) of `s`.
pub open spec fn line_end(s: Seq<char>, n: nat) -> Option<int> {
    if exists|j: int| 0 <= j < s.len() && s[j] == '\n' && count_newlines(s, j + 1) == n {
        Some(choose|j: int| 0 <= j < s.len() && s[j] == '\n' && count_newlines(s, j + 1) == n)
    } else {
        None
    }
}

/// `s` cut to its first characters, at a word boundary, and to its first
/// lines; `...` marks a cut.
pub open spec fn preview_of(s: Seq<char>) -> Seq<char> {
    let long = s.len() > PREVIEW_MAX_CHARS;
    let a = if long {
        match last_space_before(s, PREVIEW_MAX_CHARS as int) {
            Some(i) => s.take(i),
            None => s.take(PREVIEW_MAX_CHARS as int),
        }
    } else {
        s
    };
    let tall = line_end(a, PREVIEW_MAX_LINES as nat) is Some;
    let b = if tall {
        a.take(line_end(a, PREVIEW_MAX_LINES as nat)->0 + 1)
    } else {
        a
    };
    if long || tall {
        b + "..."@
    } else {
        b
    }
}

proof fn lemma_count_monotone(s: Seq<char>, i: int, j: int)
    requires
        0 <= i <= j <= s.len(),
    ensures
        count_newlines(s, i) <= count_newlines(s, j),
    decreases j - i,
{
    if i < j {
        lemma_count_monotone(s, i, j - 1);
    }
}

proof fn lemma_count_take(s: Seq<char>, k: int, j: int)
    requires
        0 <= j <= k <= s.len(),
    ensures
        count_newlines(s.take(k), j) == count_newlines(s, j),
    decreases j,
{
    if j > 0 {
        lemma_count_take(s, k, j - 1);
    }
}

/// A preview of a replied-to message: at most [`PREVIEW_MAX_CHARS`]
/// characters, cut at the last white space before the limit where there is
/// one, and at most [`PREVIEW_MAX_LINES`] lines; a cut text ends in `...`.
pub fn reply_preview(s: &str) -> (r: String)
    ensures
        r@ == preview_of(s@),
{
    let chars = chars_of(s);
    let mut end: usize = chars.len();
    let long = chars.len() > PREVIEW_MAX_CHARS;
    if long {
        let mut k: usize = PREVIEW_MAX_CHARS;
        while k > 0 && !crate::reactions::trims_exec(crate::reactions::TrimSet::Space, chars[k - 1])
            invariant
                k <= PREVIEW_MAX_CHARS < chars.len(),
                chars@ == s@,
                last_space_before(s@, PREVIEW_MAX_CHARS as int) == last_space_before(s@, k as int),
            decreases k,
        {
            k -= 1;
        }
        end = if k > 0 {
            k - 1
        } else {
            PREVIEW_MAX_CHARS
        };
    }
    let ghost a = s@.take(end as int);
    assert(!long ==> a =~= s@);
    let mut count: usize = 0;
    let mut j: usize = 0;
    let mut cut: Option<usize> = None;
    while j < end
        invariant_except_break
            count == count_newlines(a, j as int),
            count < PREVIEW_MAX_LINES,
            cut is None,
        invariant
            j <= end <= chars.len(),
            chars@ == s@,
            a == s@.take(end as int),
        ensures
            match cut {
                Some(c) => c == j && j < end && a[j as int] == '\n' && count_newlines(a, j + 1)
                    == PREVIEW_MAX_LINES,
                None => j == end && count_newlines(a, end as int) < PREVIEW_MAX_LINES,
            },
        decreases end - j,
    {
        if chars[j] == '\n' {
            count += 1;
            if count == PREVIEW_MAX_LINES {
                cut = Some(j);
                break;
            }
        }
        j += 1;
    }
    proof {
        lemma_count_take(s@, end as int, 0);
    }
    let tall = cut.is_some();
    let stop = match cut {
        Some(c) => c + 1,
        None => end,
    };
    proof {
        if tall {
            assert(count_newlines(a, j + 1) == PREVIEW_MAX_LINES);
            let w = choose|w: int| 0 <= w < a.len() && a[w] == '\n' && count_newlines(a, w + 1) == PREVIEW_MAX_LINES as nat;
            if w < j {
                lemma_count_monotone(a, w + 1, j as int);
            } else if w > j {
                lemma_count_monotone(a, j + 1, w);
            }
            assert(w == j);
        } else {
            assert forall|w: int| 0 <= w < a.len() && a[w] == '\n' implies count_newlines(a, w + 1) != PREVIEW_MAX_LINES as nat by {
                lemma_count_monotone(a, w + 1, j as int);
            }
        }
    }
    let mut out = String::new();
    let mut i: usize = 0;
    while i < stop
        invariant
            i <= stop <= chars.len(),
            chars@ == s@,
            out@ == s@.take(i as int),
        decreases stop - i,
    {
        push_char(&mut out, chars[i]);
        i += 1;
        assert(out@ =~= s@.take(i as int));
    }
    if long || tall {
        push_str(&mut out, "...");
    }
    assert(a.take(stop as int) =~= s@.take(stop as int));
    out
}

} // verus!
