//! Rendering of [`RichText`] into each platform's markup.

use vstd::prelude::*;
use crate::model::{Rich, RichText};
use crate::text::{push_char, push_str};

verus! {

/// `body` wrapped between `open` and `close`.
pub open spec fn wrap(open: Seq<char>, body: Seq<char>, close: Seq<char>) -> Seq<char> {
    open + body + close
}

/// The inline-delimiter markdown of a tree: each style wraps its content in
/// its own delimiters, so nested styles never share a delimiter.
pub open spec fn markdown_of(t: Rich) -> Seq<char>
    decreases t,
{
    match t {
        Rich::Sequence(items) => markdown_of_items(items, items.len() as int),
        Rich::Bold(x) => wrap("**"@, markdown_of(*x), "**"@),
        Rich::Italic(x) => wrap("_"@, markdown_of(*x), "_"@),
        Rich::Strikethrough(x) => wrap("~~"@, markdown_of(*x), "~~"@),
        Rich::Blockquote(x) => "> "@ + quote_lines(markdown_of(*x)),
        Rich::FixedWidth(s) => wrap("`"@, s, "`"@),
        Rich::Hyperlink { text, link } => "["@ + text + "]("@ + link + ")"@,
        Rich::Code { language, body } => "```"@ + match language {
            Some(l) => l,
            None => Seq::empty(),
        } + "\n"@ + body + "```"@,
        Rich::Plain(s) => s,
    }
}

/// The markdown of the first `k` items of a sequence, concatenated.
pub open spec fn markdown_of_items(items: Seq<Rich>, k: int) -> Seq<char>
    decreases items, k,
{
    if k <= 0 || k > items.len() {
        Seq::empty()
    } else {
        markdown_of_items(items, k - 1) + markdown_of(items[k - 1])
    }
}

/// `s` with every line break continuing a block quote.
pub open spec fn quote_lines(s: Seq<char>) -> Seq<char>
    decreases s.len(),
{
    if s.len() == 0 {
        Seq::empty()
    } else {
        quote_lines(s.drop_last()) + if s.last() == '\n' {
            "\n> "@
        } else {
            seq![s.last()]
        }
    }
}

fn push_quoted(out: &mut String, s: &String)
    ensures
        final(out)@ == old(out)@ + quote_lines(s@),
{
    let chars = crate::text::chars_of(s.as_str());
    let ghost start = out@;
    let mut i: usize = 0;
    while i < chars.len()
        invariant
            i <= chars.len(),
            chars@ == s@,
            out@ == start + quote_lines(s@.take(i as int)),
        decreases chars.len() - i,
    {
        assert(s@.take(i + 1).drop_last() =~= s@.take(i as int));
        push_char(out, chars[i]);
        if chars[i] == '\n' {
            push_str(out, "> ");
        }
        proof {
            reveal_strlit("\n> ");
            reveal_strlit("> ");
        }
        i += 1;
        assert(out@ =~= start + quote_lines(s@.take(i as int)));
    }
    assert(s@.take(i as int) =~= s@);
}

fn push_markdown(out: &mut String, t: &RichText)
    ensures
        final(out)@ == old(out)@ + markdown_of(t@),
    decreases t,
{
    broadcast use vstd::std_specs::vec::group_vec_axioms;

    match t {
        RichText::Sequence(items) => {
            let ghost start = out@;
            let ghost v = t@->Sequence_0;
            let mut i: usize = 0;
            while i < items.len()
                invariant
                    *t == RichText::Sequence(*items),
                    i <= items.len(),
                    v == t@->Sequence_0,
                    v.len() == items.len(),
                    forall|j: int| 0 <= j < items.len() ==> v[j] == (#[trigger] items[j])@,
                    out@ == start + markdown_of_items(v, i as int),
                decreases items.len() - i,
            {
                proof {
                    assert(decreases_to!(*t => (*t)->Sequence_0));
                    assert(decreases_to!(*items => items[i as int]));
                }
                push_markdown(out, &items[i]);
                i += 1;
                assert(out@ =~= start + markdown_of_items(v, i as int));
            }
        },
        RichText::Bold(x) => {
            push_str(out, "**");
            push_markdown(out, x);
            push_str(out, "**");
        },
        RichText::Italic(x) => {
            push_str(out, "_");
            push_markdown(out, x);
            push_str(out, "_");
        },
        RichText::Strikethrough(x) => {
            push_str(out, "~~");
            push_markdown(out, x);
            push_str(out, "~~");
        },
        RichText::Blockquote(x) => {
            push_str(out, "> ");
            let mut inner = String::new();
            push_markdown(&mut inner, x);
            push_quoted(out, &inner);
        },
        RichText::FixedWidth(s) => {
            push_str(out, "`");
            push_str(out, s.as_str());
            push_str(out, "`");
        },
        RichText::Hyperlink { text, link } => {
            push_str(out, "[");
            push_str(out, text.as_str());
            push_str(out, "](");
            push_str(out, link.as_str());
            push_str(out, ")");
        },
        RichText::Code { language, body } => {
            push_str(out, "```");
            match language {
                Some(l) => push_str(out, l.as_str()),
                None => {},
            }
            push_str(out, "\n");
            push_str(out, body.as_str());
            push_str(out, "```");
        },
        RichText::Plain(s) => push_str(out, s.as_str()),
    }
    proof {
        assert(old(out)@ + markdown_of(t@) =~= final(out)@) by {
            match t@ {
                Rich::Sequence(items) => {
                    assert(items.len() == (*t)->Sequence_0.len());
                },
                _ => {},
            }
        }
    }
}

/// The tree as inline-delimiter markdown.
pub fn to_markdown(t: &RichText) -> (r: String)
    ensures
        r@ == markdown_of(t@),
{
    let mut out = String::new();
    push_markdown(&mut out, t);
    out
}

} // verus!
