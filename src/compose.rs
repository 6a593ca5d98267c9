//! The texts the bridge composes around relayed content: author headers,
//! inline quotes of replied-to messages, reply markers and poll titles.

use vstd::prelude::*;
use crate::text::{chars_of, push_str};

verus! {

/// The Telegram HTML of a relayed message: the author in bold, marked as
/// forwarded where it was, then the content on the next line.
pub open spec fn relay_text(author: Seq<char>, content: Seq<char>, forwarded: bool) -> Seq<char> {
    "<b>"@ + author + "</b>"@ + (if forwarded {
        " (forwarded)"@
    } else {
        Seq::empty()
    }) + "\n"@ + content
}

/// Composes the Telegram HTML of a relayed message.
pub fn telegram_message_text(author: &str, content: &str, forwarded: bool) -> (r: String)
    ensures
        r@ == relay_text(author@, content@, forwarded),
{
    let mut out = String::new();
    push_str(&mut out, "<b>");
    push_str(&mut out, author);
    push_str(&mut out, "</b>");
    if forwarded {
        push_str(&mut out, " (forwarded)");
    }
    push_str(&mut out, "\n");
    push_str(&mut out, content);
    proof {
        if !forwarded {
            assert(out@ =~= relay_text(author@, content@, forwarded));
        }
    }
    out
}

/// A message whose replied-to message has no mirror: the replied-to author
/// and content in an expandable quote, then the message.
pub open spec fn quote_fallback(ref_author: Seq<char>, ref_content: Seq<char>, text: Seq<char>) -> Seq<char> {
    "<blockquote expandable><b>"@ + ref_author + "</b>\n"@ + ref_content + "</blockquote>\n"@ + text
}

/// Quotes the replied-to message inline, for a reply that cannot refer to it.
pub fn telegram_quote_fallback(ref_author: &str, ref_content: &str, text: &str) -> (r: String)
    ensures
        r@ == quote_fallback(ref_author@, ref_content@, text@),
{
    let mut out = String::new();
    push_str(&mut out, "<blockquote expandable><b>");
    push_str(&mut out, ref_author);
    push_str(&mut out, "</b>\n");
    push_str(&mut out, ref_content);
    push_str(&mut out, "</blockquote>\n");
    push_str(&mut out, text);
    out
}

/// The small-print line that marks a Discord message as a reply: `quoting`
/// or `replying to`, linked to the mirror where there is one, then the
/// replied-to author.
pub open spec fn reply_marker(quoting: bool, link: Option<Seq<char>>, ref_author: Seq<char>) -> Seq<char> {
    let verb = if quoting {
        "quoting"@
    } else {
        "replying to"@
    };
    let lead = match link {
        Some(l) => "["@ + verb + "]("@ + l + ")"@,
        None => verb,
    };
    "-# **"@ + lead + " "@ + ref_author + "**"@
}

/// Composes the reply marker of a relayed Discord message.
pub fn reply_suffix(quoting: bool, link: Option<&str>, ref_author: &str) -> (r: String)
    ensures
        r@ == reply_marker(
            quoting,
            match link {
                Some(l) => Some(l@),
                None => None,
            },
            ref_author@,
        ),
{
    let verb = if quoting {
        "quoting"
    } else {
        "replying to"
    };
    let mut out = String::new();
    push_str(&mut out, "-# **");
    match link {
        Some(l) => {
            push_str(&mut out, "[");
            push_str(&mut out, verb);
            push_str(&mut out, "](");
            push_str(&mut out, l);
            push_str(&mut out, ")");
        },
        None => push_str(&mut out, verb),
    }
    push_str(&mut out, " ");
    push_str(&mut out, ref_author);
    push_str(&mut out, "**");
    out
}

/// The title of a relayed poll.
pub open spec fn poll_title_of(quiz: bool, multiple: bool) -> Seq<char> {
    if quiz {
        "Quiz"@
    } else if multiple {
        "Poll (multiple)"@
    } else {
        "Poll (pick one)"@
    }
}

/// Titles a relayed poll: a quiz, or a poll with one or several answers.
pub fn poll_title(quiz: bool, multiple: bool) -> (r: &'static str)
    ensures
        r@ == poll_title_of(quiz, multiple),
{
    if quiz {
        "Quiz"
    } else if multiple {
        "Poll (multiple)"
    } else {
        "Poll (pick one)"
    }
}

/// Whether `s` holds `**` at `i`.
pub open spec fn pair_at(s: Seq<char>, i: int) -> bool {
    0 <= i && i + 1 < s.len() && s[i] == '*' && s[i + 1] == '*'
}

/// The first `**` of `s` at or after `from`.
pub open spec fn next_pair(s: Seq<char>, from: int) -> Option<int>
    decreases s.len() - from,
{
    if from < 0 || from + 1 >= s.len() {
        None
    } else if pair_at(s, from) {
        Some(from)
    } else {
        next_pair(s, from + 1)
    }
}

/// The author named in bold on the first line of a relayed message: the
/// text between its first `**` and the next one (or the end of the line);
/// `Unknown` where the line has no `**`.
pub open spec fn bold_author(line: Seq<char>) -> Seq<char> {
    match next_pair(line, 0) {
        None => "Unknown"@,
        Some(i) => match next_pair(line, i + 2) {
            Some(j) => line.subrange(i + 2, j),
            None => line.subrange(i + 2, line.len() as int),
        },
    }
}

fn find_pair(s: &Vec<char>, from: usize) -> (r: Option<usize>)
    requires
        from <= s.len(),
    ensures
        match next_pair(s@, from as int) {
            Some(i) => r is Some && r->0 as int == i,
            None => r is None,
        },
        r is Some ==> from <= r->0 && r->0 + 1 < s.len(),
{
    let mut i = from;
    while s.len() - i > 1
        invariant
            from <= i <= s.len(),
            next_pair(s@, from as int) == next_pair(s@, i as int),
        decreases s.len() - i,
    {
        if s[i] == '*' && s[i + 1] == '*' {
            return Some(i);
        }
        i += 1;
    }
    None
}

/// Reads the author off the first line of a message the bridge relayed.
pub fn bot_message_author(first_line: &str) -> (r: String)
    ensures
        r@ == bold_author(first_line@),
{
    let s = chars_of(first_line);
    match find_pair(&s, 0) {
        None => "Unknown".to_string(),
        Some(i) => {
            let end = match find_pair(&s, i + 2) {
                Some(j) => j,
                None => s.len(),
            };
            let mut out = String::new();
            let mut k = i + 2;
            while k < end
                invariant
                    i + 2 <= k <= end <= s.len(),
                    s@ == first_line@,
                    out@ == s@.subrange(i + 2, k as int),
                decreases end - k,
            {
                crate::text::push_char(&mut out, s[k]);
                k += 1;
                assert(out@ =~= s@.subrange(i + 2, k as int));
            }
            out
        },
    }
}

} // verus!
