//! The reaction summary that the bridge keeps as a message on each platform:
//! a header line, then one line per user with the emojis they reacted with.

use vstd::prelude::*;
use crate::text::{chars_of, push_char, push_str};

verus! {

/// Users and the emojis each reacted with, in order of first appearance;
/// no user appears twice.
pub type ReactionTable = Vec<(String, Vec<String>)>;

/// A reaction table as a value.
pub type TableView = Seq<(Seq<char>, Seq<Seq<char>>)>;

pub open spec fn strings_view(v: Seq<String>) -> Seq<Seq<char>> {
    v.map_values(|s: String| s@)
}

pub open spec fn table_view(t: Seq<(String, Vec<String>)>) -> TableView {
    t.map_values(|e: (String, Vec<String>)| (e.0@, strings_view(e.1@)))
}

/// Unicode's White_Space characters.
pub open spec fn is_space(c: char) -> bool {
    ('\u{9}' <= c && c <= '\u{d}') || c == ' ' || c == '\u{85}' || c == '\u{a0}' || c == '\u{1680}'
        || ('\u{2000}' <= c && c <= '\u{200a}') || c == '\u{2028}' || c == '\u{2029}' || c
        == '\u{202f}' || c == '\u{205f}' || c == '\u{3000}'
}

/// Which characters a trim removes.
#[derive(Clone, Copy, Debug, PartialEq, Eq, Structural)]
pub enum TrimSet {
    /// White space.
    Space,
    /// White space and the characters of Telegram's bold tags.
    HtmlBold,
    /// White space and Discord's emphasis delimiters.
    MarkdownBold,
}

pub open spec fn trims(set: TrimSet, c: char) -> bool {
    is_space(c) || match set {
        TrimSet::Space => false,
        TrimSet::HtmlBold => c == '<' || c == '>' || c == 'b' || c == '/',
        TrimSet::MarkdownBold => c == '*' || c == '_',
    }
}

pub(crate) fn trims_exec(set: TrimSet, c: char) -> (r: bool)
    ensures
        r == trims(set, c),
{
    let space = ('\u{9}' <= c && c <= '\u{d}') || c == ' ' || c == '\u{85}' || c == '\u{a0}' || c
        == '\u{1680}' || ('\u{2000}' <= c && c <= '\u{200a}') || c == '\u{2028}' || c == '\u{2029}'
        || c == '\u{202f}' || c == '\u{205f}' || c == '\u{3000}';
    space || match set {
        TrimSet::Space => false,
        TrimSet::HtmlBold => c == '<' || c == '>' || c == 'b' || c == '/',
        TrimSet::MarkdownBold => c == '*' || c == '_',
    }
}

pub open spec fn trim_end(s: Seq<char>, set: TrimSet) -> Seq<char>
    decreases s.len(),
{
    if s.len() > 0 && trims(set, s.last()) {
        trim_end(s.drop_last(), set)
    } else {
        s
    }
}

pub open spec fn trim_start(s: Seq<char>, set: TrimSet) -> Seq<char>
    decreases s.len(),
{
    if s.len() > 0 && trims(set, s[0]) {
        trim_start(s.drop_first(), set)
    } else {
        s
    }
}

/// `s` without the characters of `set` at either end.
pub open spec fn trim(s: Seq<char>, set: TrimSet) -> Seq<char> {
    trim_start(trim_end(s, set), set)
}

/// The pieces of `s` between occurrences of `c`; as many pieces as
/// occurrences plus one.
pub open spec fn split_on(s: Seq<char>, c: char) -> Seq<Seq<char>>
    decreases s.len(),
{
    if s.len() == 0 {
        seq![Seq::empty()]
    } else {
        let p = split_on(s.drop_last(), c);
        if s.last() == c {
            p.push(Seq::empty())
        } else {
            p.update(p.len() - 1, p.last().push(s.last()))
        }
    }
}

/// `s` without one trailing carriage return.
pub open spec fn strip_cr(s: Seq<char>) -> Seq<char> {
    if s.len() > 0 && s.last() == '\r' {
        s.drop_last()
    } else {
        s
    }
}

/// Each of `ls` without a trailing carriage return.
pub open spec fn strip_all(ls: Seq<Seq<char>>) -> Seq<Seq<char>> {
    ls.map_values(|l: Seq<char>| strip_cr(l))
}

/// Each of `ls` trimmed of white space.
pub open spec fn trim_all(ls: Seq<Seq<char>>) -> Seq<Seq<char>> {
    ls.map_values(|e: Seq<char>| trim(e, TrimSet::Space))
}

/// The lines of `s`: split at line feeds, each terminated line without a
/// carriage return before its line feed, and no empty line after a final
/// line feed.
pub open spec fn lines_of(s: Seq<char>) -> Seq<Seq<char>> {
    if s.len() == 0 {
        Seq::empty()
    } else {
        let p = split_on(s, '\n');
        let done = strip_all(p.drop_last());
        if s.last() == '\n' {
            done
        } else {
            done.push(p.last())
        }
    }
}

/// The index of the first `c` in `s`.
pub open spec fn first_index(s: Seq<char>, c: char) -> Option<int>
    decreases s.len(),
{
    if s.len() == 0 {
        None
    } else {
        match first_index(s.drop_last(), c) {
            Some(i) => Some(i),
            None => if s.last() == c {
                Some(s.len() - 1)
            } else {
                None
            },
        }
    }
}

/// The entry that one line of a summary stands for: the user before the
/// first colon, trimmed of `set`, and the comma-separated emojis after it,
/// each trimmed of white space.
pub open spec fn line_entry(line: Seq<char>, set: TrimSet) -> Option<(Seq<char>, Seq<Seq<char>>)> {
    match first_index(line, ':') {
        None => None,
        Some(i) => Some(
            (
                trim(line.take(i), set),
                trim_all(split_on(line.skip(i + 1), ',')),
            ),
        ),
    }
}

/// `t` with `user` reacting with `emojis`: a user already there keeps their
/// place and takes the new emojis.
pub open spec fn table_insert(t: TableView, user: Seq<char>, emojis: Seq<Seq<char>>) -> TableView {
    if exists|i: int| 0 <= i < t.len() && (#[trigger] t[i]).0 == user {
        let i = choose|i: int| 0 <= i < t.len() && (#[trigger] t[i]).0 == user;
        t.update(i, (user, emojis))
    } else {
        t.push((user, emojis))
    }
}

/// The table that the given summary lines stand for.
pub open spec fn table_of_lines(ls: Seq<Seq<char>>, set: TrimSet) -> TableView
    decreases ls.len(),
{
    if ls.len() == 0 {
        Seq::empty()
    } else {
        let t = table_of_lines(ls.drop_last(), set);
        match line_entry(ls.last(), set) {
            Some((u, e)) => table_insert(t, u, e),
            None => t,
        }
    }
}

/// The table that a summary text stands for: its lines after the header.
pub open spec fn parse_summary(text: Seq<char>, set: TrimSet) -> TableView {
    let ls = lines_of(text);
    if ls.len() == 0 {
        Seq::empty()
    } else {
        table_of_lines(ls.drop_first(), set)
    }
}

/// No user appears twice.
pub open spec fn users_unique(t: TableView) -> bool {
    forall|i: int, j: int| 0 <= i < j < t.len() ==> (#[trigger] t[i]).0 != (#[trigger] t[j]).0
}

fn string_of(chars: &[char]) -> (r: String)
    ensures
        r@ == chars@,
{
    let mut out = String::new();
    let mut i: usize = 0;
    while i < chars.len()
        invariant
            i <= chars@.len(),
            out@ == chars@.take(i as int),
        decreases chars@.len() - i,
    {
        push_char(&mut out, chars[i]);
        i += 1;
        assert(out@ =~= chars@.take(i as int));
    }
    assert(chars@.take(i as int) =~= chars@);
    out
}

/// The values of a list of character vectors.
pub open spec fn char_views(v: Seq<Vec<char>>) -> Seq<Seq<char>> {
    v.map_values(|x: Vec<char>| x@)
}

fn split_chars(s: &Vec<char>, c: char) -> (r: Vec<Vec<char>>)
    ensures
        char_views(r@) == split_on(s@, c),
{
    let mut done: Vec<Vec<char>> = Vec::new();
    let mut cur: Vec<char> = Vec::new();
    let mut i: usize = 0;
    while i < s.len()
        invariant
            i <= s.len(),
            char_views(done@).push(cur@) == split_on(s@.take(i as int), c),
        decreases s.len() - i,
    {
        assert(s@.take(i + 1).drop_last() =~= s@.take(i as int));
        let ghost before = char_views(done@).push(cur@);
        if s[i] == c {
            done.push(cur);
            cur = Vec::new();
            assert(char_views(done@).push(cur@) =~= before.push(Seq::empty()));
        } else {
            cur.push(s[i]);
            assert(char_views(done@).push(cur@) =~= before.update(
                before.len() - 1,
                before.last().push(s[i as int]),
            ));
        }
        i += 1;
    }
    assert(s@.take(i as int) =~= s@);
    done.push(cur);
    assert(char_views(done@) =~= split_on(s@, c));
    done
}

fn trimmed(s: &[char], set: TrimSet) -> (r: Vec<char>)
    ensures
        r@ == trim(s@, set),
{
    let mut hi: usize = s.len();
    assert(s@.take(s@.len() as int) =~= s@);
    while hi > 0 && trims_exec(set, s[hi - 1])
        invariant
            hi <= s@.len(),
            trim_end(s@, set) == trim_end(s@.take(hi as int), set),
        decreases hi,
    {
        assert(s@.take(hi as int).drop_last() =~= s@.take(hi - 1));
        hi -= 1;
    }
    assert(s@.take(s@.len() as int) =~= s@);
    let mut lo: usize = 0;
    while lo < hi && trims_exec(set, s[lo])
        invariant
            lo <= hi <= s@.len(),
            trim_end(s@, set) == s@.take(hi as int),
            trim(s@, set) == trim_start(s@.subrange(lo as int, hi as int), set),
        decreases hi - lo,
    {
        assert(s@.subrange(lo as int, hi as int).drop_first() =~= s@.subrange(lo + 1, hi as int));
        lo += 1;
    }
    let mut out: Vec<char> = Vec::new();
    let mut k: usize = lo;
    while k < hi
        invariant
            lo <= k <= hi <= s@.len(),
            out@ == s@.subrange(lo as int, k as int),
        decreases hi - k,
    {
        out.push(s[k]);
        k += 1;
        assert(out@ =~= s@.subrange(lo as int, k as int));
    }
    out
}

fn sub_chars(s: &Vec<char>, lo: usize, hi: usize) -> (r: Vec<char>)
    requires
        lo <= hi <= s.len(),
    ensures
        r@ == s@.subrange(lo as int, hi as int),
{
    let mut out: Vec<char> = Vec::new();
    let mut k: usize = lo;
    while k < hi
        invariant
            lo <= k <= hi <= s.len(),
            out@ == s@.subrange(lo as int, k as int),
        decreases hi - k,
    {
        out.push(s[k]);
        k += 1;
        assert(out@ =~= s@.subrange(lo as int, k as int));
    }
    out
}

proof fn lemma_split_nonempty(s: Seq<char>, c: char)
    ensures
        split_on(s, c).len() >= 1,
    decreases s.len(),
{
    if s.len() > 0 {
        lemma_split_nonempty(s.drop_last(), c);
    }
}

fn lines_chars(s: &Vec<char>) -> (r: Vec<Vec<char>>)
    ensures
        char_views(r@) == lines_of(s@),
{
    let mut out: Vec<Vec<char>> = Vec::new();
    if s.len() == 0 {
        assert(char_views(out@) =~= lines_of(s@));
        return out;
    }
    let pieces = split_chars(s, '\n');
    let ghost pv = char_views(pieces@);
    proof {
        lemma_split_nonempty(s@, '\n');
    }
    let mut k: usize = 0;
    while k + 1 < pieces.len()
        invariant
            pv == char_views(pieces@),
            pv == split_on(s@, '\n'),
            pv.len() >= 1,
            k + 1 <= pieces.len(),
            char_views(out@) == strip_all(pv.drop_last().take(k as int)),
        decreases pieces.len() - k,
    {
        let piece = &pieces[k];
        let n = piece.len();
        let line = if n > 0 && piece[n - 1] == '\r' {
            sub_chars(piece, 0, n - 1)
        } else {
            sub_chars(piece, 0, n)
        };
        proof {
            assert(pv[k as int] == piece@);
            assert(piece@.subrange(0, n as int) =~= piece@);
            if n > 0 {
                assert(piece@.subrange(0, n - 1) =~= piece@.drop_last());
            }
            assert(line@ == strip_cr(pv[k as int]));
            assert(pv.drop_last().take(k + 1) =~= pv.drop_last().take(k as int).push(pv[k as int]));
        }
        let ghost prev = out@;
        let ghost lv = line@;
        out.push(line);
        assert(out@ == prev.push(line));
        assert(char_views(out@) =~= char_views(prev).push(lv));
        k += 1;
        assert(char_views(out@) =~= strip_all(pv.drop_last().take(k as int)));
    }
    assert(pv.drop_last().take(k as int) =~= pv.drop_last());
    if s[s.len() - 1] != '\n' {
        let last = sub_chars(&pieces[k], 0, pieces[k].len());
        proof {
            assert(pv[k as int] == pieces[k as int]@);
            assert(pieces[k as int]@.subrange(0, pieces[k as int]@.len() as int) =~= pieces[k as int]@);
        }
        out.push(last);
    }
    assert(char_views(out@) =~= lines_of(s@));
    out
}

proof fn lemma_first_index_extends(s: Seq<char>, c: char, j: int)
    requires
        0 <= j <= s.len(),
        first_index(s.take(j), c) is Some,
    ensures
        first_index(s, c) == first_index(s.take(j), c),
    decreases s.len() - j,
{
    if j < s.len() {
        assert(s.take(j + 1).drop_last() =~= s.take(j));
        lemma_first_index_extends(s, c, j + 1);
    } else {
        assert(s.take(j) =~= s);
    }
}

fn find_char(s: &Vec<char>, c: char) -> (r: Option<usize>)
    ensures
        match first_index(s@, c) {
            Some(i) => r is Some && r->0 as int == i,
            None => r is None,
        },
        r is Some ==> (r->0 as int) < s.len(),
{
    let mut i: usize = 0;
    while i < s.len()
        invariant
            i <= s.len(),
            first_index(s@.take(i as int), c) is None,
        decreases s.len() - i,
    {
        assert(s@.take(i + 1).drop_last() =~= s@.take(i as int));
        if s[i] == c {
            proof {
                lemma_first_index_extends(s@, c, i + 1);
            }
            return Some(i);
        }
        i += 1;
    }
    assert(s@.take(i as int) =~= s@);
    None
}

fn line_entry_exec(line: &Vec<char>, set: TrimSet) -> (r: Option<(String, Vec<String>)>)
    ensures
        match line_entry(line@, set) {
            Some((u, e)) => match r {
                Some((ru, re)) => ru@ == u && strings_view(re@) == e,
                None => false,
            },
            None => r is None,
        },
{
    match find_char(line, ':') {
        None => None,
        Some(i) => {
            let head = sub_chars(line, 0, i);
            let user = string_of(trimmed(head.as_slice(), set).as_slice());
            let rest = sub_chars(line, i + 1, line.len());
            let parts = split_chars(&rest, ',');
            let ghost pv = char_views(parts@);
            let mut emojis: Vec<String> = Vec::new();
            let mut k: usize = 0;
            while k < parts.len()
                invariant
                    k <= parts.len(),
                    pv == char_views(parts@),
                    strings_view(emojis@) == trim_all(pv.take(k as int)),
                decreases parts.len() - k,
            {
                let e = string_of(trimmed(parts[k].as_slice(), TrimSet::Space).as_slice());
                proof {
                    assert(pv[k as int] == parts[k as int]@);
                    assert(pv.take(k + 1) =~= pv.take(k as int).push(pv[k as int]));
                }
                let ghost prev = emojis@;
                let ghost ev = e@;
                emojis.push(e);
                assert(emojis@ == prev.push(e));
                assert(strings_view(emojis@) =~= strings_view(prev).push(ev));
                assert(ev == trim(pv[k as int], TrimSet::Space));
                k += 1;
                assert(strings_view(emojis@) =~= trim_all(pv.take(k as int)));
            }
            proof {
                assert(pv.take(k as int) =~= pv);
                assert(head@ =~= line@.take(i as int));
                assert(rest@ =~= line@.skip(i + 1));
            }
            Some((user, emojis))
        },
    }
}

fn insert_entry(t: &mut ReactionTable, user: String, emojis: Vec<String>)
    requires
        users_unique(table_view(old(t)@)),
    ensures
        users_unique(table_view(final(t)@)),
        table_view(final(t)@) == table_insert(table_view(old(t)@), user@, strings_view(emojis@)),
{
    let ghost tv = table_view(t@);
    let mut i: usize = 0;
    while i < t.len()
        invariant
            i <= t.len(),
            tv == table_view(t@),
            t@ == old(t)@,
            users_unique(tv),
            forall|j: int| 0 <= j < i ==> (#[trigger] tv[j]).0 != user@,
        decreases t.len() - i,
    {
        if t[i].0 == user {
            proof {
                assert(tv[i as int].0 == user@);
                let c = choose|c: int| 0 <= c < tv.len() && (#[trigger] tv[c]).0 == user@;
                if c != i {
                    if c < i {
                        assert(tv[c].0 != tv[i as int].0);
                    } else {
                        assert(tv[i as int].0 != tv[c].0);
                    }
                }
            }
            let ghost u = user@;
            let ghost ev = strings_view(emojis@);
            t.set(i, (user, emojis));
            proof {
                assert(table_view(t@) =~= tv.update(i as int, (u, ev)));
                assert(table_insert(tv, u, ev) == tv.update(i as int, (u, ev)));
                assert forall|a: int, b: int| 0 <= a < b < table_view(t@).len() implies (#[trigger] table_view(t@)[a]).0
                    != (#[trigger] table_view(t@)[b]).0 by {
                    assert(tv[a].0 != tv[b].0);
                }
            }
            return;
        }
        assert(tv[i as int].0 == t[i as int].0@);
        i += 1;
    }
    let ghost u = user@;
    t.push((user, emojis));
    proof {
        assert(table_view(t@) =~= tv.push((u, strings_view(emojis@))));
        assert(!exists|c: int| 0 <= c < tv.len() && (#[trigger] tv[c]).0 == u);
    }
}

fn parse_summary_exec(text: &str, set: TrimSet) -> (r: ReactionTable)
    ensures
        table_view(r@) == parse_summary(text@, set),
        users_unique(table_view(r@)),
{
    let chars = chars_of(text);
    let ls = lines_chars(&chars);
    let ghost lv = char_views(ls@);
    let mut table: ReactionTable = Vec::new();
    if ls.len() == 0 {
        assert(table_view(table@) =~= Seq::<(Seq<char>, Seq<Seq<char>>)>::empty());
        return table;
    }
    assert(table_view(table@) =~= table_of_lines(lv.subrange(1, 1), set));
    let mut k: usize = 1;
    while k < ls.len()
        invariant
            1 <= k <= ls.len(),
            lv == char_views(ls@),
            lv == lines_of(text@),
            table_view(table@) == table_of_lines(lv.subrange(1, k as int), set),
            users_unique(table_view(table@)),
        decreases ls.len() - k,
    {
        assert(lv.subrange(1, k + 1).drop_last() =~= lv.subrange(1, k as int));
        assert(lv[k as int] == ls[k as int]@);
        match line_entry_exec(&ls[k], set) {
            Some((user, emojis)) => insert_entry(&mut table, user, emojis),
            None => {},
        }
        k += 1;
    }
    assert(lv.subrange(1, k as int) =~= lv.drop_first());
    table
}

/// The users and emojis of a Telegram reaction summary: the lines after the
/// header, each `user: emoji, emoji`, with the bold tags around the user
/// dropped. Lines without a colon are skipped; a user named twice keeps the
/// later emojis.
pub fn parse_telegram_reaction_message(text: &str) -> (r: ReactionTable)
    ensures
        table_view(r@) == parse_summary(text@, TrimSet::HtmlBold),
        users_unique(table_view(r@)),
{
    parse_summary_exec(text, TrimSet::HtmlBold)
}

/// The users and emojis of a Discord reaction summary, read as for Telegram
/// with markdown emphasis around the user dropped.
pub fn parse_discord_reaction_message(text: &str) -> (r: ReactionTable)
    ensures
        table_view(r@) == parse_summary(text@, TrimSet::MarkdownBold),
        users_unique(table_view(r@)),
{
    parse_summary_exec(text, TrimSet::MarkdownBold)
}

/// The items of `v` between copies of `sep`.
pub open spec fn join(v: Seq<Seq<char>>, sep: Seq<char>) -> Seq<char>
    decreases v.len(),
{
    if v.len() == 0 {
        Seq::empty()
    } else if v.len() == 1 {
        v[0]
    } else {
        join(v.drop_last(), sep) + sep + v.last()
    }
}

/// The summary lines of the first `k` entries, each after a line feed;
/// users without emojis have no line.
pub open spec fn summary_lines(t: TableView, k: int, open: Seq<char>, close: Seq<char>) -> Seq<char>
    decreases k,
{
    if k <= 0 {
        Seq::empty()
    } else {
        summary_lines(t, k - 1, open, close) + if t[k - 1].1.len() == 0 {
            Seq::empty()
        } else {
            "\n"@ + open + t[k - 1].0 + close + ": "@ + join(t[k - 1].1, ", "@)
        }
    }
}

/// A reaction summary: the header, then a line per user with emojis.
pub open spec fn summary_text(t: TableView, header: Seq<char>, open: Seq<char>, close: Seq<char>) -> Seq<char> {
    header + summary_lines(t, t.len() as int, open, close)
}

fn push_joined(out: &mut String, v: &Vec<String>, sep: &str)
    ensures
        final(out)@ == old(out)@ + join(strings_view(v@), sep@),
{
    let ghost start = out@;
    let ghost sv = strings_view(v@);
    let mut i: usize = 0;
    while i < v.len()
        invariant
            i <= v.len(),
            sv == strings_view(v@),
            out@ == start + join(sv.take(i as int), sep@),
        decreases v.len() - i,
    {
        assert(sv.take(i + 1).drop_last() =~= sv.take(i as int));
        if i > 0 {
            push_str(out, sep);
        }
        push_str(out, v[i].as_str());
        proof {
            assert(sv[i as int] == v[i as int]@);
            if i == 0 {
                assert(sv.take(1) =~= seq![sv[0]]);
            }
        }
        i += 1;
        assert(out@ =~= start + join(sv.take(i as int), sep@));
    }
    assert(sv.take(i as int) =~= sv);
}

fn summary_exec(t: &ReactionTable, header: &str, open: &str, close: &str) -> (r: String)
    ensures
        r@ == summary_text(table_view(t@), header@, open@, close@),
{
    let ghost tv = table_view(t@);
    let mut out = String::new();
    push_str(&mut out, header);
    let mut i: usize = 0;
    while i < t.len()
        invariant
            i <= t.len(),
            tv == table_view(t@),
            out@ == header@ + summary_lines(tv, i as int, open@, close@),
        decreases t.len() - i,
    {
        let (user, emojis) = &t[i];
        assert(tv[i as int] == (user@, strings_view(emojis@)));
        if emojis.len() > 0 {
            push_str(&mut out, "\n");
            push_str(&mut out, open);
            push_str(&mut out, user.as_str());
            push_str(&mut out, close);
            push_str(&mut out, ": ");
            push_joined(&mut out, emojis, ", ");
        }
        i += 1;
        assert(out@ =~= header@ + summary_lines(tv, i as int, open@, close@));
    }
    out
}

/// The Telegram reaction summary of a table, in HTML.
pub fn format_telegram_reaction_message(reactions: &ReactionTable) -> (r: String)
    ensures
        r@ == summary_text(table_view(reactions@), "<b>Reactions</b>"@, "<b>"@, "</b>"@),
{
    summary_exec(reactions, "<b>Reactions</b>", "<b>", "</b>")
}

/// The Discord reaction summary of a table, in markdown.
pub fn format_discord_reaction_message(reactions: &ReactionTable) -> (r: String)
    ensures
        r@ == summary_text(table_view(reactions@), "**Reactions**"@, "**"@, "**"@),
{
    summary_exec(reactions, "**Reactions**", "**", "**")
}

} // verus!
