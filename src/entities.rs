//! Rich text as span-annotated plain text, the form one platform uses, and
//! the law that ties it to the inline-delimiter form of the other.

use vstd::prelude::*;
use crate::format::{
    close_at, closes, in_quote, open_at, opens, rendered_char, spliced, spliced_prefix,
    Entity, EntityKind,
};
use crate::model::{Rich, RichText};
use crate::text::{chars_of, push_str};
use crate::render::{markdown_of, markdown_of_items};

verus! {

/// The plain text of a tree.
pub open spec fn text_of(t: Rich) -> Seq<char>
    decreases t,
{
    match t {
        Rich::Sequence(items) => text_of_items(items, items.len() as int),
        Rich::Bold(x) => text_of(*x),
        Rich::Italic(x) => text_of(*x),
        Rich::Strikethrough(x) => text_of(*x),
        Rich::Blockquote(x) => text_of(*x),
        Rich::FixedWidth(s) => s,
        Rich::Hyperlink { text, .. } => text,
        Rich::Code { body, .. } => body,
        Rich::Plain(s) => s,
    }
}

/// The plain text of the first `k` items of a sequence.
pub open spec fn text_of_items(items: Seq<Rich>, k: int) -> Seq<char>
    decreases items, k,
{
    if k <= 0 || k > items.len() {
        Seq::empty()
    } else {
        text_of_items(items, k - 1) + text_of(items[k - 1])
    }
}

/// Trees that both markups express the same way: bold, italic,
/// strikethrough and inline code over plain text, in sequences, where every
/// node carries some text.
pub open spec fn spannable(t: Rich) -> bool
    decreases t,
{
    match t {
        Rich::Sequence(items) => items.len() > 0 && spannable_items(items, items.len() as int),
        Rich::Bold(x) => spannable(*x),
        Rich::Italic(x) => spannable(*x),
        Rich::Strikethrough(x) => spannable(*x),
        Rich::FixedWidth(s) => s.len() > 0,
        Rich::Plain(s) => s.len() > 0,
        _ => false,
    }
}

pub open spec fn spannable_items(items: Seq<Rich>, k: int) -> bool
    decreases items, k,
{
    if k <= 0 || k > items.len() {
        true
    } else {
        spannable_items(items, k - 1) && spannable(items[k - 1])
    }
}

/// The entity of kind `kind` over `len` characters at `off`.
pub open spec fn entity(kind: EntityKind, off: int, len: int) -> Entity {
    Entity { kind, start: off as usize, end: (off + len) as usize }
}

/// The entities of a tree whose text starts at `off`, outer ones first.
pub open spec fn spans_of(t: Rich, off: int) -> Seq<Entity>
    decreases t,
{
    match t {
        Rich::Sequence(items) => spans_of_items(items, items.len() as int, off),
        Rich::Bold(x) => seq![entity(EntityKind::Bold, off, text_of(*x).len() as int)] + spans_of(*x, off),
        Rich::Italic(x) => seq![entity(EntityKind::Italic, off, text_of(*x).len() as int)] + spans_of(*x, off),
        Rich::Strikethrough(x) => seq![entity(EntityKind::Strikethrough, off, text_of(*x).len() as int)]
            + spans_of(*x, off),
        Rich::FixedWidth(s) => seq![entity(EntityKind::Code, off, s.len() as int)],
        _ => Seq::empty(),
    }
}

/// The entities of the first `k` items of a sequence whose text starts at `off`.
pub open spec fn spans_of_items(items: Seq<Rich>, k: int, off: int) -> Seq<Entity>
    decreases items, k,
{
    if k <= 0 || k > items.len() {
        Seq::empty()
    } else {
        spans_of_items(items, k - 1, off) + spans_of(
            items[k - 1],
            off + text_of_items(items, k - 1).len(),
        )
    }
}

/// All closing delimiters of `xs` at `p`.
pub open spec fn cl(xs: Seq<Entity>, n: nat, p: int) -> Seq<char> {
    closes(xs, xs.len() as int, n, p)
}

/// All opening delimiters of `xs` at `p`.
pub open spec fn op(xs: Seq<Entity>, n: nat, p: int) -> Seq<char> {
    opens(xs, xs.len() as int, n, p)
}

/// The characters `a..q` of `txt`, with the delimiters of `xs` between them.
pub open spec fn body(txt: Seq<char>, xs: Seq<Entity>, n: nat, a: int, q: int) -> Seq<char>
    decreases q - a,
{
    if q <= a {
        Seq::empty()
    } else {
        body(txt, xs, n, a, q - 1) + (if q - 1 > a {
            cl(xs, n, q - 1) + op(xs, n, q - 1)
        } else {
            Seq::empty()
        }) + seq![txt[q - 1]]
    }
}

/// The characters `a..b` of `txt` with the delimiters of `xs`, those at `a`
/// and `b` included.
pub open spec fn window(txt: Seq<char>, xs: Seq<Entity>, n: nat, a: int, b: int) -> Seq<char> {
    op(xs, n, a) + body(txt, xs, n, a, b) + cl(xs, n, b)
}

/// Every entity of `xs` lies within `a..b` and is not empty.
pub open spec fn within(xs: Seq<Entity>, a: int, b: int) -> bool {
    forall|i: int| 0 <= i < xs.len() ==> a <= (#[trigger] xs[i]).start < xs[i].end <= b
}

proof fn lemma_concat(x1: Seq<Entity>, x2: Seq<Entity>, n: nat, p: int)
    ensures
        cl(x1 + x2, n, p) == cl(x2, n, p) + cl(x1, n, p),
        op(x1 + x2, n, p) == op(x1, n, p) + op(x2, n, p),
    decreases x2.len(),
{
    if x2.len() == 0 {
        assert(x1 + x2 =~= x1);
        assert(cl(x2, n, p) =~= Seq::<char>::empty());
        assert(op(x2, n, p) =~= Seq::<char>::empty());
        assert(cl(x1, n, p) == Seq::<char>::empty() + cl(x1, n, p));
        assert(op(x1, n, p) + Seq::<char>::empty() =~= op(x1, n, p));
    } else {
        let y = x2.drop_last();
        lemma_concat(x1, y, n, p);
        assert((x1 + x2).drop_last() =~= x1 + y);
        assert((x1 + x2).last() == x2.last());
        lemma_prefix_closes(x1 + x2, n, p);
        lemma_prefix_closes(x2, n, p);
        assert(cl(x1 + x2, n, p) =~= cl(x2, n, p) + cl(x1, n, p));
        assert(op(x1 + x2, n, p) =~= op(x1, n, p) + op(x2, n, p));
    }
}

proof fn lemma_prefix_closes(xs: Seq<Entity>, n: nat, p: int)
    requires
        xs.len() > 0,
    ensures
        cl(xs, n, p) == close_at(xs.last(), n, p) + cl(xs.drop_last(), n, p),
        op(xs, n, p) == op(xs.drop_last(), n, p) + open_at(xs.last(), n, p),
{
    lemma_closes_prefix(xs, xs.len() - 1, n, p);
}

proof fn lemma_closes_prefix(xs: Seq<Entity>, k: int, n: nat, p: int)
    requires
        0 <= k <= xs.len(),
    ensures
        closes(xs, k, n, p) == closes(xs.take(k), k, n, p),
        opens(xs, k, n, p) == opens(xs.take(k), k, n, p),
    decreases k,
{
    if k > 0 {
        lemma_closes_prefix(xs, k - 1, n, p);
        lemma_closes_prefix(xs.take(k), k - 1, n, p);
        assert(xs.take(k).take(k - 1) =~= xs.take(k - 1));
    }
}

proof fn lemma_quiet(xs: Seq<Entity>, n: nat, p: int)
    ensures
        (forall|i: int| 0 <= i < xs.len() ==> (#[trigger] xs[i]).end != p) ==> cl(xs, n, p) == Seq::<char>::empty(),
        (forall|i: int| 0 <= i < xs.len() ==> (#[trigger] xs[i]).start != p) ==> op(xs, n, p) == Seq::<char>::empty(),
    decreases xs.len(),
{
    if xs.len() > 0 {
        lemma_quiet(xs.drop_last(), n, p);
        lemma_prefix_closes(xs, n, p);
        if forall|i: int| 0 <= i < xs.len() ==> (#[trigger] xs[i]).end != p {
            assert forall|i: int| 0 <= i < xs.drop_last().len() implies (#[trigger] xs.drop_last()[i]).end != p by {
                assert(xs.drop_last()[i] == xs[i]);
            }
            assert(xs[xs.len() - 1].end != p);
            assert(cl(xs, n, p) =~= Seq::<char>::empty());
        }
        if forall|i: int| 0 <= i < xs.len() ==> (#[trigger] xs[i]).start != p {
            assert forall|i: int| 0 <= i < xs.drop_last().len() implies (#[trigger] xs.drop_last()[i]).start != p by {
                assert(xs.drop_last()[i] == xs[i]);
            }
            assert(xs[xs.len() - 1].start != p);
            assert(op(xs, n, p) =~= Seq::<char>::empty());
        }
    } else {
        assert(cl(xs, n, p) =~= Seq::<char>::empty());
        assert(op(xs, n, p) =~= Seq::<char>::empty());
    }
}

proof fn lemma_body_agree(txt: Seq<char>, xs: Seq<Entity>, ys: Seq<Entity>, n: nat, a: int, q: int)
    requires
        forall|p: int| a < p < q ==> cl(xs, n, p) == cl(ys, n, p) && op(xs, n, p) == op(ys, n, p),
    ensures
        body(txt, xs, n, a, q) == body(txt, ys, n, a, q),
    decreases q - a,
{
    if q > a {
        lemma_body_agree(txt, xs, ys, n, a, q - 1);
        if q - 1 > a {
            assert(cl(xs, n, q - 1) == cl(ys, n, q - 1));
            assert(op(xs, n, q - 1) == op(ys, n, q - 1));
        }
    }
}

proof fn lemma_body_split(txt: Seq<char>, xs: Seq<Entity>, n: nat, a: int, b: int, c: int)
    requires
        a < b <= c,
    ensures
        b < c ==> body(txt, xs, n, a, c) == body(txt, xs, n, a, b) + cl(xs, n, b) + op(xs, n, b) + body(
            txt,
            xs,
            n,
            b,
            c,
        ),
    decreases c - b,
{
    if b < c {
        if b < c - 1 {
            lemma_body_split(txt, xs, n, a, b, c - 1);
        } else {
            assert(body(txt, xs, n, b, c - 1) =~= Seq::<char>::empty());
        }
        assert(body(txt, xs, n, a, c) =~= body(txt, xs, n, a, b) + cl(xs, n, b) + op(xs, n, b) + body(
            txt,
            xs,
            n,
            b,
            c,
        ));
    }
}

proof fn lemma_body_plain(txt: Seq<char>, xs: Seq<Entity>, n: nat, a: int, q: int)
    requires
        0 <= a <= q <= txt.len(),
        forall|p: int| a < p < q ==> cl(xs, n, p) == Seq::<char>::empty() && op(xs, n, p) == Seq::<char>::empty(),
    ensures
        body(txt, xs, n, a, q) == txt.subrange(a, q),
    decreases q - a,
{
    if q > a {
        lemma_body_plain(txt, xs, n, a, q - 1);
        assert(body(txt, xs, n, a, q) =~= txt.subrange(a, q));
    } else {
        assert(txt.subrange(a, q) =~= Seq::<char>::empty());
    }
}

proof fn lemma_text_nonempty(t: Rich)
    requires
        spannable(t),
    ensures
        text_of(t).len() > 0,
    decreases t,
{
    match t {
        Rich::Sequence(items) => {
            lemma_items_text_nonempty(t, items.len() as int);
        },
        Rich::Bold(x) => lemma_text_nonempty(*x),
        Rich::Italic(x) => lemma_text_nonempty(*x),
        Rich::Strikethrough(x) => lemma_text_nonempty(*x),
        _ => {},
    }
}

proof fn lemma_items_text_nonempty(t: Rich, k: int)
    requires
        t is Sequence,
        1 <= k <= t->Sequence_0.len(),
        spannable_items(t->Sequence_0, k),
    ensures
        text_of_items(t->Sequence_0, k).len() > 0,
        forall|j: int| 0 <= j < k ==> spannable(#[trigger] t->Sequence_0[j]),
    decreases t, k,
{
    let items = t->Sequence_0;
    assert(decreases_to!(t => t->Sequence_0));
    assert(decreases_to!(t->Sequence_0 => t->Sequence_0[k - 1]));
    lemma_text_nonempty(items[k - 1]);
    if k > 1 {
        lemma_items_text_nonempty(t, k - 1);
    }
}

/// One more than the number of items of a sequence; 0 for other nodes.
pub open spec fn width(t: Rich) -> nat {
    match t {
        Rich::Sequence(items) => items.len() + 1,
        _ => 0,
    }
}

proof fn lemma_within(t: Rich, off: int)
    requires
        spannable(t),
        0 <= off,
        off + text_of(t).len() <= usize::MAX,
    ensures
        within(spans_of(t, off), off, off + text_of(t).len()),
        forall|i: int| 0 <= i < spans_of(t, off).len() ==> !((#[trigger] spans_of(t, off)[i]).kind is Blockquote)
            && crate::format::open_marker(spans_of(t, off)[i].kind) is Some,
    decreases t, width(t),
{
    lemma_text_nonempty(t);
    match t {
        Rich::Sequence(items) => {
            lemma_items_within(t, items.len() as int, off);
        },
        Rich::Bold(x) => {
            lemma_within(*x, off);
            lemma_wrap_within(EntityKind::Bold, *x, off);
        },
        Rich::Italic(x) => {
            lemma_within(*x, off);
            lemma_wrap_within(EntityKind::Italic, *x, off);
        },
        Rich::Strikethrough(x) => {
            lemma_within(*x, off);
            lemma_wrap_within(EntityKind::Strikethrough, *x, off);
        },
        _ => {},
    }
}

proof fn lemma_wrap_within(kind: EntityKind, x: Rich, off: int)
    requires
        spannable(x),
        kind is Bold || kind is Italic || kind is Strikethrough,
        0 <= off,
        off + text_of(x).len() <= usize::MAX,
        within(spans_of(x, off), off, off + text_of(x).len()),
        forall|i: int| 0 <= i < spans_of(x, off).len() ==> !((#[trigger] spans_of(x, off)[i]).kind is Blockquote)
            && crate::format::open_marker(spans_of(x, off)[i].kind) is Some,
    ensures
        ({
            let xs = seq![entity(kind, off, text_of(x).len() as int)] + spans_of(x, off);
            &&& within(xs, off, off + text_of(x).len())
            &&& forall|i: int| 0 <= i < xs.len() ==> !((#[trigger] xs[i]).kind is Blockquote)
                && crate::format::open_marker(xs[i].kind) is Some
        }),
{
    lemma_text_nonempty(x);
    let xs = seq![entity(kind, off, text_of(x).len() as int)] + spans_of(x, off);
    assert forall|i: int| 0 <= i < xs.len() implies off <= (#[trigger] xs[i]).start < xs[i].end <= off + text_of(x).len()
        && !(xs[i].kind is Blockquote) && crate::format::open_marker(xs[i].kind) is Some by {
        if i > 0 {
            assert(xs[i] == spans_of(x, off)[i - 1]);
        }
    }
}

proof fn lemma_items_within(t: Rich, k: int, off: int)
    requires
        t is Sequence,
        1 <= k <= t->Sequence_0.len(),
        spannable_items(t->Sequence_0, k),
        0 <= off,
        off + text_of_items(t->Sequence_0, k).len() <= usize::MAX,
    ensures
        within(spans_of_items(t->Sequence_0, k, off), off, off + text_of_items(t->Sequence_0, k).len()),
        forall|i: int| 0 <= i < spans_of_items(t->Sequence_0, k, off).len() ==> !((#[trigger] spans_of_items(
            t->Sequence_0,
            k,
            off,
        )[i]).kind is Blockquote) && crate::format::open_marker(spans_of_items(t->Sequence_0, k, off)[i].kind) is Some,
    decreases t, k,
{
    let items = t->Sequence_0;
    assert(decreases_to!(t => t->Sequence_0));
    assert(decreases_to!(t->Sequence_0 => t->Sequence_0[k - 1]));
    lemma_items_text_nonempty(t, k);
    let b = off + text_of_items(items, k - 1).len();
    lemma_within(items[k - 1], b);
    let x2 = spans_of(items[k - 1], b);
    let all = spans_of_items(items, k, off);
    if k > 1 {
        lemma_items_within(t, k - 1, off);
        let x1 = spans_of_items(items, k - 1, off);
        assert(all == x1 + x2);
        assert forall|i: int| 0 <= i < all.len() implies off <= (#[trigger] all[i]).start < all[i].end <= off
            + text_of_items(items, k).len() && !(all[i].kind is Blockquote) && crate::format::open_marker(all[i].kind) is Some by {
            if i < x1.len() {
                assert(all[i] == x1[i]);
            } else {
                assert(all[i] == x2[i - x1.len()]);
            }
        }
    } else {
        assert(spans_of_items(items, 0, off) =~= Seq::<Entity>::empty());
        assert(text_of_items(items, 0).len() == 0);
        assert(all =~= x2);
    }
}

proof fn lemma_single(b: Entity, n: nat, p: int)
    ensures
        cl(seq![b], n, p) == close_at(b, n, p),
        op(seq![b], n, p) == open_at(b, n, p),
{
    let xs = seq![b];
    assert(xs.drop_last() =~= Seq::<Entity>::empty());
    lemma_prefix_closes(xs, n, p);
    assert(cl(xs.drop_last(), n, p) =~= Seq::<char>::empty());
    assert(op(xs.drop_last(), n, p) =~= Seq::<char>::empty());
    assert(cl(xs, n, p) =~= close_at(b, n, p));
    assert(op(xs, n, p) =~= open_at(b, n, p));
}

proof fn lemma_wrapped(txt: Seq<char>, n: nat, kind: EntityKind, inner: Seq<Entity>, off: int, len: int)
    requires
        0 <= off,
        0 < len,
        off + len <= n <= usize::MAX,
        crate::format::open_marker(kind) is Some,
        within(inner, off, off + len),
    ensures
        window(txt, seq![entity(kind, off, len)] + inner, n, off, off + len) == crate::format::open_marker(
            kind,
        )->0 + window(txt, inner, n, off, off + len) + crate::format::close_marker(kind),
{
    let b = entity(kind, off, len);
    let xs = seq![b] + inner;
    let e = off + len;
    assert(b.start == off && b.end == e);
    assert forall|p: int| #![trigger cl(xs, n, p)] #![trigger op(xs, n, p)]
        cl(xs, n, p) == cl(inner, n, p) + close_at(b, n, p) && op(xs, n, p) == open_at(b, n, p) + op(
            inner,
            n,
            p,
        ) by {
        lemma_concat(seq![b], inner, n, p);
        lemma_single(b, n, p);
    }
    assert forall|p: int| off < p < e implies cl(xs, n, p) == cl(inner, n, p) && op(xs, n, p) == op(
        inner,
        n,
        p,
    ) by {
        assert(close_at(b, n, p) =~= Seq::<char>::empty());
        assert(open_at(b, n, p) =~= Seq::<char>::empty());
        assert(cl(inner, n, p) + Seq::<char>::empty() =~= cl(inner, n, p));
        assert(Seq::<char>::empty() + op(inner, n, p) =~= op(inner, n, p));
    }
    lemma_body_agree(txt, xs, inner, n, off, e);
    assert(open_at(b, n, off) =~= crate::format::open_marker(kind)->0);
    assert(close_at(b, n, e) == crate::format::close_marker(kind));
    assert(window(txt, xs, n, off, e) =~= crate::format::open_marker(kind)->0 + window(txt, inner, n, off, e)
        + crate::format::close_marker(kind));
}

proof fn lemma_window(txt: Seq<char>, n: nat, t: Rich, off: int)
    requires
        spannable(t),
        txt.len() == n,
        n <= usize::MAX,
        0 <= off,
        off + text_of(t).len() <= n,
        txt.subrange(off, off + text_of(t).len()) == text_of(t),
    ensures
        window(txt, spans_of(t, off), n, off, off + text_of(t).len()) == markdown_of(t),
    decreases t, width(t),
{
    lemma_text_nonempty(t);
    let e = off + text_of(t).len();
    match t {
        Rich::Sequence(items) => {
            lemma_items_window(txt, n, t, items.len() as int, off);
        },
        Rich::Bold(x) => {
            lemma_window(txt, n, *x, off);
            lemma_within(*x, off);
            lemma_wrapped(txt, n, EntityKind::Bold, spans_of(*x, off), off, text_of(*x).len() as int);
        },
        Rich::Italic(x) => {
            lemma_window(txt, n, *x, off);
            lemma_within(*x, off);
            lemma_wrapped(txt, n, EntityKind::Italic, spans_of(*x, off), off, text_of(*x).len() as int);
        },
        Rich::Strikethrough(x) => {
            lemma_window(txt, n, *x, off);
            lemma_within(*x, off);
            lemma_wrapped(txt, n, EntityKind::Strikethrough, spans_of(*x, off), off, text_of(*x).len() as int);
        },
        Rich::FixedWidth(s) => {
            let none = Seq::<Entity>::empty();
            assert(spans_of(t, off) =~= seq![entity(EntityKind::Code, off, s.len() as int)] + none);
            lemma_body_plain(txt, none, n, off, e);
            assert(cl(none, n, off) =~= Seq::<char>::empty());
            assert(op(none, n, off) =~= Seq::<char>::empty());
            assert(cl(none, n, e) =~= Seq::<char>::empty());
            lemma_wrapped(txt, n, EntityKind::Code, none, off, s.len() as int);
            assert(window(txt, none, n, off, e) =~= s);
        },
        Rich::Plain(s) => {
            let none = spans_of(t, off);
            assert(none =~= Seq::<Entity>::empty());
            lemma_body_plain(txt, none, n, off, e);
            assert(window(txt, none, n, off, e) =~= s);
        },
        _ => {},
    }
}

proof fn lemma_items_window(txt: Seq<char>, n: nat, t: Rich, k: int, off: int)
    requires
        t is Sequence,
        1 <= k <= t->Sequence_0.len(),
        spannable_items(t->Sequence_0, k),
        txt.len() == n,
        n <= usize::MAX,
        0 <= off,
        off + text_of_items(t->Sequence_0, k).len() <= n,
        txt.subrange(off, off + text_of_items(t->Sequence_0, k).len()) == text_of_items(t->Sequence_0, k),
    ensures
        window(txt, spans_of_items(t->Sequence_0, k, off), n, off, off + text_of_items(t->Sequence_0, k).len())
            == markdown_of_items(t->Sequence_0, k),
    decreases t, k,
{
    let items = t->Sequence_0;
    assert(decreases_to!(t => t->Sequence_0));
    assert(decreases_to!(t->Sequence_0 => t->Sequence_0[k - 1]));
    lemma_items_text_nonempty(t, k);
    let item = items[k - 1];
    let l1 = text_of_items(items, k - 1).len() as int;
    let b = off + l1;
    let c = off + text_of_items(items, k).len();
    assert(text_of_items(items, k) == text_of_items(items, k - 1) + text_of(item));
    let whole = txt.subrange(off, c);
    assert(txt.subrange(b, c) =~= whole.subrange(l1, c - off));
    assert(whole.subrange(l1, c - off) =~= text_of(item));
    lemma_text_nonempty(item);
    lemma_window(txt, n, item, b);
    lemma_within(item, b);
    let x2 = spans_of(item, b);
    if k == 1 {
        assert(spans_of_items(items, 0, off) =~= Seq::<Entity>::empty());
        assert(text_of_items(items, 0).len() == 0);
        assert(spans_of_items(items, 1, off) =~= x2);
        assert(markdown_of_items(items, 0) =~= Seq::<char>::empty());
        assert(markdown_of_items(items, 1) =~= markdown_of(item));
    } else {
        assert(txt.subrange(off, b) =~= whole.subrange(0, l1));
        assert(whole.subrange(0, l1) =~= text_of_items(items, k - 1));
        lemma_items_window(txt, n, t, k - 1, off);
        lemma_items_within(t, k - 1, off);
        lemma_items_text_nonempty(t, k - 1);
        let x1 = spans_of_items(items, k - 1, off);
        assert(spans_of_items(items, k, off) == x1 + x2);
        lemma_join_windows(txt, n, x1, x2, off, b, c);
    }
}

proof fn lemma_join_windows(txt: Seq<char>, n: nat, x1: Seq<Entity>, x2: Seq<Entity>, off: int, b: int, c: int)
    requires
        off < b < c,
        within(x1, off, b),
        within(x2, b, c),
    ensures
        window(txt, x1 + x2, n, off, c) == window(txt, x1, n, off, b) + window(txt, x2, n, b, c),
{
    let xs = x1 + x2;
    assert forall|p: int| #![trigger cl(xs, n, p)] #![trigger op(xs, n, p)]
        cl(xs, n, p) == cl(x2, n, p) + cl(x1, n, p) && op(xs, n, p) == op(x1, n, p) + op(x2, n, p) by {
        lemma_concat(x1, x2, n, p);
    }
    assert forall|p: int| off < p < b implies cl(xs, n, p) == cl(x1, n, p) && op(xs, n, p) == op(x1, n, p) by {
        lemma_quiet(x2, n, p);
        assert(Seq::<char>::empty() + cl(x1, n, p) =~= cl(x1, n, p));
        assert(op(x1, n, p) + Seq::<char>::empty() =~= op(x1, n, p));
    }
    assert forall|p: int| b < p < c implies cl(xs, n, p) == cl(x2, n, p) && op(xs, n, p) == op(x2, n, p) by {
        lemma_quiet(x1, n, p);
        assert(cl(x2, n, p) + Seq::<char>::empty() =~= cl(x2, n, p));
        assert(Seq::<char>::empty() + op(x2, n, p) =~= op(x2, n, p));
    }
    lemma_body_agree(txt, xs, x1, n, off, b);
    lemma_body_agree_from(txt, xs, x2, n, b, c);
    lemma_body_split(txt, xs, n, off, b, c);
    lemma_quiet(x2, n, b);
    lemma_quiet(x1, n, b);
    lemma_quiet(x2, n, off);
    lemma_quiet(x1, n, c);
    assert(cl(xs, n, b) =~= cl(x1, n, b));
    assert(op(xs, n, b) =~= op(x2, n, b));
    assert(op(xs, n, off) =~= op(x1, n, off));
    assert(cl(xs, n, c) =~= cl(x2, n, c));
    assert(window(txt, xs, n, off, c) =~= window(txt, x1, n, off, b) + window(txt, x2, n, b, c));
}

proof fn lemma_body_agree_from(txt: Seq<char>, xs: Seq<Entity>, ys: Seq<Entity>, n: nat, a: int, q: int)
    requires
        forall|p: int| a < p < q ==> cl(xs, n, p) == cl(ys, n, p) && op(xs, n, p) == op(ys, n, p),
    ensures
        body(txt, xs, n, a, q) == body(txt, ys, n, a, q),
{
    lemma_body_agree(txt, xs, ys, n, a, q);
}

proof fn lemma_spliced_prefix(txt: Seq<char>, xs: Seq<Entity>, q: int)
    requires
        1 <= q <= txt.len(),
        within(xs, 0, txt.len() as int),
        forall|i: int| 0 <= i < xs.len() ==> !((#[trigger] xs[i]).kind is Blockquote),
    ensures
        spliced_prefix(txt, xs, q) == op(xs, txt.len(), 0) + body(txt, xs, txt.len(), 0, q),
    decreases q,
{
    let n = txt.len();
    assert(!in_quote(xs, n, q - 1));
    assert(rendered_char(txt, xs, q - 1) == seq![txt[q - 1]]);
    if q == 1 {
        lemma_quiet(xs, n, 0);
        assert(spliced_prefix(txt, xs, 0) =~= Seq::<char>::empty());
        assert(body(txt, xs, n, 0, 0) =~= Seq::<char>::empty());
        assert(spliced_prefix(txt, xs, 1) =~= op(xs, n, 0) + body(txt, xs, n, 0, 1));
    } else {
        lemma_spliced_prefix(txt, xs, q - 1);
        assert(spliced_prefix(txt, xs, q) =~= op(xs, n, 0) + body(txt, xs, n, 0, q));
    }
}

/// Spans and inline delimiters say the same thing: for a tree of bold,
/// italic, strikethrough and inline code over plain text, splicing the
/// delimiters of its entities into its plain text gives exactly its
/// markdown. Encoding a tree for the span-annotated platform and
/// translating the result to the other platform therefore keeps every
/// construct and its nesting.
pub proof fn lemma_entities_match_markdown(t: Rich)
    requires
        spannable(t),
        text_of(t).len() <= usize::MAX,
    ensures
        spliced(text_of(t), spans_of(t, 0)) == markdown_of(t),
{
    let txt = text_of(t);
    let n = txt.len();
    let xs = spans_of(t, 0);
    lemma_text_nonempty(t);
    assert(txt.subrange(0, n as int) =~= txt);
    lemma_window(txt, n, t, 0);
    lemma_within(t, 0);
    lemma_spliced_prefix(txt, xs, n as int);
    lemma_quiet(xs, n, n as int);
    assert(spliced(txt, xs) =~= window(txt, xs, n, 0, n as int));
}

fn wrap_entity(
    kind: EntityKind,
    x: &RichText,
    text: &mut String,
    ents: &mut Vec<Entity>,
    off: usize,
) -> (end: usize)
    requires
        old(text)@.len() == off,
        off + text_of(x@).len() <= usize::MAX,
        kind is Bold || kind is Italic || kind is Strikethrough || kind is Blockquote,
    ensures
        final(text)@ == old(text)@ + text_of(x@),
        end == off + text_of(x@).len(),
        final(ents)@.len() >= old(ents)@.len(),
        spannable(x@) ==> final(ents)@ == old(ents)@ + seq![entity(kind, off as int, text_of(x@).len() as int)]
            + spans_of(x@, off as int),
    decreases x, 1nat,
{
    let idx = ents.len();
    ents.push(Entity { kind: kind.clone(), start: off, end: off });
    let ghost mid = ents@;
    let end = encode_into(x, text, ents, off);
    ents.set(idx, Entity { kind, start: off, end });
    proof {
        if spannable(x@) {
            assert(ents@ =~= old(ents)@ + seq![entity(kind, off as int, text_of(x@).len() as int)] + spans_of(
                x@,
                off as int,
            ));
        }
    }
    end
}

fn encode_into(t: &RichText, text: &mut String, ents: &mut Vec<Entity>, off: usize) -> (end: usize)
    requires
        old(text)@.len() == off,
        off + text_of(t@).len() <= usize::MAX,
    ensures
        final(text)@ == old(text)@ + text_of(t@),
        end == off + text_of(t@).len(),
        final(ents)@.len() >= old(ents)@.len(),
        spannable(t@) ==> final(ents)@ == old(ents)@ + spans_of(t@, off as int),
    decreases t, 0nat,
{
    broadcast use vstd::std_specs::vec::group_vec_axioms;

    match t {
        RichText::Sequence(items) => {
            let ghost v = t@->Sequence_0;
            let ghost text0 = text@;
            let ghost ents0 = ents@;
            let mut cur = off;
            let mut i: usize = 0;
            while i < items.len()
                invariant
                    *t == RichText::Sequence(*items),
                    i <= items.len(),
                    v == t@->Sequence_0,
                    v.len() == items.len(),
                    forall|j: int| 0 <= j < items.len() ==> v[j] == (#[trigger] items[j])@,
                    text@ == text0 + text_of_items(v, i as int),
                    text0.len() == off,
                    cur == off + text_of_items(v, i as int).len(),
                    ents@.len() >= ents0.len(),
                    off + text_of_items(v, v.len() as int).len() <= usize::MAX,
                    spannable_items(v, i as int) ==> ents@ == ents0 + spans_of_items(v, i as int, off as int),
                decreases items.len() - i,
            {
                proof {
                    assert(decreases_to!(*t => (*t)->Sequence_0));
                    assert(decreases_to!(*items => items[i as int]));
                    lemma_text_items_prefix(v, i + 1, v.len() as int);
                }
                let ghost before = ents@;
                cur = encode_into(&items[i], text, ents, cur);
                i += 1;
                assert(text@ =~= text0 + text_of_items(v, i as int));
                proof {
                    if spannable_items(v, i as int) {
                        assert(ents@ =~= ents0 + spans_of_items(v, i as int, off as int));
                    }
                }
            }
            proof {
                if spannable(t@) {
                    assert(spannable_items(v, v.len() as int));
                }
            }
            cur
        },
        RichText::Bold(x) => wrap_entity(EntityKind::Bold, x, text, ents, off),
        RichText::Italic(x) => wrap_entity(EntityKind::Italic, x, text, ents, off),
        RichText::Strikethrough(x) => wrap_entity(EntityKind::Strikethrough, x, text, ents, off),
        RichText::Blockquote(x) => wrap_entity(EntityKind::Blockquote, x, text, ents, off),
        RichText::FixedWidth(s) => {
            let len = chars_of(s.as_str()).len();
            push_str(text, s.as_str());
            ents.push(Entity { kind: EntityKind::Code, start: off, end: off + len });
            off + len
        },
        RichText::Hyperlink { text: shown, link } => {
            let len = chars_of(shown.as_str()).len();
            push_str(text, shown.as_str());
            ents.push(Entity { kind: EntityKind::TextLink { url: link.clone() }, start: off, end: off + len });
            off + len
        },
        RichText::Code { language, body } => {
            let len = chars_of(body.as_str()).len();
            push_str(text, body.as_str());
            let language = crate::model::copy_opt_string(language);
            ents.push(Entity { kind: EntityKind::Pre { language }, start: off, end: off + len });
            off + len
        },
        RichText::Plain(s) => {
            let len = chars_of(s.as_str()).len();
            push_str(text, s.as_str());
            off + len
        },
    }
}

proof fn lemma_text_items_prefix(items: Seq<Rich>, j: int, k: int)
    requires
        0 <= j <= k <= items.len(),
    ensures
        text_of_items(items, j).len() <= text_of_items(items, k).len(),
    decreases k - j,
{
    if j < k {
        lemma_text_items_prefix(items, j, k - 1);
    }
}

/// A tree as span-annotated plain text: its text, and an entity for each
/// style, outer ones first. For trees that both markups express alike the
/// entities are exactly [`spans_of`], so translating them back gives the
/// tree's markdown.
pub fn to_telegram_entities(t: &RichText) -> (r: (String, Vec<Entity>))
    requires
        text_of(t@).len() <= usize::MAX,
    ensures
        r.0@ == text_of(t@),
        spannable(t@) ==> r.1@ == spans_of(t@, 0),
        spannable(t@) ==> spliced(r.0@, r.1@) == markdown_of(t@),
{
    let mut text = String::new();
    let mut ents: Vec<Entity> = Vec::new();
    encode_into(t, &mut text, &mut ents, 0);
    assert(text@ =~= text_of(t@));
    proof {
        if spannable(t@) {
            assert(ents@ =~= spans_of(t@, 0));
            lemma_entities_match_markdown(t@);
        }
    }
    (text, ents)
}

} // verus!
