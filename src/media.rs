//! Classification of attachments by their media type.

use vstd::prelude::*;
use crate::model::FileKind;
use crate::text::chars_of;

verus! {

/// How a Content-Type classifies an attachment: video (GIFs included),
/// image, audio, or any other document.
pub open spec fn kind_of_content_type(ct: Option<Seq<char>>) -> FileKind {
    match ct {
        None => FileKind::Document,
        Some(t) => if has_prefix(t, "video/"@) || t == "image/gif"@ {
            FileKind::Video
        } else if has_prefix(t, "image/"@) {
            FileKind::Image
        } else if has_prefix(t, "audio/"@) {
            FileKind::Audio
        } else {
            FileKind::Document
        },
    }
}

/// Whether `s` begins with `prefix`.
pub open spec fn has_prefix(s: Seq<char>, prefix: Seq<char>) -> bool {
    s.len() >= prefix.len() && s.take(prefix.len() as int) == prefix
}

fn starts_with(s: &Vec<char>, prefix: &str) -> (r: bool)
    ensures
        r == has_prefix(s@, prefix@),
{
    let p = chars_of(prefix);
    if s.len() < p.len() {
        return false;
    }
    let mut i: usize = 0;
    while i < p.len()
        invariant
            i <= p.len() <= s.len(),
            p@ == prefix@,
            s@.take(i as int) == p@.take(i as int),
        decreases p.len() - i,
    {
        if s[i] != p[i] {
            assert(s@.take(p.len() as int)[i as int] != p@[i as int]);
            return false;
        }
        i += 1;
        assert(s@.take(i as int) =~= p@.take(i as int));
    }
    assert(p@.take(i as int) =~= p@);
    true
}

fn equals(s: &Vec<char>, t: &str) -> (r: bool)
    ensures
        r == (s@ == t@),
{
    let p = chars_of(t);
    if s.len() != p.len() {
        return false;
    }
    let b = starts_with(s, t);
    assert(s@.take(s.len() as int) =~= s@);
    assert(b ==> s@ =~= t@);
    b
}

/// The kind of an attachment with the given Content-Type.
pub fn attachment_kind(content_type: Option<&str>) -> (r: FileKind)
    ensures
        r == kind_of_content_type(
            match content_type {
                Some(t) => Some(t@),
                None => None,
            },
        ),
{
    proof {
        reveal_strlit("video/");
        reveal_strlit("image/");
        reveal_strlit("audio/");
        reveal_strlit("image/gif");
    }
    match content_type {
        None => FileKind::Document,
        Some(t) => {
            let c = chars_of(t);
            if starts_with(&c, "video/") || equals(&c, "image/gif") {
                FileKind::Video
            } else if starts_with(&c, "image/") {
                FileKind::Image
            } else if starts_with(&c, "audio/") {
                FileKind::Audio
            } else {
                FileKind::Document
            }
        },
    }
}

} // verus!
