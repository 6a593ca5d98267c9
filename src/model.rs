//! The platform-neutral message model that every portal produces and consumes.

use vstd::prelude::*;

verus! {

/// Formatted message content, independent of any platform's markup.
#[derive(Eq, PartialEq, Debug)]
pub enum RichText {
    Sequence(Vec<RichText>),
    Bold(Box<RichText>),
    Italic(Box<RichText>),
    Strikethrough(Box<RichText>),
    Blockquote(Box<RichText>),
    FixedWidth(String),
    Hyperlink { text: String, link: String },
    Code { language: Option<String>, body: String },
    Plain(String),
}

/// The mathematical value of a [`RichText`] tree.
pub enum Rich {
    Sequence(Seq<Rich>),
    Bold(Box<Rich>),
    Italic(Box<Rich>),
    Strikethrough(Box<Rich>),
    Blockquote(Box<Rich>),
    FixedWidth(Seq<char>),
    Hyperlink { text: Seq<char>, link: Seq<char> },
    Code { language: Option<Seq<char>>, body: Seq<char> },
    Plain(Seq<char>),
}

pub open spec fn opt_str_view(o: Option<String>) -> Option<Seq<char>> {
    match o {
        Some(s) => Some(s@),
        None => None,
    }
}

/// The value of one node, its children taken by their values.
pub open spec fn rich_of(t: RichText) -> Rich
    decreases t,
{
    match t {
        RichText::Sequence(items) => Rich::Sequence(
            Seq::new(
                items.len() as nat,
                |i: int|
                    if 0 <= i < items.len() {
                        rich_of(items[i])
                    } else {
                        Rich::Plain(Seq::empty())
                    },
            ),
        ),
        RichText::Bold(x) => Rich::Bold(Box::new(rich_of(*x))),
        RichText::Italic(x) => Rich::Italic(Box::new(rich_of(*x))),
        RichText::Strikethrough(x) => Rich::Strikethrough(Box::new(rich_of(*x))),
        RichText::Blockquote(x) => Rich::Blockquote(Box::new(rich_of(*x))),
        RichText::FixedWidth(s) => Rich::FixedWidth(s@),
        RichText::Hyperlink { text, link } => Rich::Hyperlink { text: text@, link: link@ },
        RichText::Code { language, body } => Rich::Code {
            language: opt_str_view(language),
            body: body@,
        },
        RichText::Plain(s) => Rich::Plain(s@),
    }
}

impl View for RichText {
    type V = Rich;

    open spec fn view(&self) -> Rich {
        rich_of(*self)
    }
}

pub(crate) fn copy_opt_string(o: &Option<String>) -> (r: Option<String>)
    ensures
        opt_str_view(r) == opt_str_view(*o),
        r == *o,
{
    match o {
        Some(s) => Some(s.clone()),
        None => None,
    }
}

/// A copy of `t`, node for node.
pub fn copy_rich_text(t: &RichText) -> (r: RichText)
    ensures
        r@ == t@,
    decreases t,
{
    broadcast use vstd::std_specs::vec::group_vec_axioms;

    match t {
        RichText::Sequence(items) => {
            let mut out: Vec<RichText> = Vec::new();
            let mut i: usize = 0;
            while i < items.len()
                invariant
                    *t == RichText::Sequence(*items),
                    i <= items.len(),
                    out.len() == i,
                    forall|j: int| 0 <= j < i ==> #[trigger] out[j]@ == items[j]@,
                decreases items.len() - i,
            {
                proof {
                    assert(decreases_to!(*t => (*t)->Sequence_0));
                    assert(decreases_to!(*items => items[i as int]));
                }
                out.push(copy_rich_text(&items[i]));
                i += 1;
            }
            let ghost o = out;
            let r = RichText::Sequence(out);
            proof {
                let ra = r@->Sequence_0;
                let ta = t@->Sequence_0;
                assert(ra.len() == ta.len());
                assert forall|j: int| 0 <= j < ra.len() implies ra[j] == ta[j] by {
                    assert(ra[j] == o[j]@);
                    assert(ta[j] == items[j]@);
                }
                assert(ra =~= ta);
            }
            r
        },
        RichText::Bold(x) => RichText::Bold(Box::new(copy_rich_text(x))),
        RichText::Italic(x) => RichText::Italic(Box::new(copy_rich_text(x))),
        RichText::Strikethrough(x) => RichText::Strikethrough(Box::new(copy_rich_text(x))),
        RichText::Blockquote(x) => RichText::Blockquote(Box::new(copy_rich_text(x))),
        RichText::FixedWidth(s) => RichText::FixedWidth(s.clone()),
        RichText::Hyperlink { text, link } => RichText::Hyperlink {
            text: text.clone(),
            link: link.clone(),
        },
        RichText::Code { language, body } => RichText::Code {
            language: copy_opt_string(language),
            body: body.clone(),
        },
        RichText::Plain(s) => RichText::Plain(s.clone()),
    }
}

impl Clone for RichText {
    fn clone(&self) -> (r: Self)
        ensures
            r@ == self@,
    {
        copy_rich_text(self)
    }
}

/// Internal identity of a logical message, assigned by the mapping store.
#[derive(Copy, Clone, PartialEq, Eq, PartialOrd, Ord, Debug, Hash)]
pub struct MessageId(pub u64);

/// Internal identity of an author.
#[derive(Copy, Clone, PartialEq, Eq, PartialOrd, Ord, Debug, Hash)]
pub struct AuthorId(pub u64);

impl From<u64> for MessageId {
    fn from(id: u64) -> (r: Self)
        ensures
            r.0 == id,
    {
        MessageId(id)
    }
}

impl vstd::std_specs::convert::FromSpecImpl<u64> for MessageId {
    open spec fn obeys_from_spec() -> bool {
        true
    }

    open spec fn from_spec(id: u64) -> Self {
        MessageId(id)
    }
}

impl From<u64> for AuthorId {
    fn from(id: u64) -> (r: Self)
        ensures
            r.0 == id,
    {
        AuthorId(id)
    }
}

impl vstd::std_specs::convert::FromSpecImpl<u64> for AuthorId {
    open spec fn obeys_from_spec() -> bool {
        true
    }

    open spec fn from_spec(id: u64) -> Self {
        AuthorId(id)
    }
}

/// A platform's own identity for an author, meaningful within one portal.
pub type ExternAuthorId = String;

/// A platform's own identity for a message, meaningful within one portal.
pub type ExternMessageId = String;

/// Where the bytes of an attachment live.
#[derive(Clone, Eq, PartialEq, Debug)]
pub enum FileData {
    Url(String),
    Blob(Vec<u8>),
}

/// What an attachment is, as far as the platforms distinguish it.
#[derive(Clone, Copy, Eq, PartialEq, Debug)]
pub enum FileKind {
    Image,
    Video,
    Audio,
    Document,
}

/// An attachment of a message.
#[derive(Clone, Eq, PartialEq, Debug)]
pub struct File {
    pub name: String,
    pub data: FileData,
    pub kind: FileKind,
}

/// The author of a message or a reaction, as shown to the other platform.
#[derive(Clone, Eq, PartialEq, Debug)]
pub struct Author {
    pub username: String,
    pub display_name: Option<String>,
    pub pfp: Option<String>,
}

/// Where a forwarded message came from.
#[derive(Clone, Eq, PartialEq, Debug)]
pub enum ForwardInfo {
    Author(Author),
    Name(String),
    Unknown,
}

/// The content of a message.
#[derive(Clone, Eq, PartialEq, Debug)]
pub struct MessageData {
    pub author: Author,
    pub content: RichText,
    pub attachments: Vec<File>,
    pub forwarded_from: Option<ForwardInfo>,
}

/// What a message says about other messages: the message it replies to,
/// by the receiving portal's id, with its content for an inline quote.
#[derive(Clone, Eq, PartialEq, Debug)]
pub struct MessageMeta {
    pub reply_to: Option<(ExternMessageId, MessageData)>,
}

#[derive(Clone, Eq, PartialEq, Debug)]
pub struct Message(pub MessageMeta, pub MessageData);

/// A reaction of one author on one message.
#[derive(Clone, Eq, PartialEq, Debug)]
pub struct Reaction {
    pub author: Author,
    pub content: String,
}

/// What happened on a platform.
#[derive(Clone, Eq, PartialEq, Debug)]
pub enum EventKind {
    Message(Message),
    MessageDelete,
    MessageEdit { from: Option<Message>, to: Message },
    ReactionAdd(Reaction),
    ReactionRemove(Reaction),
}

/// An event of one portal, about one of its messages.
#[derive(Clone, Eq, PartialEq, Debug)]
pub struct Event {
    pub author_id: ExternAuthorId,
    pub msg_id: ExternMessageId,
    pub kind: EventKind,
}

/// Identity of a registered portal: its place in registration order.
#[derive(Copy, Clone, PartialEq, Eq, PartialOrd, Ord, Debug, Hash, Structural)]
pub struct PortalId(pub u64);

impl PortalId {
    pub fn raw(&self) -> (r: u64)
        ensures
            r == self.0,
    {
        self.0
    }
}

/// An attachment as a value: name, URL where it is one, bytes where it is
/// a blob, kind.
pub open spec fn file_view(f: File) -> (Seq<char>, Option<Seq<char>>, Seq<u8>, FileKind) {
    match f.data {
        FileData::Url(u) => (f.name@, Some(u@), Seq::empty(), f.kind),
        FileData::Blob(b) => (f.name@, None, b@, f.kind),
    }
}

/// A list of attachments as values.
pub open spec fn files_view(fs: Seq<File>) -> Seq<(Seq<char>, Option<Seq<char>>, Seq<u8>, FileKind)> {
    fs.map_values(|f: File| file_view(f))
}

/// The content of a message as a value.
pub open spec fn data_view(d: MessageData) -> (
    Author,
    Rich,
    Seq<(Seq<char>, Option<Seq<char>>, Seq<u8>, FileKind)>,
    Option<ForwardInfo>,
) {
    (d.author, d.content@, files_view(d.attachments@), d.forwarded_from)
}

/// The reply information of a message as a value.
pub open spec fn reply_view(m: MessageMeta) -> Option<
    (Seq<char>, (Author, Rich, Seq<(Seq<char>, Option<Seq<char>>, Seq<u8>, FileKind)>, Option<ForwardInfo>)),
> {
    match m.reply_to {
        Some(r) => Some((r.0@, data_view(r.1))),
        None => None,
    }
}

/// A message as a value.
pub open spec fn message_view(m: Message) -> (
    Option<
        (Seq<char>, (Author, Rich, Seq<(Seq<char>, Option<Seq<char>>, Seq<u8>, FileKind)>, Option<ForwardInfo>)),
    >,
    (Author, Rich, Seq<(Seq<char>, Option<Seq<char>>, Seq<u8>, FileKind)>, Option<ForwardInfo>),
) {
    (reply_view(m.0), data_view(m.1))
}

/// A copy of an author.
pub fn copy_author(a: &Author) -> (r: Author)
    ensures
        r == *a,
{
    Author {
        username: a.username.clone(),
        display_name: copy_opt_string(&a.display_name),
        pfp: copy_opt_string(&a.pfp),
    }
}

/// A copy of where a message was forwarded from.
pub fn copy_forward(f: &Option<ForwardInfo>) -> (r: Option<ForwardInfo>)
    ensures
        r == *f,
{
    match f {
        None => None,
        Some(ForwardInfo::Author(a)) => Some(ForwardInfo::Author(copy_author(a))),
        Some(ForwardInfo::Name(n)) => Some(ForwardInfo::Name(n.clone())),
        Some(ForwardInfo::Unknown) => Some(ForwardInfo::Unknown),
    }
}

fn copy_bytes(b: &Vec<u8>) -> (r: Vec<u8>)
    ensures
        r@ == b@,
{
    let mut out: Vec<u8> = Vec::new();
    let mut i: usize = 0;
    while i < b.len()
        invariant
            i <= b.len(),
            out@ == b@.take(i as int),
        decreases b.len() - i,
    {
        out.push(b[i]);
        i += 1;
        assert(out@ =~= b@.take(i as int));
    }
    assert(b@.take(i as int) =~= b@);
    out
}

/// A copy of an attachment.
pub fn copy_file(f: &File) -> (r: File)
    ensures
        file_view(r) == file_view(*f),
{
    let data = match &f.data {
        FileData::Url(u) => FileData::Url(u.clone()),
        FileData::Blob(b) => FileData::Blob(copy_bytes(b)),
    };
    File { name: f.name.clone(), data, kind: f.kind }
}

/// A copy of a list of attachments.
pub fn copy_files(fs: &Vec<File>) -> (r: Vec<File>)
    ensures
        files_view(r@) == files_view(fs@),
{
    let mut out: Vec<File> = Vec::new();
    let mut i: usize = 0;
    while i < fs.len()
        invariant
            i <= fs.len(),
            files_view(out@) == files_view(fs@.take(i as int)),
        decreases fs.len() - i,
    {
        let ghost before = out@;
        let c = copy_file(&fs[i]);
        out.push(c);
        assert(files_view(out@) =~= files_view(fs@.take(i + 1))) by {
            assert(fs@.take(i + 1) =~= fs@.take(i as int).push(fs@[i as int]));
            assert(out@ == before.push(c));
            assert(files_view(before.push(c)) =~= files_view(before).push(file_view(c)));
            assert(files_view(fs@.take(i as int).push(fs@[i as int])) =~= files_view(fs@.take(i as int)).push(
                file_view(fs@[i as int]),
            ));
        }
        i += 1;
    }
    assert(fs@.take(i as int) =~= fs@);
    out
}

/// A copy of a message's content.
pub fn copy_message_data(d: &MessageData) -> (r: MessageData)
    ensures
        data_view(r) == data_view(*d),
{
    MessageData {
        author: copy_author(&d.author),
        content: copy_rich_text(&d.content),
        attachments: copy_files(&d.attachments),
        forwarded_from: copy_forward(&d.forwarded_from),
    }
}

/// A copy of a message.
pub fn copy_message(m: &Message) -> (r: Message)
    ensures
        message_view(r) == message_view(*m),
{
    let reply_to = match &m.0.reply_to {
        Some((e, d)) => Some((e.clone(), copy_message_data(d))),
        None => None,
    };
    Message(MessageMeta { reply_to }, copy_message_data(&m.1))
}

} // verus!
