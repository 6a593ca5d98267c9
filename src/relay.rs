//! The decisions of the event relay: which portal receives what, how the
//! mapping store changes, and how per-portal outcomes are aggregated. The
//! calls into the portals themselves are made by the caller, who hands their
//! outcomes back.

use vstd::prelude::*;
use crate::model::{
    copy_author, copy_files, copy_forward, copy_message, copy_message_data, copy_rich_text, data_view,
    files_view, message_view, reply_view, Author, FileKind, ForwardInfo, Event, EventKind, ExternMessageId, Message, MessageData, MessageId,
    MessageMeta, PortalId, Reaction, Rich, RichText,
};
use crate::store::{is_mapped, lookup, mirrors, without, Persist, PersistView, RowView, StoreError};

verus! {

/// Why one portal's part of an event did not happen.
#[derive(Clone, Debug, PartialEq, Eq)]
pub enum PortalFault {
    /// The portal holds no mirror of the message concerned.
    NoMirror,
    /// The portal's own operation failed.
    Failed(String),
    /// The store refused to record what the portal returned.
    Store(StoreError),
}

/// The failure of one portal during a fan-out.
#[derive(Clone, Debug, PartialEq, Eq)]
pub struct PortalFailure {
    pub portal: PortalId,
    pub fault: PortalFault,
}

/// Why an event was not relayed in full.
#[derive(Clone, Debug, PartialEq, Eq)]
pub enum RelayError {
    /// The event concerns a message that has no internal identity.
    NotFound,
    /// The store refused a write for the event itself.
    Store(StoreError),
    /// Some portals failed; the others received the event.
    Portals(Vec<PortalFailure>),
}

/// A message to hand to one portal.
#[derive(Clone, Debug)]
pub struct Delivery {
    pub portal: PortalId,
    pub message: Message,
}

/// A new message: its internal id and what each other portal receives.
#[derive(Clone, Debug)]
pub struct MessagePlan {
    pub id: MessageId,
    pub deliveries: Vec<Delivery>,
}

/// The operation to perform on one portal's mirror.
#[derive(Clone, Debug)]
pub enum Action {
    Delete(Vec<ExternMessageId>),
    Edit { id: ExternMessageId, from: Option<Message>, to: Message },
    ReactionAdd { id: ExternMessageId, reaction: Reaction },
    ReactionRemove { id: ExternMessageId, reaction: Reaction },
}

/// What one portal does for an event about an existing message; `None`
/// where the portal holds no mirror of it.
#[derive(Clone, Debug)]
pub struct PortalAction {
    pub portal: PortalId,
    pub action: Option<Action>,
}

/// The work that one event asks of the portals.
#[derive(Clone, Debug)]
pub enum Plan {
    Message(MessagePlan),
    Actions(Vec<PortalAction>),
}

/// The portals other than `source`, in registration order.
pub open spec fn targets(portals: Seq<PortalId>, source: PortalId) -> Seq<PortalId> {
    portals.filter(|p: PortalId| p != source)
}

/// The extern id, on `target`, of the message that a reply refers to on
/// `source`, where the store knows both.
pub open spec fn reply_ref(
    rows: Seq<RowView>,
    reply: Option<Seq<char>>,
    source: PortalId,
    target: PortalId,
) -> Option<Seq<char>> {
    match reply {
        None => None,
        Some(ext) => match lookup(rows, ext, source.0) {
            None => None,
            Some(rid) => {
                let m = mirrors(rows, rid, target.0);
                if m.len() > 0 {
                    Some(m[0])
                } else {
                    None
                }
            },
        },
    }
}

/// The content of a reply whose target cannot be referred to: the replied-to
/// content quoted, then the reply.
pub open spec fn quoted(replied: Rich, content: Rich) -> Rich {
    Rich::Sequence(seq![Rich::Blockquote(Box::new(replied)), content])
}

/// The reply that `target` receives: its own mirror of the replied-to
/// message with the replied-to content, where the store knows the mirror.
pub open spec fn delivered_reply(
    rows: Seq<RowView>,
    meta: MessageMeta,
    source: PortalId,
    target: PortalId,
) -> Option<(Seq<char>, (Author, Rich, Seq<(Seq<char>, Option<Seq<char>>, Seq<u8>, FileKind)>, Option<ForwardInfo>))> {
    match meta.reply_to {
        Some(r) => match reply_ref(rows, Some(r.0@), source, target) {
            Some(x) => Some((x, data_view(r.1))),
            None => None,
        },
        None => None,
    }
}

/// What `target` receives as content for a message with this reply info.
pub open spec fn delivered_content(
    rows: Seq<RowView>,
    meta: MessageMeta,
    content: Rich,
    source: PortalId,
    target: PortalId,
) -> Rich {
    match meta.reply_to {
        Some(r) => if reply_ref(rows, Some(r.0@), source, target) is None {
            quoted(r.1.content@, content)
        } else {
            content
        },
        None => content,
    }
}

/// What planning a new message does: the store allocates the next id and
/// maps the source's id to it, and every other portal, in order, receives
/// the content with a reply reference where its mirror is known, else with
/// the replied-to content quoted. Planning fails only when the ids are
/// exhausted or the source's id is already mapped.
pub open spec fn message_planned(
    before: PersistView,
    after: PersistView,
    portals: Seq<PortalId>,
    source: PortalId,
    src: Seq<char>,
    msg: Message,
    r: Result<MessagePlan, RelayError>,
) -> bool {
    &&& (r is Ok <==> before.messages.len() < u64::MAX)
    &&& (r is Err ==> r == Err::<MessagePlan, RelayError>(RelayError::Store(StoreError::Exhausted))
        && after == before)
    &&& (r is Ok ==> {
        let plan = r->Ok_0;
        let rows = after.rows;
        let ts = targets(portals, source);
        &&& plan.id.0 == before.messages.len() + 1
        &&& after.messages == before.messages.push(msg.1.attachments.len() > 0)
        &&& rows == before.rows.push((plan.id.0, src, source.0))
        &&& plan.deliveries.len() == ts.len()
        &&& forall|k: int|
            0 <= k < ts.len() ==> {
                let d = #[trigger] plan.deliveries[k];
                &&& d.portal == ts[k]
                &&& reply_view(d.message.0) == delivered_reply(rows, msg.0, source, ts[k])
                &&& d.message.1.content@ == delivered_content(rows, msg.0, msg.1.content@, source, ts[k])
                &&& d.message.1.author == msg.1.author
                &&& files_view(d.message.1.attachments@) == files_view(msg.1.attachments@)
                &&& d.message.1.forwarded_from == msg.1.forwarded_from
            }
    })
}

/// What planning an edit, deletion or reaction does: an unknown message is
/// `NotFound` and changes nothing; otherwise every other portal, in order,
/// gets the operation on its mirrors, or none where it has no mirror, and a
/// deletion forgets every mirror of the message.
pub open spec fn action_planned(
    before: PersistView,
    after: PersistView,
    portals: Seq<PortalId>,
    source: PortalId,
    src: Seq<char>,
    kind: EventKind,
    r: Result<Vec<PortalAction>, RelayError>,
) -> bool {
    &&& after.messages == before.messages
    &&& match lookup(before.rows, src, source.0) {
        None => r == Err::<Vec<PortalAction>, RelayError>(RelayError::NotFound) && after.rows == before.rows,
        Some(id) => {
            let ts = targets(portals, source);
            &&& r is Ok
            &&& r->Ok_0.len() == ts.len()
            &&& forall|k: int|
                0 <= k < ts.len() ==> {
                    let pa = #[trigger] r->Ok_0[k];
                    &&& pa.portal == ts[k]
                    &&& action_fits(pa.action, kind, mirrors(before.rows, id, ts[k].0))
                }
            &&& after.rows == if kind is MessageDelete {
                without(before.rows, id)
            } else {
                before.rows
            }
        },
    }
}

/// The message plan within a plan, if that is what it is.
pub open spec fn as_message_plan(r: Result<Plan, RelayError>) -> Result<MessagePlan, RelayError> {
    match r {
        Ok(Plan::Message(p)) => Ok(p),
        Ok(Plan::Actions(_)) => Err(RelayError::NotFound),
        Err(e) => Err(e),
    }
}

/// The portal actions within a plan, if that is what it is.
pub open spec fn as_actions(r: Result<Plan, RelayError>) -> Result<Vec<PortalAction>, RelayError> {
    match r {
        Ok(Plan::Actions(a)) => Ok(a),
        Ok(Plan::Message(_)) => Err(RelayError::NotFound),
        Err(e) => Err(e),
    }
}

fn copy_data(d: &MessageData, content: RichText) -> (r: MessageData)
    ensures
        r.content@ == content@,
        r.author == d.author,
        files_view(r.attachments@) == files_view(d.attachments@),
        r.forwarded_from == d.forwarded_from,
{
    MessageData {
        author: copy_author(&d.author),
        content,
        attachments: copy_files(&d.attachments),
        forwarded_from: copy_forward(&d.forwarded_from),
    }
}

fn first_mirror(persist: &Persist, id: MessageId, portal: PortalId) -> (r: Option<ExternMessageId>)
    ensures
        match r {
            Some(e) => mirrors(persist@.rows, id.0, portal.0).len() > 0 && e@ == mirrors(
                persist@.rows,
                id.0,
                portal.0,
            )[0],
            None => mirrors(persist@.rows, id.0, portal.0).len() == 0,
        },
{
    let ms = persist.get_messages_for_portal(id, portal);
    if ms.len() > 0 {
        assert(ms@.map_values(|s: String| s@)[0] == ms@[0]@);
        Some(ms[0].clone())
    } else {
        None
    }
}

/// Stores a new message of `source`, known there as `src_msg_id`, and
/// prepares its delivery to every other portal. A reply refers to the
/// target's mirror of the replied-to message where the store knows one;
/// elsewhere the replied-to content is quoted inline instead.
pub fn plan_message(
    persist: &mut Persist,
    portals: &Vec<PortalId>,
    source: PortalId,
    src_msg_id: ExternMessageId,
    msg: Message,
) -> (r: Result<MessagePlan, RelayError>)
    requires
        old(persist).wf(),
    ensures
        final(persist).wf(),
        message_planned(old(persist)@, final(persist)@, portals@, source, src_msg_id@, msg, r),
{
    let id = match persist.insert_message(&msg) {
        Ok(id) => id,
        Err(e) => {
            return Err(RelayError::Store(e));
        },
    };
    assert(!persist@.rows.contains((id.0, src_msg_id@, source.0))) by {
        if persist@.rows.contains((id.0, src_msg_id@, source.0)) {
            let j = choose|j: int| 0 <= j < persist@.rows.len() && persist@.rows[j] == (id.0, src_msg_id@, source.0);
            assert(persist@.rows[j].0 <= old(persist)@.messages.len());
        }
    }
    match persist.add_message_mapping(id, source, src_msg_id) {
        Ok(()) => {},
        Err(e) => {
            return Err(RelayError::Store(e));
        },
    }
    let Message(meta, data) = msg;
    let reply_id: Option<MessageId> = match &meta.reply_to {
        Some((ext, _)) => match persist.get_message_id(ext.clone(), source) {
            Ok(rid) => Some(rid),
            Err(_) => None,
        },
        None => None,
    };
    let ghost rows = persist@.rows;
    let ghost ts = targets(portals@, source);
    let mut deliveries: Vec<Delivery> = Vec::new();
    let mut i: usize = 0;
    while i < portals.len()
        invariant
            i <= portals.len(),
            persist.wf(),
            persist@.rows == rows,
            ts == targets(portals@, source),
            match meta.reply_to {
                Some(r) => reply_id == match lookup(rows, r.0@, source.0) {
                    Some(x) => Some(MessageId(x)),
                    None => None::<MessageId>,
                },
                None => reply_id is None,
            },
            deliveries@.map_values(|d: Delivery| d.portal) == targets(portals@.take(i as int), source),
            forall|k: int|
                0 <= k < deliveries.len() ==> {
                    let d = #[trigger] deliveries[k];
                    &&& reply_view(d.message.0) == delivered_reply(rows, meta, source, d.portal)
                    &&& d.message.1.content@ == delivered_content(
                        rows,
                        meta,
                        data.content@,
                        source,
                        d.portal,
                    )
                    &&& d.message.1.author == data.author
                    &&& files_view(d.message.1.attachments@) == files_view(data.attachments@)
                    &&& d.message.1.forwarded_from == data.forwarded_from
                },
        decreases portals.len() - i,
    {
        let p = portals[i];
        proof {
            reveal(Seq::filter);
            assert(portals@.take(i + 1).drop_last() =~= portals@.take(i as int));
        }
        if p.0 != source.0 {
            let mirror = match reply_id {
                Some(rid) => first_mirror(persist, rid, p),
                None => None,
            };
            let (reply_to, content) = match (&meta.reply_to, mirror) {
                (Some((_, replied)), Some(m)) => (
                    Some((m, copy_message_data(replied))),
                    copy_rich_text(&data.content),
                ),
                (Some((_, replied)), None) => {
                    let mut parts: Vec<RichText> = Vec::new();
                    parts.push(RichText::Blockquote(Box::new(copy_rich_text(&replied.content))));
                    parts.push(copy_rich_text(&data.content));
                    let c = RichText::Sequence(parts);
                    proof {
                        let q = quoted(replied.content@, data.content@);
                        assert(c@->Sequence_0[0] == parts@[0]@);
                        assert(c@->Sequence_0[0] == q->Sequence_0[0]);
                        assert(c@->Sequence_0[1] == q->Sequence_0[1]);
                        assert(c@->Sequence_0 =~= q->Sequence_0);
                    }
                    (None, c)
                },
                (None, _) => (None, copy_rich_text(&data.content)),
            };
            let d = Delivery {
                portal: p,
                message: Message(MessageMeta { reply_to }, copy_data(&data, content)),
            };
            proof {
                assert(d.message.1.content@ == delivered_content(rows, meta, data.content@, source, p)) by {
                    if let Some(r) = meta.reply_to {
                        if reply_ref(rows, Some(r.0@), source, p) is None {
                            assert(d.message.1.content@ == quoted(r.1.content@, data.content@));
                        }
                    }
                }
            }
            deliveries.push(d);
        }
        i += 1;
        assert(deliveries@.map_values(|d: Delivery| d.portal) =~= targets(portals@.take(i as int), source));
    }
    assert(portals@.take(i as int) =~= portals@);
    proof {
        let ds = deliveries@.map_values(|d: Delivery| d.portal);
        assert forall|k: int| 0 <= k < ts.len() implies #[trigger] deliveries[k].portal == ts[k] by {
            assert(ds[k] == deliveries[k].portal);
        }
    }
    Ok(MessagePlan { id, deliveries })
}

/// The extern ids of a list of mirrors, as values.
pub open spec fn ext_views(ids: Seq<ExternMessageId>) -> Seq<Seq<char>> {
    ids.map_values(|s: String| s@)
}

/// An optional message as a value.
pub open spec fn opt_message_view(m: Option<Message>) -> Option<
    (
        Option<(Seq<char>, (Author, Rich, Seq<(Seq<char>, Option<Seq<char>>, Seq<u8>, FileKind)>, Option<ForwardInfo>))>,
        (Author, Rich, Seq<(Seq<char>, Option<Seq<char>>, Seq<u8>, FileKind)>, Option<ForwardInfo>),
    ),
> {
    match m {
        Some(x) => Some(message_view(x)),
        None => None,
    }
}

/// Whether `a` is what a portal whose mirrors of the message are `m` must do
/// for an event of kind `kind`.
pub open spec fn action_fits(a: Option<Action>, kind: EventKind, m: Seq<Seq<char>>) -> bool {
    if m.len() == 0 {
        a is None
    } else {
        match (a, kind) {
            (Some(Action::Delete(ids)), EventKind::MessageDelete) => ext_views(ids@) == m,
            (Some(Action::Edit { id, from, to }), EventKind::MessageEdit { from: f, to: t }) => id@ == m[0]
                && opt_message_view(from) == opt_message_view(f) && message_view(to) == message_view(t),
            (Some(Action::ReactionAdd { id, reaction }), EventKind::ReactionAdd(r)) => id@ == m[0]
                && reaction == r,
            (Some(Action::ReactionRemove { id, reaction }), EventKind::ReactionRemove(r)) => id@
                == m[0] && reaction == r,
            _ => false,
        }
    }
}

fn copy_reaction(r: &Reaction) -> (c: Reaction)
    ensures
        c == *r,
{
    Reaction { author: copy_author(&r.author), content: r.content.clone() }
}

fn action_for(kind: &EventKind, ids: Vec<ExternMessageId>) -> (a: Option<Action>)
    requires
        !(kind is Message),
    ensures
        action_fits(a, *kind, ext_views(ids@)),
{
    if ids.len() == 0 {
        return None;
    }
    assert(ext_views(ids@)[0] == ids@[0]@);
    match kind {
        EventKind::MessageDelete => Some(Action::Delete(ids)),
        EventKind::MessageEdit { from, to } => Some(
            Action::Edit {
                id: ids[0].clone(),
                from: match from {
                    Some(f) => Some(copy_message(f)),
                    None => None,
                },
                to: copy_message(to),
            },
        ),
        EventKind::ReactionAdd(r) => Some(
            Action::ReactionAdd { id: ids[0].clone(), reaction: copy_reaction(r) },
        ),
        EventKind::ReactionRemove(r) => Some(
            Action::ReactionRemove { id: ids[0].clone(), reaction: copy_reaction(r) },
        ),
        EventKind::Message(_) => None,
    }
}

/// Prepares an edit, deletion or reaction of `source`'s message
/// `src_msg_id` for every other portal, on that portal's mirrors. A deletion
/// also forgets every mirror of the message, so that a second deletion finds
/// nothing.
pub fn plan_action(
    persist: &mut Persist,
    portals: &Vec<PortalId>,
    source: PortalId,
    src_msg_id: ExternMessageId,
    kind: EventKind,
) -> (r: Result<Vec<PortalAction>, RelayError>)
    requires
        old(persist).wf(),
        !(kind is Message),
    ensures
        final(persist).wf(),
        action_planned(old(persist)@, final(persist)@, portals@, source, src_msg_id@, kind, r),
{
    let id = match persist.get_message_id(src_msg_id, source) {
        Ok(id) => id,
        Err(_) => {
            return Err(RelayError::NotFound);
        },
    };
    let ghost rows = persist@.rows;
    let ghost ts = targets(portals@, source);
    let mut actions: Vec<PortalAction> = Vec::new();
    let mut i: usize = 0;
    while i < portals.len()
        invariant
            i <= portals.len(),
            persist.wf(),
            persist@ == old(persist)@,
            rows == persist@.rows,
            lookup(rows, src_msg_id@, source.0) == Some(id.0),
            !(kind is Message),
            actions@.map_values(|a: PortalAction| a.portal) == targets(portals@.take(i as int), source),
            forall|k: int|
                0 <= k < actions.len() ==> action_fits(
                    (#[trigger] actions[k]).action,
                    kind,
                    mirrors(rows, id.0, actions[k].portal.0),
                ),
        decreases portals.len() - i,
    {
        let p = portals[i];
        proof {
            reveal(Seq::filter);
            assert(portals@.take(i + 1).drop_last() =~= portals@.take(i as int));
        }
        if p.0 != source.0 {
            let ids = persist.get_messages_for_portal(id, p);
            let action = action_for(&kind, ids);
            actions.push(PortalAction { portal: p, action });
        }
        i += 1;
        assert(actions@.map_values(|a: PortalAction| a.portal) =~= targets(portals@.take(i as int), source));
    }
    assert(portals@.take(i as int) =~= portals@);
    proof {
        let ps = actions@.map_values(|a: PortalAction| a.portal);
        assert forall|k: int| 0 <= k < ts.len() implies #[trigger] actions[k].portal == ts[k] by {
            assert(ps[k] == actions[k].portal);
        }
    }
    if let EventKind::MessageDelete = kind {
        persist.remove_message_mappings(id);
    }
    Ok(actions)
}

/// Plans the relay of `event`, which `source` emitted.
pub fn plan_event(
    persist: &mut Persist,
    portals: &Vec<PortalId>,
    source: PortalId,
    event: Event,
) -> (r: Result<Plan, RelayError>)
    requires
        old(persist).wf(),
    ensures
        final(persist).wf(),
        r is Ok ==> (r->Ok_0 is Message <==> event.kind is Message),
        match event.kind {
            EventKind::Message(m) => message_planned(
                old(persist)@,
                final(persist)@,
                portals@,
                source,
                event.msg_id@,
                m,
                as_message_plan(r),
            ),
            kind => action_planned(
                old(persist)@,
                final(persist)@,
                portals@,
                source,
                event.msg_id@,
                kind,
                as_actions(r),
            ),
        },
{
    let Event { author_id: _, msg_id, kind } = event;
    match kind {
        EventKind::Message(msg) => match plan_message(persist, portals, source, msg_id, msg) {
            Ok(plan) => Ok(Plan::Message(plan)),
            Err(e) => Err(e),
        },
        kind => match plan_action(persist, portals, source, msg_id, kind) {
            Ok(actions) => Ok(Plan::Actions(actions)),
            Err(e) => Err(e),
        },
    }
}

/// What one portal answered when it was handed a new message: the extern
/// ids it created, or why it failed.
pub type SendResult = (PortalId, Result<Vec<ExternMessageId>, String>);

/// The mapping rows that the ids in `ids`, returned by `portal`, ask for.
pub open spec fn rows_for(id: u64, portal: PortalId, ids: Seq<ExternMessageId>) -> Seq<RowView> {
    ids.map_values(|e: String| (id, e@, portal.0))
}

/// The mapping rows that the answers ask for, in order.
pub open spec fn returned_rows(id: u64, results: Seq<SendResult>) -> Seq<RowView>
    decreases results.len(),
{
    if results.len() == 0 {
        Seq::empty()
    } else {
        returned_rows(id, results.drop_last()) + match results.last().1 {
            Ok(ids) => rows_for(id, results.last().0, ids@),
            Err(_) => Seq::empty(),
        }
    }
}

/// `rows` after adding each row of `new` in turn, where the store accepts it.
pub open spec fn apply_rows(rows: Seq<RowView>, n: nat, new: Seq<RowView>) -> Seq<RowView>
    decreases new.len(),
{
    if new.len() == 0 {
        rows
    } else {
        let r0 = apply_rows(rows, n, new.drop_last());
        let x = new.last();
        if 1 <= x.0 <= n && !r0.contains(x) {
            r0.push(x)
        } else {
            r0
        }
    }
}

proof fn lemma_apply_len(rows: Seq<RowView>, n: nat, new: Seq<RowView>)
    ensures
        apply_rows(rows, n, new).len() <= rows.len() + new.len(),
    decreases new.len(),
{
    if new.len() > 0 {
        lemma_apply_len(rows, n, new.drop_last());
    }
}

proof fn lemma_apply_push(rows: Seq<RowView>, n: nat, new: Seq<RowView>, x: RowView)
    ensures
        apply_rows(rows, n, new.push(x)) == {
            let r0 = apply_rows(rows, n, new);
            if 1 <= x.0 <= n && !r0.contains(x) {
                r0.push(x)
            } else {
                r0
            }
        },
{
    assert(new.push(x).drop_last() =~= new);
}

fn record_ids(
    persist: &mut Persist,
    id: MessageId,
    portal: PortalId,
    ids: &Vec<ExternMessageId>,
    failures: &mut Vec<PortalFailure>,
    Ghost(base): Ghost<Seq<RowView>>,
    Ghost(before): Ghost<Seq<RowView>>,
)
    requires
        old(persist).wf(),
        old(persist)@.rows == apply_rows(base, old(persist)@.messages.len(), before),
    ensures
        final(persist).wf(),
        final(persist)@.messages == old(persist)@.messages,
        final(persist)@.rows == apply_rows(
            base,
            old(persist)@.messages.len(),
            before + rows_for(id.0, portal, ids@),
        ),
        final(failures)@.len() >= old(failures)@.len(),
        final(failures)@.take(old(failures)@.len() as int) == old(failures)@,
        forall|f: int|
            old(failures)@.len() <= f < final(failures)@.len() ==> (#[trigger] final(failures)@[f]).portal
                == portal && final(failures)@[f].fault is Store,
        (final(failures)@.len() == old(failures)@.len() && old(persist)@.rows.len() == base.len()
            + before.len()) <==> final(persist)@.rows.len() == base.len() + before.len() + ids.len(),
        final(persist)@.rows.len() <= old(persist)@.rows.len() + ids.len(),
{
    let ghost n = persist@.messages.len();
    let ghost f0 = failures@;
    let ghost r0 = persist@.rows;
    proof {
        lemma_apply_len(base, n, before);
    }
    let mut j: usize = 0;
    while j < ids.len()
        invariant
            j <= ids.len(),
            persist.wf(),
            persist@.messages == old(persist)@.messages,
            n == persist@.messages.len(),
            persist@.rows == apply_rows(base, n, before + rows_for(id.0, portal, ids@.take(j as int))),
            r0.len() <= base.len() + before.len(),
            failures@.len() >= f0.len(),
            failures@.take(f0.len() as int) == f0,
            forall|f: int|
                f0.len() <= f < failures@.len() ==> (#[trigger] failures@[f]).portal == portal
                    && failures@[f].fault is Store,
            (failures@.len() == f0.len() && r0.len() == base.len() + before.len()) <==> persist@.rows.len()
                == base.len() + before.len() + j,
            persist@.rows.len() <= base.len() + before.len() + j,
            persist@.rows.len() <= r0.len() + j,
        decreases ids.len() - j,
    {
        let ghost prev = before + rows_for(id.0, portal, ids@.take(j as int));
        let ghost x = (id.0, ids@[j as int]@, portal.0);
        proof {
            assert(j == 0 ==> prev =~= before);
            assert(before + rows_for(id.0, portal, ids@.take(j + 1)) =~= prev.push(x));
            lemma_apply_push(base, n, prev, x);
        }
        let ghost fl = failures@;
        match persist.add_message_mapping(id, portal, ids[j].clone()) {
            Ok(()) => {},
            Err(e) => {
                failures.push(PortalFailure { portal, fault: PortalFault::Store(e) });
                assert(failures@.take(f0.len() as int) =~= fl.take(f0.len() as int));
            },
        }
        j += 1;
    }
    assert(ids@.take(j as int) =~= ids@);
}

/// Whether every entry of `fs` is a failed portal operation.
pub open spec fn only_failed(fs: Seq<PortalFailure>) -> bool {
    forall|f: int| 0 <= f < fs.len() ==> (#[trigger] fs[f]).fault is Failed
}

/// The portal failures that `r` reports.
pub open spec fn failures_of(r: Result<(), RelayError>) -> Seq<PortalFailure> {
    match r {
        Err(RelayError::Portals(fs)) => fs@,
        _ => Seq::empty(),
    }
}

/// Every failed answer among the first `i` is named in `fs`, with its reason.
#[verifier::opaque]
pub open spec fn names_failed(results: Seq<SendResult>, i: int, fs: Seq<PortalFailure>) -> bool {
    forall|k: int|
        0 <= k < i && (#[trigger] results[k]).1 is Err ==> exists|f: int|
            0 <= f < fs.len() && (#[trigger] fs[f]).portal == results[k].0 && fs[f].fault is Failed
                && fs[f].fault->Failed_0@ == results[k].1->Err_0@
}

/// Every entry of `fs` names a portal among the first `i` answers: as failed
/// where that answer failed, else as refused by the store.
#[verifier::opaque]
pub open spec fn names_only(results: Seq<SendResult>, i: int, fs: Seq<PortalFailure>) -> bool {
    forall|f: int|
        0 <= f < fs.len() ==> exists|k: int|
            0 <= k < i && (#[trigger] results[k]).0 == (#[trigger] fs[f]).portal && (results[k].1 is Err
                <==> fs[f].fault is Failed)
}

proof fn lemma_names_extend(results: Seq<SendResult>, i: int, fl: Seq<PortalFailure>, fs: Seq<PortalFailure>)
    requires
        0 <= i < results.len(),
        names_failed(results, i, fl),
        names_only(results, i, fl),
        fs.len() >= fl.len(),
        fs.take(fl.len() as int) == fl,
        forall|f: int|
            fl.len() <= f < fs.len() ==> (#[trigger] fs[f]).portal == results[i].0 && (results[i].1 is Err
                <==> fs[f].fault is Failed),
        results[i].1 is Err ==> fs.len() > fl.len() && fs[fl.len() as int].fault->Failed_0@
            == results[i].1->Err_0@,
    ensures
        names_failed(results, i + 1, fs),
        names_only(results, i + 1, fs),
{
    reveal(names_failed);
    reveal(names_only);
    assert forall|f: int| 0 <= f < fl.len() implies fs[f] == fl[f] by {
        assert(fs.take(fl.len() as int)[f] == fs[f]);
    }
    assert forall|k: int| 0 <= k < i + 1 && (#[trigger] results[k]).1 is Err implies exists|f: int|
        0 <= f < fs.len() && (#[trigger] fs[f]).portal == results[k].0 && fs[f].fault is Failed
            && fs[f].fault->Failed_0@ == results[k].1->Err_0@ by {
        if k < i {
            let f = choose|f: int|
                0 <= f < fl.len() && (#[trigger] fl[f]).portal == results[k].0 && fl[f].fault is Failed
                    && fl[f].fault->Failed_0@ == results[k].1->Err_0@;
            assert(fs[f] == fl[f]);
        } else {
            assert(fs[fl.len() as int].portal == results[k].0);
        }
    }
    assert forall|f: int| 0 <= f < fs.len() implies exists|k: int|
        0 <= k < i + 1 && (#[trigger] results[k]).0 == (#[trigger] fs[f]).portal && (results[k].1 is Err
            <==> fs[f].fault is Failed) by {
        if f < fl.len() {
            assert(fs[f] == fl[f]);
            let k = choose|k: int|
                0 <= k < i && (#[trigger] results[k]).0 == (#[trigger] fl[f]).portal && (results[k].1 is Err
                    <==> fl[f].fault is Failed);
            assert(results[k].0 == fs[f].portal);
        } else {
            assert(results[i].0 == fs[f].portal);
        }
    }
}

/// The state of recording after the first `i` answers: the rows that the
/// store accepted, and the failures named so far.
pub open spec fn recorded(
    rows: Seq<RowView>,
    fs: Seq<PortalFailure>,
    base: Seq<RowView>,
    n: nat,
    id: u64,
    results: Seq<SendResult>,
    i: int,
) -> bool {
    let ret = returned_rows(id, results.take(i));
    &&& rows == apply_rows(base, n, ret)
    &&& rows.len() <= base.len() + ret.len()
    &&& (fs.len() == 0 <==> (forall|k: int| 0 <= k < i ==> (#[trigger] results[k]).1 is Ok) && rows.len()
        == base.len() + ret.len())
    &&& names_failed(results, i, fs)
    &&& names_only(results, i, fs)
    &&& (only_failed(fs) || rows.len() < base.len() + ret.len())
}

fn record_one(
    persist: &mut Persist,
    id: MessageId,
    results: &Vec<SendResult>,
    i: usize,
    failures: &mut Vec<PortalFailure>,
    Ghost(base): Ghost<Seq<RowView>>,
)
    requires
        old(persist).wf(),
        i < results.len(),
        recorded(old(persist)@.rows, old(failures)@, base, old(persist)@.messages.len(), id.0, results@, i as int),
    ensures
        final(persist).wf(),
        final(persist)@.messages == old(persist)@.messages,
        recorded(final(persist)@.rows, final(failures)@, base, old(persist)@.messages.len(), id.0, results@, i + 1),
{
    let ghost n = persist@.messages.len();
    let ghost before = returned_rows(id.0, results@.take(i as int));
    let ghost fl = failures@;
    assert(results@.take(i + 1).drop_last() =~= results@.take(i as int));
    let portal = results[i].0;
    match &results[i].1 {
        Ok(ids) => {
            record_ids(persist, id, portal, ids, failures, Ghost(base), Ghost(before));
            assert(returned_rows(id.0, results@.take(i + 1)) =~= before + rows_for(id.0, portal, ids@));
            proof {
                lemma_apply_len(base, n, returned_rows(id.0, results@.take(i + 1)));
                lemma_names_extend(results@, i as int, fl, failures@);
                if !only_failed(failures@) {
                    if only_failed(fl) {
                        let f = choose|f: int| 0 <= f < failures@.len() && !((#[trigger] failures@[f]).fault is Failed);
                        if f < fl.len() {
                            assert(failures@.take(fl.len() as int)[f] == failures@[f]);
                        }
                    }
                }
            }
        },
        Err(reason) => {
            failures.push(PortalFailure { portal, fault: PortalFault::Failed(reason.clone()) });
            assert(returned_rows(id.0, results@.take(i + 1)) =~= before);
            proof {
                assert(failures@.take(fl.len() as int) =~= fl);
                lemma_names_extend(results@, i as int, fl, failures@);
                if only_failed(fl) {
                    assert forall|f: int| 0 <= f < failures@.len() implies (#[trigger] failures@[f]).fault is Failed by {
                        if f < fl.len() {
                            assert(failures@[f] == fl[f]);
                        }
                    }
                }
            }
        },
    }
}

/// Records the mirrors that the portals created for message `id`, and
/// reports every portal that failed, by name; the portals that succeeded
/// keep their mirrors whatever the others did.
pub fn record_deliveries(persist: &mut Persist, id: MessageId, results: Vec<SendResult>) -> (r: Result<(), RelayError>)
    requires
        old(persist).wf(),
    ensures
        final(persist).wf(),
        final(persist)@.messages == old(persist)@.messages,
        final(persist)@.rows == apply_rows(
            old(persist)@.rows,
            old(persist)@.messages.len(),
            returned_rows(id.0, results@),
        ),
        r is Ok <==> (forall|k: int| 0 <= k < results.len() ==> (#[trigger] results[k]).1 is Ok)
            && final(persist)@.rows.len() == old(persist)@.rows.len() + returned_rows(id.0, results@).len(),
        r is Err ==> r->Err_0 is Portals,
        names_failed(results@, results.len() as int, failures_of(r)),
        names_only(results@, results.len() as int, failures_of(r)),
        only_failed(failures_of(r)) || final(persist)@.rows.len() < old(persist)@.rows.len()
            + returned_rows(id.0, results@).len(),
{
    let ghost old_rows = persist@.rows;
    let ghost n = persist@.messages.len();
    let mut failures: Vec<PortalFailure> = Vec::new();
    proof {
        reveal(names_failed);
        reveal(names_only);
        assert(results@.take(0) =~= Seq::<SendResult>::empty());
    }
    let mut i: usize = 0;
    while i < results.len()
        invariant
            i <= results.len(),
            persist.wf(),
            persist@.messages == old(persist)@.messages,
            old_rows == old(persist)@.rows,
            n == persist@.messages.len(),
            recorded(persist@.rows, failures@, old_rows, n, id.0, results@, i as int),
        decreases results.len() - i,
    {
        record_one(persist, id, &results, i, &mut failures, Ghost(old_rows));
        i += 1;
    }
    assert(results@.take(i as int) =~= results@);
    if failures.len() == 0 {
        proof {
            reveal(names_failed);
            reveal(names_only);
        }
        Ok(())
    } else {
        Err(RelayError::Portals(failures))
    }
}

/// Aggregates the outcomes of one event's fan-out: `Ok` when every portal
/// succeeded, else every failed portal, by name, in order.
pub fn collect_failures(results: Vec<(PortalId, Result<(), PortalFault>)>) -> (r: Result<(), RelayError>)
    ensures
        r is Ok <==> forall|k: int| 0 <= k < results.len() ==> (#[trigger] results[k]).1 is Ok,
        r is Err ==> r->Err_0 is Portals && r->Err_0->Portals_0@.map_values(|f: PortalFailure| f.portal)
            == results@.filter(|x: (PortalId, Result<(), PortalFault>)| x.1 is Err).map_values(
            |x: (PortalId, Result<(), PortalFault>)| x.0,
        ),
{
    let mut failures: Vec<PortalFailure> = Vec::new();
    let mut i: usize = 0;
    while i < results.len()
        invariant
            i <= results.len(),
            failures@.map_values(|f: PortalFailure| f.portal) == results@.take(i as int).filter(
                |x: (PortalId, Result<(), PortalFault>)| x.1 is Err,
            ).map_values(|x: (PortalId, Result<(), PortalFault>)| x.0),
            failures.len() == 0 <==> forall|k: int| 0 <= k < i ==> (#[trigger] results[k]).1 is Ok,
        decreases results.len() - i,
    {
        let ghost fl = failures@;
        match &results[i].1 {
            Ok(()) => {},
            Err(fault) => {
                failures.push(PortalFailure { portal: results[i].0, fault: fault.clone() });
            },
        }
        proof {
            reveal(Seq::filter);
            let pred = |x: (PortalId, Result<(), PortalFault>)| x.1 is Err;
            let pre = results@.take(i as int);
            let post = results@.take(i + 1);
            assert(post.drop_last() =~= pre);
            assert(post.last() == results[i as int]);
            let fm = |f: PortalFailure| f.portal;
            let xm = |x: (PortalId, Result<(), PortalFault>)| x.0;
            assert(fl.map_values(fm) == pre.filter(pred).map_values(xm));
            if results[i as int].1 is Err {
                assert(post.filter(pred) == pre.filter(pred).push(results[i as int]));
                assert(failures@.drop_last() == fl && failures@.last().portal == results[i as int].0);
                assert(failures@.map_values(fm) =~= fl.map_values(fm).push(results[i as int].0));
                assert(post.filter(pred).map_values(xm) =~= pre.filter(pred).map_values(xm).push(results[i as int].0));
            } else {
                assert(post.filter(pred) == pre.filter(pred));
                assert(failures@ == fl);
            }
            assert(failures@.map_values(fm) =~= post.filter(pred).map_values(xm));
        }
        i += 1;
    }
    assert(results@.take(i as int) =~= results@);
    if failures.len() == 0 {
        Ok(())
    } else {
        Err(RelayError::Portals(failures))
    }
}

/// How many extern ids the answers returned in all.
pub open spec fn returned_count(results: Seq<SendResult>) -> nat
    decreases results.len(),
{
    if results.len() == 0 {
        0
    } else {
        (returned_count(results.drop_last()) + match results.last().1 {
            Ok(ids) => ids.len() as nat,
            Err(_) => 0nat,
        }) as nat
    }
}

/// None of `new` is a row of `rows`, and no row occurs twice in `new`.
pub open spec fn fresh_rows(rows: Seq<RowView>, new: Seq<RowView>) -> bool {
    &&& forall|i: int| 0 <= i < new.len() ==> !rows.contains(#[trigger] new[i])
    &&& forall|i: int, j: int| 0 <= i < j < new.len() ==> (#[trigger] new[i]) != (#[trigger] new[j])
}

proof fn lemma_apply_fresh(rows: Seq<RowView>, n: nat, new: Seq<RowView>)
    requires
        fresh_rows(rows, new),
        forall|i: int| 0 <= i < new.len() ==> 1 <= (#[trigger] new[i]).0 <= n,
    ensures
        apply_rows(rows, n, new) == rows + new,
    decreases new.len(),
{
    if new.len() > 0 {
        let pre = new.drop_last();
        assert forall|i: int, j: int| 0 <= i < j < pre.len() implies (#[trigger] pre[i]) != (
        #[trigger] pre[j]) by {
            assert(pre[i] == new[i] && pre[j] == new[j]);
        }
        assert forall|i: int| 0 <= i < pre.len() implies !rows.contains(#[trigger] pre[i]) by {
            assert(pre[i] == new[i]);
        }
        lemma_apply_fresh(rows, n, pre);
        let x = new.last();
        let r0 = rows + pre;
        if r0.contains(x) {
            let i = choose|i: int| 0 <= i < r0.len() && r0[i] == x;
            if i < rows.len() {
                assert(rows[i] == r0[i]);
                assert(rows.contains(new[new.len() - 1]));
            } else {
                assert(r0[i] == new[i - rows.len()]);
            }
        }
        assert(rows + new =~= r0.push(x));
    }
}

proof fn lemma_returned_len(id: u64, results: Seq<SendResult>)
    ensures
        returned_rows(id, results).len() == returned_count(results),
        forall|i: int| 0 <= i < returned_rows(id, results).len() ==> (#[trigger] returned_rows(id, results)[i]).0 == id,
    decreases results.len(),
{
    if results.len() > 0 {
        lemma_returned_len(id, results.drop_last());
        let pre = returned_rows(id, results.drop_last());
        let all = returned_rows(id, results);
        assert forall|i: int| 0 <= i < all.len() implies (#[trigger] all[i]).0 == id by {
            if i >= pre.len() {
                assert(all[i] == (all.subrange(pre.len() as int, all.len() as int))[i - pre.len()]);
            } else {
                assert(all[i] == pre[i]);
            }
        }
    }
}

/// Recording the answers of a fan-out for a message that the store knows
/// creates exactly one mapping row per returned extern id, on the portal that
/// returned it, as long as those ids are new to the store and to each other:
/// the rows created count as many as the ids returned.
pub proof fn lemma_one_row_per_returned_id(rows: Seq<RowView>, n: nat, id: u64, results: Seq<SendResult>)
    requires
        1 <= id <= n,
        fresh_rows(rows, returned_rows(id, results)),
    ensures
        apply_rows(rows, n, returned_rows(id, results)) == rows + returned_rows(id, results),
        apply_rows(rows, n, returned_rows(id, results)).len() - rows.len() == returned_count(results),
{
    lemma_returned_len(id, results);
    lemma_apply_fresh(rows, n, returned_rows(id, results));
}

/// Once a deletion has forgotten the mirrors of the message that `ext` stands
/// for on `portal`, looking `ext` up again finds nothing: a repeated deletion
/// ends in `NotFound`. This holds where `ext` stands for one message on
/// `portal`, as a platform's ids do.
pub proof fn lemma_delete_twice_not_found(rows: Seq<RowView>, ext: Seq<char>, portal: u64)
    requires
        crate::store::maps_to_one(rows, ext, portal),
        lookup(rows, ext, portal) is Some,
    ensures
        lookup(without(rows, lookup(rows, ext, portal)->0), ext, portal) is None,
{
    let id = lookup(rows, ext, portal)->0;
    let w = without(rows, id);
    crate::store::lemma_lookup_none(rows, ext, portal);
    crate::store::lemma_lookup_none(w, ext, portal);
    if is_mapped(w, ext, portal) {
        let i = choose|i: int| 0 <= i < w.len() && (#[trigger] w[i]).1 == ext && w[i].2 == portal;
        broadcast use vstd::seq_lib::group_filter_ensures;
        assert(w.contains(w[i]));
        rows.lemma_filter_pred(crate::store::not_of(id), i);
        assert(w[i].0 != id);
        rows.lemma_filter_contains_rev(crate::store::not_of(id), w[i]);
        assert(rows.contains(w[i]));
        let j = choose|j: int| 0 <= j < rows.len() && rows[j] == w[i];
        let k = choose|k: int|
            0 <= k < rows.len() && (#[trigger] rows[k]).1 == ext && rows[k].2 == portal && rows[k].0 == id;
        assert(rows[j].1 == ext && rows[j].2 == portal && rows[j].0 != id);
    }
}

/// When a fan-out's answers return ids that are new to the store, a portal
/// that fails costs only its own delivery: every other portal keeps a mapping
/// row for each id it returned, and the aggregated error names exactly the
/// failed portals, each with its reason.
pub proof fn lemma_partial_failure_isolated(
    rows: Seq<RowView>,
    n: nat,
    id: u64,
    results: Seq<SendResult>,
    after: Seq<RowView>,
    fs: Seq<PortalFailure>,
)
    requires
        1 <= id <= n,
        fresh_rows(rows, returned_rows(id, results)),
        after == apply_rows(rows, n, returned_rows(id, results)),
        names_failed(results, results.len() as int, fs),
        names_only(results, results.len() as int, fs),
        only_failed(fs) || after.len() < rows.len() + returned_rows(id, results).len(),
    ensures
        after == rows + returned_rows(id, results),
        forall|k: int|
            0 <= k < results.len() && (#[trigger] results[k]).1 is Err ==> exists|f: int|
                0 <= f < fs.len() && (#[trigger] fs[f]).portal == results[k].0 && fs[f].fault is Failed,
        forall|f: int|
            0 <= f < fs.len() ==> (#[trigger] fs[f]).fault is Failed && exists|k: int|
                0 <= k < results.len() && (#[trigger] results[k]).0 == fs[f].portal && results[k].1 is Err,
{
    lemma_one_row_per_returned_id(rows, n, id, results);
    reveal(names_failed);
    reveal(names_only);
}

} // verus!
