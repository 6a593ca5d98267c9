use discogram::model::{
    ForwardInfo, Author, Event, EventKind, File, FileData, FileKind, Message, MessageData, MessageId,
    MessageMeta, PortalId, Reaction, RichText,
};
use discogram::relay::{
    collect_failures, plan_action, plan_event, plan_message, record_deliveries, Action, Plan,
    PortalFault, PortalFailure, RelayError,
};
use discogram::store::{Persist, PersistSettings, StoreError};

fn author(name: &str) -> Author {
    Author { username: name.to_string(), display_name: None, pfp: None }
}

fn data(text: &str) -> MessageData {
    MessageData {
        author: author("ada"),
        content: RichText::Plain(text.to_string()),
        attachments: Vec::new(),
        forwarded_from: None,
    }
}

fn message(text: &str, reply_to: Option<(&str, MessageData)>) -> Message {
    Message(MessageMeta { reply_to: reply_to.map(|(e, d)| (e.to_string(), d)) }, data(text))
}

fn store() -> Persist {
    Persist::init(PersistSettings { db_name: "bridge.db" })
}

fn portals(n: u64) -> Vec<PortalId> {
    (0..n).map(PortalId).collect()
}

fn ids(v: &[&str]) -> Vec<String> {
    v.iter().map(|s| s.to_string()).collect()
}

/// Relays "hello" from portal 0 as its message `s1`, mirrored as `t1` on
/// portal 1 and `d1` on portal 2.
fn relayed_hello(p: &mut Persist) -> MessageId {
    let plan = plan_message(p, &portals(3), PortalId(0), "s1".to_string(), message("hello", None)).unwrap();
    record_deliveries(
        p,
        plan.id,
        vec![(PortalId(1), Ok(ids(&["t1"]))), (PortalId(2), Ok(ids(&["d1"])))],
    )
    .unwrap();
    plan.id
}

#[test]
fn new_message_goes_to_every_other_portal() {
    let mut p = store();
    let plan = plan_message(&mut p, &portals(3), PortalId(1), "x".to_string(), message("hi", None)).unwrap();
    assert_eq!(plan.id, MessageId(1));
    let targets: Vec<PortalId> = plan.deliveries.iter().map(|d| d.portal).collect();
    assert_eq!(targets, vec![PortalId(0), PortalId(2)]);
    for d in &plan.deliveries {
        assert_eq!(d.message.0.reply_to, None);
        assert_eq!(d.message.1.content, RichText::Plain("hi".to_string()));
    }
    assert_eq!(p.get_message_id("x".to_string(), PortalId(1)), Ok(MessageId(1)));
}

#[test]
fn reply_refers_to_each_targets_mirror() {
    let mut p = store();
    let first = relayed_hello(&mut p);
    assert_eq!(first, MessageId(1));
    let plan = plan_message(
        &mut p,
        &portals(3),
        PortalId(0),
        "s2".to_string(),
        message("reply", Some(("s1", data("hello")))),
    )
    .unwrap();
    assert_eq!(plan.id, MessageId(2));
    assert_eq!(plan.deliveries.len(), 2);
    let r1 = plan.deliveries[0].message.0.reply_to.as_ref().unwrap();
    assert_eq!((plan.deliveries[0].portal, r1.0.as_str()), (PortalId(1), "t1"));
    let r2 = plan.deliveries[1].message.0.reply_to.as_ref().unwrap();
    assert_eq!((plan.deliveries[1].portal, r2.0.as_str()), (PortalId(2), "d1"));
    assert_eq!(plan.deliveries[0].message.1.content, RichText::Plain("reply".to_string()));
}

#[test]
fn reply_to_unknown_message_is_quoted_inline() {
    let mut p = store();
    let plan = plan_message(
        &mut p,
        &portals(2),
        PortalId(0),
        "s9".to_string(),
        message("answer", Some(("gone", data("question")))),
    )
    .unwrap();
    let d = &plan.deliveries[0];
    assert_eq!(d.message.0.reply_to, None);
    assert_eq!(
        d.message.1.content,
        RichText::Sequence(vec![
            RichText::Blockquote(Box::new(RichText::Plain("question".to_string()))),
            RichText::Plain("answer".to_string()),
        ])
    );
}

#[test]
fn repeated_source_id_gets_a_new_message() {
    let mut p = store();
    relayed_hello(&mut p);
    let plan = plan_message(&mut p, &portals(3), PortalId(0), "s1".to_string(), message("again", None)).unwrap();
    assert_eq!(plan.id, MessageId(2));
    assert_eq!(p.get_messages_for_portal(MessageId(2), PortalId(0)), ids(&["s1"]));
    assert_eq!(p.get_message_id("s1".to_string(), PortalId(0)), Ok(MessageId(1)));
}

#[test]
fn one_row_per_returned_id() {
    let mut p = store();
    let plan = plan_message(&mut p, &portals(3), PortalId(0), "s1".to_string(), message("pics", None)).unwrap();
    let r = record_deliveries(
        &mut p,
        plan.id,
        vec![(PortalId(1), Ok(ids(&["a", "b", "c"]))), (PortalId(2), Ok(ids(&["d"])))],
    );
    assert_eq!(r, Ok(()));
    assert_eq!(p.get_messages_for_portal(plan.id, PortalId(1)), ids(&["a", "b", "c"]));
    assert_eq!(p.get_messages_for_portal(plan.id, PortalId(2)), ids(&["d"]));
    assert_eq!(p.get_messages_for_portal(plan.id, PortalId(0)), ids(&["s1"]));
}

#[test]
fn failed_portal_is_named_and_others_keep_their_rows() {
    let mut p = store();
    let plan = plan_message(&mut p, &portals(4), PortalId(0), "s1".to_string(), message("m", None)).unwrap();
    let r = record_deliveries(
        &mut p,
        plan.id,
        vec![
            (PortalId(1), Ok(ids(&["a"]))),
            (PortalId(2), Err("forbidden".to_string())),
            (PortalId(3), Ok(ids(&["c"]))),
        ],
    );
    assert_eq!(
        r,
        Err(RelayError::Portals(vec![PortalFailure {
            portal: PortalId(2),
            fault: PortalFault::Failed("forbidden".to_string()),
        }]))
    );
    assert_eq!(p.get_messages_for_portal(plan.id, PortalId(1)), ids(&["a"]));
    assert_eq!(p.get_messages_for_portal(plan.id, PortalId(2)), Vec::<String>::new());
    assert_eq!(p.get_messages_for_portal(plan.id, PortalId(3)), ids(&["c"]));
}

#[test]
fn duplicate_returned_id_is_refused() {
    let mut p = store();
    let plan = plan_message(&mut p, &portals(2), PortalId(0), "s1".to_string(), message("m", None)).unwrap();
    let r = record_deliveries(&mut p, plan.id, vec![(PortalId(1), Ok(ids(&["a", "a"])))]);
    assert_eq!(
        r,
        Err(RelayError::Portals(vec![PortalFailure {
            portal: PortalId(1),
            fault: PortalFault::Store(StoreError::Conflict),
        }]))
    );
    assert_eq!(p.get_messages_for_portal(plan.id, PortalId(1)), ids(&["a"]));
}

#[test]
fn delete_twice_is_not_found() {
    let mut p = store();
    relayed_hello(&mut p);
    let event = Event { author_id: "u".to_string(), msg_id: "s1".to_string(), kind: EventKind::MessageDelete };
    match plan_event(&mut p, &portals(3), PortalId(0), event.clone()) {
        Ok(Plan::Actions(actions)) => {
            assert_eq!(actions.len(), 2);
            match &actions[0].action {
                Some(Action::Delete(v)) => assert_eq!(v, &ids(&["t1"])),
                other => panic!("unexpected action {:?}", other),
            }
            match &actions[1].action {
                Some(Action::Delete(v)) => assert_eq!(v, &ids(&["d1"])),
                other => panic!("unexpected action {:?}", other),
            }
        }
        other => panic!("unexpected plan {:?}", other),
    }
    assert_eq!(plan_event(&mut p, &portals(3), PortalId(0), event).err(), Some(RelayError::NotFound));
    assert_eq!(p.get_message_id("t1".to_string(), PortalId(1)), Err(StoreError::NotFound));
}

#[test]
fn edits_and_reactions_target_the_first_mirror() {
    let mut p = store();
    relayed_hello(&mut p);
    let edit = EventKind::MessageEdit { from: None, to: message("hello!", None) };
    let actions = plan_action(&mut p, &portals(3), PortalId(1), "t1".to_string(), edit).unwrap();
    let targets: Vec<PortalId> = actions.iter().map(|a| a.portal).collect();
    assert_eq!(targets, vec![PortalId(0), PortalId(2)]);
    match &actions[0].action {
        Some(Action::Edit { id, to, .. }) => {
            assert_eq!(id, "s1");
            assert_eq!(to.1.content, RichText::Plain("hello!".to_string()));
        }
        other => panic!("unexpected action {:?}", other),
    }
    let reaction = Reaction { author: author("bo"), content: "👍".to_string() };
    let actions = plan_action(&mut p, &portals(3), PortalId(0), "s1".to_string(), EventKind::ReactionAdd(reaction.clone())).unwrap();
    match &actions[1].action {
        Some(Action::ReactionAdd { id, reaction: r }) => {
            assert_eq!(id, "d1");
            assert_eq!(r.content, "👍");
        }
        other => panic!("unexpected action {:?}", other),
    }
    let actions = plan_action(&mut p, &portals(3), PortalId(0), "s1".to_string(), EventKind::ReactionRemove(reaction)).unwrap();
    assert!(matches!(&actions[0].action, Some(Action::ReactionRemove { id, .. }) if id == "t1"));
    assert_eq!(p.get_message_id("s1".to_string(), PortalId(0)), Ok(MessageId(1)));
}

#[test]
fn portal_without_mirror_gets_no_action() {
    let mut p = store();
    let plan = plan_message(&mut p, &portals(3), PortalId(0), "s1".to_string(), message("m", None)).unwrap();
    record_deliveries(&mut p, plan.id, vec![(PortalId(1), Ok(ids(&["t1"]))), (PortalId(2), Err("down".to_string()))]).ok();
    let actions = plan_action(&mut p, &portals(3), PortalId(0), "s1".to_string(), EventKind::MessageDelete).unwrap();
    assert!(actions[0].action.is_some());
    assert!(actions[1].action.is_none());
}

#[test]
fn unknown_message_event_is_not_found() {
    let mut p = store();
    let r = plan_action(&mut p, &portals(2), PortalId(0), "nope".to_string(), EventKind::MessageDelete);
    assert_eq!(r.err(), Some(RelayError::NotFound));
}

#[test]
fn store_operations() {
    let mut p = store();
    let with_file = Message(
        MessageMeta { reply_to: None },
        MessageData {
            author: author("a"),
            content: RichText::Plain(String::new()),
            attachments: vec![File { name: "f.png".to_string(), data: FileData::Blob(vec![1, 2]), kind: FileKind::Image }],
            forwarded_from: None,
        },
    );
    assert_eq!(p.insert_message(&with_file), Ok(MessageId(1)));
    assert_eq!(p.insert_message(&message("x", None)), Ok(MessageId(2)));
    assert_eq!(p.add_message_mapping(MessageId(3), PortalId(0), "e".to_string()), Err(StoreError::UnknownMessage));
    assert_eq!(p.add_message_mapping(MessageId(0), PortalId(0), "e".to_string()), Err(StoreError::UnknownMessage));
    assert_eq!(p.add_message_mapping(MessageId(2), PortalId(0), "e".to_string()), Ok(()));
    assert_eq!(p.add_message_mapping(MessageId(2), PortalId(0), "e".to_string()), Err(StoreError::Conflict));
    assert_eq!(p.add_message_mapping(MessageId(2), PortalId(0), "f".to_string()), Ok(()));
    assert_eq!(p.add_message_mapping(MessageId(1), PortalId(1), "e".to_string()), Ok(()));
    assert_eq!(p.get_messages_for_portal(MessageId(2), PortalId(0)), vec!["e".to_string(), "f".to_string()]);
    assert_eq!(p.get_message_id("e".to_string(), PortalId(0)), Ok(MessageId(2)));
    assert_eq!(p.get_message_id("e".to_string(), PortalId(1)), Ok(MessageId(1)));
    assert_eq!(p.get_message_id("e".to_string(), PortalId(2)), Err(StoreError::NotFound));
    p.remove_message_mappings(MessageId(2));
    assert_eq!(p.get_message_id("e".to_string(), PortalId(0)), Err(StoreError::NotFound));
    assert_eq!(p.get_message_id("e".to_string(), PortalId(1)), Ok(MessageId(1)));
    assert_eq!(p.add_message_mapping(MessageId(1), PortalId(0), "e".to_string()), Ok(()));
    assert_eq!(p.get_message_id("e".to_string(), PortalId(0)), Ok(MessageId(1)));
}

#[test]
fn failures_are_collected_by_portal() {
    assert_eq!(collect_failures(vec![(PortalId(1), Ok(())), (PortalId(2), Ok(()))]), Ok(()));
    let r = collect_failures(vec![
        (PortalId(1), Err(PortalFault::NoMirror)),
        (PortalId(2), Ok(())),
        (PortalId(3), Err(PortalFault::Failed("x".to_string()))),
    ]);
    assert_eq!(
        r,
        Err(RelayError::Portals(vec![
            PortalFailure { portal: PortalId(1), fault: PortalFault::NoMirror },
            PortalFailure { portal: PortalId(3), fault: PortalFault::Failed("x".to_string()) },
        ]))
    );
}

#[test]
fn store_remembers_its_database_name() {
    assert_eq!(store().db_name(), "bridge.db");
}

#[test]
fn delivered_message_carries_the_whole_data() {
    let mut p = store();
    relayed_hello(&mut p);
    let mut m = message("look", Some(("s1", data("hello"))));
    m.1.author = Author { username: "cy".to_string(), display_name: Some("Cy".to_string()), pfp: Some("https://p".to_string()) };
    m.1.attachments = vec![File { name: "a.bin".to_string(), data: FileData::Blob(vec![9, 8]), kind: FileKind::Document }];
    m.1.forwarded_from = Some(ForwardInfo::Name("News".to_string()));
    let plan = plan_message(&mut p, &portals(3), PortalId(0), "s2".to_string(), m.clone()).unwrap();
    for d in &plan.deliveries {
        assert_eq!(d.message.1, m.1);
        assert_eq!(d.message.0.reply_to.as_ref().unwrap().1, data("hello"));
    }
}

#[test]
fn edit_and_reaction_carry_the_event_data() {
    let mut p = store();
    relayed_hello(&mut p);
    let from = message("hello", None);
    let to = message("hello, all", Some(("s0", data("before"))));
    let edit = EventKind::MessageEdit { from: Some(from.clone()), to: to.clone() };
    let actions = plan_action(&mut p, &portals(3), PortalId(0), "s1".to_string(), edit).unwrap();
    match &actions[0].action {
        Some(Action::Edit { id, from: f, to: t }) => {
            assert_eq!(id, "t1");
            assert_eq!(f.as_ref(), Some(&from));
            assert_eq!(t, &to);
        }
        other => panic!("unexpected action {:?}", other),
    }
    let reaction = Reaction { author: author("dee"), content: "🎉".to_string() };
    let actions = plan_action(&mut p, &portals(3), PortalId(0), "s1".to_string(), EventKind::ReactionAdd(reaction.clone())).unwrap();
    assert!(matches!(&actions[0].action, Some(Action::ReactionAdd { reaction: r, .. }) if *r == reaction));
}
