//! The identity mapping store: internal message ids and, per portal, the
//! platform ids of their mirrors.

use vstd::prelude::*;
use crate::model::{ExternMessageId, Message, MessageId, PortalId};

verus! {

/// Where the store is kept between runs.
pub struct PersistSettings<'a> {
    pub db_name: &'a str,
}

/// One mirror: internal message `internal` is `external` on `portal`.
#[derive(Clone, Debug)]
pub struct MappingRow {
    pub internal: MessageId,
    pub external: ExternMessageId,
    pub portal: PortalId,
}

/// A mapping row as a value: internal id, extern id, portal.
pub type RowView = (u64, Seq<char>, u64);

pub open spec fn row_view(r: MappingRow) -> RowView {
    (r.internal.0, r.external@, r.portal.0)
}

/// Why the store refused an operation.
#[derive(Clone, Copy, Debug, PartialEq, Eq, Structural)]
pub enum StoreError {
    /// No row matches the lookup.
    NotFound,
    /// The row would refer to a message the store never allocated.
    UnknownMessage,
    /// The extern id is already mapped on that portal.
    Conflict,
    /// No internal id is left to allocate.
    Exhausted,
}

/// The contents of the store: `messages[i]` says whether message `i + 1`
/// carried attachments; `rows` are the mappings in insertion order.
pub struct PersistView {
    pub messages: Seq<bool>,
    pub rows: Seq<RowView>,
}

/// The mapping store. Internal ids count up from 1 and are never reused.
/// It keeps its rows in memory; `db_name` names where a caller keeps a
/// durable copy of them.
pub struct Persist {
    db_name: String,
    messages: Vec<bool>,
    rows: Vec<MappingRow>,
}

/// The first internal id mapped to `ext` on `portal`, if any.
pub open spec fn lookup(rows: Seq<RowView>, ext: Seq<char>, portal: u64) -> Option<u64>
    decreases rows.len(),
{
    if rows.len() == 0 {
        None
    } else if rows[0].1 == ext && rows[0].2 == portal {
        Some(rows[0].0)
    } else {
        lookup(rows.drop_first(), ext, portal)
    }
}

/// The extern ids of the mirrors of `id` on `portal`, in insertion order.
pub open spec fn mirrors(rows: Seq<RowView>, id: u64, portal: u64) -> Seq<Seq<char>>
    decreases rows.len(),
{
    if rows.len() == 0 {
        Seq::empty()
    } else {
        mirrors(rows.drop_last(), id, portal) + if rows.last().0 == id && rows.last().2 == portal {
            seq![rows.last().1]
        } else {
            Seq::empty()
        }
    }
}

/// Whether `ext` is mapped on `portal` at all.
pub open spec fn is_mapped(rows: Seq<RowView>, ext: Seq<char>, portal: u64) -> bool {
    exists|i: int| 0 <= i < rows.len() && (#[trigger] rows[i]).1 == ext && rows[i].2 == portal
}

/// `rows` without those of internal id `id`.
pub open spec fn without(rows: Seq<RowView>, id: u64) -> Seq<RowView> {
    rows.filter(not_of(id))
}

/// Whether a row belongs to another message than `id`.
pub open spec fn not_of(id: u64) -> spec_fn(RowView) -> bool {
    |r: RowView| r.0 != id
}

/// Well-formedness of the contents: every row names an allocated message,
/// and no row appears twice.
pub open spec fn contents_wf(v: PersistView) -> bool {
    rows_known(v.rows, v.messages.len()) && rows_unique(v.rows)
}

/// Every row names one of the first `n` internal ids.
pub open spec fn rows_known(rows: Seq<RowView>, n: nat) -> bool {
    forall|i: int| 0 <= i < rows.len() ==> 1 <= (#[trigger] rows[i]).0 <= n
}

/// No row appears twice: a row is keyed by its internal id, extern id and
/// portal together.
pub open spec fn rows_unique(rows: Seq<RowView>) -> bool {
    forall|i: int, j: int| 0 <= i < j < rows.len() ==> (#[trigger] rows[i]) != (#[trigger] rows[j])
}

impl View for Persist {
    type V = PersistView;

    closed spec fn view(&self) -> PersistView {
        PersistView {
            messages: self.messages@,
            rows: self.rows@.map_values(|r: MappingRow| row_view(r)),
        }
    }
}

pub(crate) proof fn lemma_lookup_none(rows: Seq<RowView>, ext: Seq<char>, portal: u64)
    ensures
        lookup(rows, ext, portal) is None <==> !is_mapped(rows, ext, portal),
        lookup(rows, ext, portal) is Some ==> exists|i: int|
            0 <= i < rows.len() && (#[trigger] rows[i]).1 == ext && rows[i].2 == portal
                && rows[i].0 == lookup(rows, ext, portal)->0,
    decreases rows.len(),
{
    if rows.len() > 0 {
        lemma_lookup_none(rows.drop_first(), ext, portal);
        if !(rows[0].1 == ext && rows[0].2 == portal) {
            if is_mapped(rows, ext, portal) {
                let i = choose|i: int|
                    0 <= i < rows.len() && (#[trigger] rows[i]).1 == ext && rows[i].2 == portal;
                assert(rows.drop_first()[i - 1] == rows[i]);
            }
            if lookup(rows, ext, portal) is Some {
                let i = choose|i: int|
                    0 <= i < rows.len() - 1 && (#[trigger] rows.drop_first()[i]).1 == ext
                        && rows.drop_first()[i].2 == portal && rows.drop_first()[i].0 == lookup(
                        rows,
                        ext,
                        portal,
                    )->0;
                assert(rows[i + 1] == rows.drop_first()[i]);
            }
        } else {
            assert(rows[0].1 == ext);
        }
    }
}

/// All rows that map `ext` on `portal` belong to one message.
pub open spec fn maps_to_one(rows: Seq<RowView>, ext: Seq<char>, portal: u64) -> bool {
    forall|i: int, j: int|
        0 <= i < rows.len() && 0 <= j < rows.len() && (#[trigger] rows[i]).1 == ext && rows[i].2 == portal
            && (#[trigger] rows[j]).1 == ext && rows[j].2 == portal ==> rows[i].0 == rows[j].0
}

proof fn lemma_lookup_row(rows: Seq<RowView>, ext: Seq<char>, portal: u64)
    ensures
        lookup(rows, ext, portal) is None <==> !is_mapped(rows, ext, portal),
        lookup(rows, ext, portal) is Some ==> rows.contains((lookup(rows, ext, portal)->0, ext, portal)),
        maps_to_one(rows, ext, portal) ==> forall|i: u64|
            #![trigger rows.contains((i, ext, portal))]
            rows.contains((i, ext, portal)) ==> lookup(rows, ext, portal) == Some(i),
{
    lemma_lookup_none(rows, ext, portal);
    if lookup(rows, ext, portal) is Some {
        let k = choose|k: int|
            0 <= k < rows.len() && (#[trigger] rows[k]).1 == ext && rows[k].2 == portal && rows[k].0
                == lookup(rows, ext, portal)->0;
        assert(rows[k] == (lookup(rows, ext, portal)->0, ext, portal));
    }
    if maps_to_one(rows, ext, portal) {
        assert forall|i: u64| #![trigger rows.contains((i, ext, portal))] rows.contains((i, ext, portal))
            implies lookup(rows, ext, portal) == Some(i) by {
            let j = choose|j: int| 0 <= j < rows.len() && rows[j] == (i, ext, portal);
            assert(is_mapped(rows, ext, portal));
            let k = choose|k: int|
                0 <= k < rows.len() && (#[trigger] rows[k]).1 == ext && rows[k].2 == portal && rows[k].0
                    == lookup(rows, ext, portal)->0;
            assert(rows[j].1 == ext && rows[j].2 == portal);
        }
    }
}

impl Persist {
    pub open spec fn wf(&self) -> bool {
        contents_wf(self@)
    }

    pub closed spec fn db_name_view(&self) -> Seq<char> {
        self.db_name@
    }

    /// Where the durable copy of the store is kept.
    pub fn db_name(&self) -> (r: &str)
        ensures
            r@ == self.db_name_view(),
    {
        self.db_name.as_str()
    }

    /// An empty store for the given settings.
    pub fn init(settings: PersistSettings) -> (r: Persist)
        ensures
            r.wf(),
            r@.messages.len() == 0,
            r@.rows.len() == 0,
            r.db_name_view() == settings.db_name@,
    {
        let r = Persist { db_name: settings.db_name.to_string(), messages: Vec::new(), rows: Vec::new() };
        assert(r@.rows =~= Seq::<RowView>::empty());
        r
    }

    /// Allocates the next internal id for `msg`, recording whether it
    /// carries attachments.
    pub fn insert_message(&mut self, msg: &Message) -> (r: Result<MessageId, StoreError>)
        requires
            old(self).wf(),
        ensures
            final(self).wf(),
            old(self)@.messages.len() < u64::MAX ==> r is Ok,
            r is Err ==> r == Err::<MessageId, StoreError>(StoreError::Exhausted) && final(self)@ == old(self)@,
            r is Ok ==> {
                &&& r->Ok_0.0 == old(self)@.messages.len() + 1
                &&& final(self)@.messages == old(self)@.messages.push(msg.1.attachments.len() > 0)
                &&& final(self)@.rows == old(self)@.rows
            },
    {
        let n = self.messages.len();
        if n as u64 >= u64::MAX {
            return Err(StoreError::Exhausted);
        }
        let ghost rows = self@.rows;
        self.messages.push(msg.1.attachments.len() > 0);
        assert(self@.rows == rows);
        Ok(MessageId(n as u64 + 1))
    }

    /// Records that message `id` is `ext_id` on `portal`.
    pub fn add_message_mapping(&mut self, id: MessageId, portal: PortalId, ext_id: ExternMessageId) -> (r: Result<(), StoreError>)
        requires
            old(self).wf(),
        ensures
            final(self).wf(),
            final(self)@.messages == old(self)@.messages,
            !(1 <= id.0 <= old(self)@.messages.len()) ==> r == Err::<(), StoreError>(StoreError::UnknownMessage),
            1 <= id.0 <= old(self)@.messages.len() && old(self)@.rows.contains((id.0, ext_id@, portal.0))
                ==> r == Err::<(), StoreError>(StoreError::Conflict),
            r is Ok <==> 1 <= id.0 <= old(self)@.messages.len() && !old(self)@.rows.contains(
                (id.0, ext_id@, portal.0),
            ),
            r is Ok ==> final(self)@.rows == old(self)@.rows.push((id.0, ext_id@, portal.0)),
            r is Err ==> final(self)@.rows == old(self)@.rows,
    {
        if id.0 == 0 || id.0 > self.messages.len() as u64 {
            return Err(StoreError::UnknownMessage);
        }
        let ghost rows = self@.rows;
        let mut i: usize = 0;
        while i < self.rows.len()
            invariant
                i <= self.rows.len(),
                rows == self@.rows,
                self@ == old(self)@,
                self.wf(),
                1 <= id.0 <= self@.messages.len(),
                rows.len() == self.rows.len(),
                forall|j: int| 0 <= j < i ==> (#[trigger] rows[j]) != (id.0, ext_id@, portal.0),
            decreases self.rows.len() - i,
        {
            assert(rows[i as int] == row_view(self.rows[i as int]));
            if self.rows[i].internal.0 == id.0 && self.rows[i].portal.0 == portal.0
                && self.rows[i].external == ext_id {
                assert(rows[i as int] == (id.0, ext_id@, portal.0));
                return Err(StoreError::Conflict);
            }
            i += 1;
        }
        assert(!rows.contains((id.0, ext_id@, portal.0)));
        let ghost old_view = self@;
        self.rows.push(MappingRow { internal: id, external: ext_id, portal });
        assert(self@.rows =~= rows.push((id.0, ext_id@, portal.0)));
        Ok(())
    }

    /// The internal id that `ext_id` stands for on `portal`: that of the
    /// oldest row mapping it; `NotFound` where no row does.
    pub fn get_message_id(&self, ext_id: ExternMessageId, portal: PortalId) -> (r: Result<MessageId, StoreError>)
        requires
            self.wf(),
        ensures
            match lookup(self@.rows, ext_id@, portal.0) {
                Some(id) => r == Ok::<MessageId, StoreError>(MessageId(id)),
                None => r == Err::<MessageId, StoreError>(StoreError::NotFound),
            },
            r is Err <==> !is_mapped(self@.rows, ext_id@, portal.0),
            r is Ok ==> self@.rows.contains((r->Ok_0.0, ext_id@, portal.0)),
            maps_to_one(self@.rows, ext_id@, portal.0) ==> forall|i: u64|
                #![trigger self@.rows.contains((i, ext_id@, portal.0))]
                r == Ok::<MessageId, StoreError>(MessageId(i)) <==> self@.rows.contains((i, ext_id@, portal.0)),
    {
        let ghost e = ext_id@;
        let r = self.find_message_id(ext_id, portal);
        proof {
            lemma_lookup_row(self@.rows, e, portal.0);
        }
        r
    }

    fn find_message_id(&self, ext_id: ExternMessageId, portal: PortalId) -> (r: Result<MessageId, StoreError>)
        requires
            self.wf(),
        ensures
            match lookup(self@.rows, ext_id@, portal.0) {
                Some(id) => r == Ok::<MessageId, StoreError>(MessageId(id)),
                None => r == Err::<MessageId, StoreError>(StoreError::NotFound),
            },
    {
        let ghost rows = self@.rows;
        assert(rows.skip(0) =~= rows);
        let mut i: usize = 0;
        while i < self.rows.len()
            invariant
                i <= self.rows.len(),
                rows == self@.rows,
                rows.len() == self.rows.len(),
                lookup(rows, ext_id@, portal.0) == lookup(rows.skip(i as int), ext_id@, portal.0),
            decreases self.rows.len() - i,
        {
            assert(rows[i as int] == row_view(self.rows[i as int]));
            assert(rows.skip(i as int).drop_first() =~= rows.skip(i + 1));
            if self.rows[i].portal.0 == portal.0 && self.rows[i].external == ext_id {
                return Ok(self.rows[i].internal);
            }
            i += 1;
        }
        assert(rows.skip(i as int).len() == 0);
        Err(StoreError::NotFound)
    }

    /// The extern ids of every mirror of `id` on `portal`, oldest first.
    pub fn get_messages_for_portal(&self, id: MessageId, portal: PortalId) -> (r: Vec<ExternMessageId>)
        ensures
            r@.map_values(|s: String| s@) == mirrors(self@.rows, id.0, portal.0),
    {
        let ghost rows = self@.rows;
        let mut out: Vec<ExternMessageId> = Vec::new();
        let mut i: usize = 0;
        while i < self.rows.len()
            invariant
                i <= self.rows.len(),
                rows == self@.rows,
                rows.len() == self.rows.len(),
                out@.map_values(|s: String| s@) == mirrors(rows.take(i as int), id.0, portal.0),
            decreases self.rows.len() - i,
        {
            assert(rows[i as int] == row_view(self.rows[i as int]));
            assert(rows.take(i + 1).drop_last() =~= rows.take(i as int));
            if self.rows[i].internal.0 == id.0 && self.rows[i].portal.0 == portal.0 {
                out.push(self.rows[i].external.clone());
            }
            i += 1;
            assert(out@.map_values(|s: String| s@) =~= mirrors(rows.take(i as int), id.0, portal.0));
        }
        assert(rows.take(i as int) =~= rows);
        out
    }

    /// Forgets every mirror of `id`, on every portal.
    pub fn remove_message_mappings(&mut self, id: MessageId)
        requires
            old(self).wf(),
        ensures
            final(self).wf(),
            final(self)@.messages == old(self)@.messages,
            final(self)@.rows == without(old(self)@.rows, id.0),
    {
        let ghost rows = self@.rows;
        let ghost msgs = self@.messages;
        let mut kept: Vec<MappingRow> = Vec::new();
        let mut i: usize = 0;
        while i < self.rows.len()
            invariant
                i <= self.rows.len(),
                rows == self@.rows,
                msgs == self@.messages,
                contents_wf(self@),
                rows.len() == self.rows.len(),
                kept@.map_values(|r: MappingRow| row_view(r)) == without(rows.take(i as int), id.0),
                forall|k: int|
                    0 <= k < kept.len() ==> exists|j: int|
                        0 <= j < i && #[trigger] row_view(kept@[k]) == rows[j],
                rows_known(kept@.map_values(|r: MappingRow| row_view(r)), msgs.len()),
                rows_unique(kept@.map_values(|r: MappingRow| row_view(r))),
            decreases self.rows.len() - i,
        {
            assert(rows[i as int] == row_view(self.rows[i as int]));
            assert(rows.take(i + 1).drop_last() =~= rows.take(i as int));
            reveal(Seq::filter);
            if self.rows[i].internal.0 != id.0 {
                let ghost before = kept@;
                let r = &self.rows[i];
                kept.push(MappingRow { internal: r.internal, external: r.external.clone(), portal: r.portal });
                proof {
                    let kv = kept@.map_values(|r: MappingRow| row_view(r));
                    assert(kv.last() == rows[i as int]);
                    assert forall|k: int| 0 <= k < kept.len() implies exists|j: int|
                        0 <= j < i + 1 && #[trigger] row_view(kept@[k]) == rows[j] by {
                        if k == kept.len() - 1 {
                            assert(row_view(kept@[k]) == rows[i as int]);
                        } else {
                            assert(kept@[k] == before[k]);
                        }
                    }
                    assert forall|a: int, b: int| 0 <= a < b < kv.len() implies (#[trigger] kv[a])
                        != (#[trigger] kv[b]) by {
                        let bv = before.map_values(|r: MappingRow| row_view(r));
                        if b == kv.len() - 1 {
                            assert(kept@[a] == before[a]);
                            let j = choose|j: int| 0 <= j < i && #[trigger] row_view(before[a]) == rows[j];
                            assert(rows[j] == kv[a]);
                            assert(kv[b] == rows[i as int]);
                            assert(contents_wf(self@));
                            assert(self@.rows == rows);
                            assert(rows[j] != rows[i as int]);
                        } else {
                            assert(kept@[a] == before[a]);
                            assert(kept@[b] == before[b]);
                            assert(kv[a] == bv[a]);
                            assert(kv[b] == bv[b]);
                            assert(bv[a] != bv[b]);
                        }
                    }
                    assert forall|a: int| 0 <= a < kv.len() implies 1 <= (#[trigger] kv[a]).0 <= msgs.len() by {
                        if a < kv.len() - 1 {
                            assert(kept@[a] == before[a]);
                        }
                    }
                }
            }
            i += 1;
            assert(kept@.map_values(|r: MappingRow| row_view(r)) =~= without(rows.take(i as int), id.0));
        }
        assert(rows.take(i as int) =~= rows);
        self.rows = kept;
    }
}

} // verus!
