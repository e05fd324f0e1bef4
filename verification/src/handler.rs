//! Per-container handles: thin façades over the document. Every handle
//! operation takes the owning document explicitly, so no handle outlives or
//! hides the state it edits.

use vstd::prelude::*;

use crate::container::CidView;
use crate::container::ContainerID;
use crate::container::ContainerType;
use crate::doc::ContainerIdx;
use crate::doc::LoroDoc;
use crate::error::LoroError;
use crate::id::Counter;
use crate::id::Lamport;
use crate::id::ID;
use crate::op::OcView;
use crate::op::OpView;
use crate::value::LoroValue;

verus! {

/// A handle to a text container.
#[derive(Clone, Copy, PartialEq, Eq, Structural, Debug)]
pub struct TextHandler {
    pub container_idx: ContainerIdx,
}

/// A handle to a text container addressed by rich-text conventions. Style
/// marks are not represented here; the handle edits the plain text.
#[derive(Clone, Copy, PartialEq, Eq, Structural, Debug)]
pub struct RichtextHandler {
    pub container_idx: ContainerIdx,
}

/// A handle to a map container.
#[derive(Clone, Copy, PartialEq, Eq, Structural, Debug)]
pub struct MapHandler {
    pub container_idx: ContainerIdx,
}

/// A handle to a list container.
#[derive(Clone, Copy, PartialEq, Eq, Structural, Debug)]
pub struct ListHandler {
    pub container_idx: ContainerIdx,
}

/// A handle of any container kind. Rich-text handles are only built
/// explicitly; a tree handle is the bare index, since tree edits go through
/// the document directly.
#[derive(Clone, Copy, PartialEq, Eq, Structural, Debug)]
pub enum Handler {
    Text(TextHandler),
    Dict(MapHandler),
    List(ListHandler),
    Richtext(RichtextHandler),
    Tree(ContainerIdx),
}

impl Handler {
    /// The index a handle addresses.
    pub open spec fn idx_spec(self) -> ContainerIdx {
        match self {
            Handler::Text(x) => x.container_idx,
            Handler::Dict(x) => x.container_idx,
            Handler::List(x) => x.container_idx,
            Handler::Richtext(x) => x.container_idx,
            Handler::Tree(i) => i,
        }
    }

    pub fn container_idx(&self) -> (r: ContainerIdx)
        ensures
            r == self.idx_spec(),
    {
        match self {
            Handler::Text(x) => x.container_idx,
            Handler::Dict(x) => x.container_idx,
            Handler::List(x) => x.container_idx,
            Handler::Richtext(x) => x.container_idx,
            Handler::Tree(i) => *i,
        }
    }

    /// The container kind a handle edits. A rich-text handle edits a text
    /// container.
    pub fn c_type(&self) -> (r: ContainerType)
        ensures
            r == match *self {
                Handler::Text(_) => ContainerType::Text,
                Handler::Dict(_) => ContainerType::Dict,
                Handler::List(_) => ContainerType::List,
                Handler::Richtext(_) => ContainerType::Text,
                Handler::Tree(_) => ContainerType::Tree,
            },
    {
        match self {
            Handler::Text(_) => ContainerType::Text,
            Handler::Dict(_) => ContainerType::Dict,
            Handler::List(_) => ContainerType::List,
            Handler::Richtext(_) => ContainerType::Text,
            Handler::Tree(_) => ContainerType::Tree,
        }
    }

    /// Wraps a handle of exactly the kind the index carries.
    pub fn new(value: ContainerIdx) -> (r: Handler)
        ensures
            r.idx_spec() == value,
            value.container_type == ContainerType::Text ==> r is Text,
            value.container_type == ContainerType::Dict ==> r is Dict,
            value.container_type == ContainerType::List ==> r is List,
            value.container_type == ContainerType::Tree ==> r is Tree,
    {
        match value.get_type() {
            ContainerType::Text => Handler::Text(TextHandler { container_idx: value }),
            ContainerType::Dict => Handler::Dict(MapHandler { container_idx: value }),
            ContainerType::List => Handler::List(ListHandler { container_idx: value }),
            ContainerType::Tree => Handler::Tree(value),
        }
    }
}

impl TextHandler {
    /// Whether this handle may be used with the document.
    pub open spec fn valid(self, doc: LoroDoc) -> bool {
        doc.valid_handle(self.container_idx) && self.container_idx.container_type
            == ContainerType::Text
    }

    pub fn new(idx: ContainerIdx) -> (r: Self)
        requires
            idx.container_type == ContainerType::Text,
        ensures
            r.container_idx == idx,
    {
        TextHandler { container_idx: idx }
    }

    pub fn is_empty(&self, doc: &LoroDoc) -> (r: bool)
        requires
            doc.wf(),
            self.valid(*doc),
        ensures
            r == (self.len_unicode_spec(*doc) == 0),
    {
        self.len_unicode(doc) == 0
    }

    /// The element order of the text container this handle addresses.
    pub open spec fn model(self, doc: LoroDoc) -> Seq<crate::tracker::ElemV> {
        doc.cont_model(doc.arena.cid_views()[self.container_idx.index as int])->Sequence_0
    }

    /// The visible length in characters.
    pub open spec fn len_unicode_spec(self, doc: LoroDoc) -> int {
        crate::tracker::sel_count(self.model(doc), true)
    }

    /// The operation a successful insertion at `pos` stages.
    pub open spec fn insert_op(self, doc: LoroDoc, pos: int, s: Seq<char>) -> OpView {
        OpView {
            id: ID { peer: doc.peer, counter: doc.next_counter },
            lamport: doc.next_lamport,
            container: doc.arena.cid_views()[self.container_idx.index as int],
            content: OcView::TextInsert {
                origin_left: crate::doc::spec_left_anchor(self.model(doc), pos, true),
                origin_right: crate::doc::spec_right_anchor(self.model(doc), pos, true),
                chars: s,
            },
        }
    }

    /// The operation a successful deletion of `[pos, pos + len)` stages.
    pub open spec fn delete_op(self, doc: LoroDoc, pos: int, len: int) -> OpView {
        OpView {
            id: ID { peer: doc.peer, counter: doc.next_counter },
            lamport: doc.next_lamport,
            container: doc.arena.cid_views()[self.container_idx.index as int],
            content: OcView::SeqDelete {
                targets: crate::tracker::sel_ids(self.model(doc), true).subrange(pos, pos + len),
            },
        }
    }

    pub fn len_unicode(&self, doc: &LoroDoc) -> (r: usize)
        requires
            doc.wf(),
            self.valid(*doc),
        ensures
            r == self.len_unicode_spec(*doc),
    {
        doc.seq_len(self.container_idx)
    }

    /// Inserts at a character position; see [`LoroDoc::text_insert`].
    pub fn insert(&self, doc: &mut LoroDoc, pos: usize, s: &str) -> (r: Result<(), LoroError>)
        requires
            old(doc).wf(),
            self.valid(*old(doc)),
        ensures
            final(doc).wf(),
            self.valid(*final(doc)),
            final(doc).peer == old(doc).peer,
            final(doc).txn_active == old(doc).txn_active,
            !old(doc).txn_active ==> r == Err::<(), LoroError>(LoroError::TransactionInactive),
            old(doc).txn_active && s@.len() > 0 && pos > self.len_unicode_spec(*old(doc)) ==> r
                == Err::<(), LoroError>(LoroError::OutOfBound),
            r is Ok <==> old(doc).txn_active && (s@.len() == 0 || (pos <= self.len_unicode_spec(
                *old(doc),
            ) && old(doc).next_counter + s@.len() <= Counter::MAX && old(doc).next_lamport
                + s@.len() <= Lamport::MAX)),
            r is Ok && s@.len() > 0 ==> final(doc).ops() == old(doc).ops().push(
                self.insert_op(*old(doc), pos as int, s@),
            ),
            r is Ok && s@.len() == 0 ==> final(doc).ops() == old(doc).ops(),
            r is Err ==> final(doc).ops() == old(doc).ops(),
    {
        doc.text_insert(self.container_idx, pos, s)
    }

    /// Deletes a character range; see [`LoroDoc::text_delete`].
    pub fn delete(&self, doc: &mut LoroDoc, pos: usize, len: usize) -> (r: Result<(), LoroError>)
        requires
            old(doc).wf(),
            self.valid(*old(doc)),
        ensures
            final(doc).wf(),
            self.valid(*final(doc)),
            final(doc).peer == old(doc).peer,
            final(doc).txn_active == old(doc).txn_active,
            !old(doc).txn_active ==> r == Err::<(), LoroError>(LoroError::TransactionInactive),
            old(doc).txn_active && len > 0 && pos + len > self.len_unicode_spec(*old(doc)) ==> r
                == Err::<(), LoroError>(LoroError::OutOfBound),
            r is Ok <==> old(doc).txn_active && (len == 0 || (pos + len <= self.len_unicode_spec(
                *old(doc),
            ) && old(doc).next_counter + len <= Counter::MAX && old(doc).next_lamport + len
                <= Lamport::MAX)),
            r is Ok && len > 0 ==> final(doc).ops() == old(doc).ops().push(
                self.delete_op(*old(doc), pos as int, len as int),
            ),
            r is Ok && len == 0 ==> final(doc).ops() == old(doc).ops(),
            r is Err ==> final(doc).ops() == old(doc).ops(),
    {
        doc.text_delete(self.container_idx, pos, len)
    }

    /// Inserts at a character position.
    pub fn insert_unicode(&self, doc: &mut LoroDoc, pos: usize, s: &str) -> (r: Result<
        (),
        LoroError,
    >)
        requires
            old(doc).wf(),
            self.valid(*old(doc)),
        ensures
            final(doc).wf(),
            self.valid(*final(doc)),
            final(doc).peer == old(doc).peer,
            final(doc).txn_active == old(doc).txn_active,
            !old(doc).txn_active ==> r == Err::<(), LoroError>(LoroError::TransactionInactive),
            old(doc).txn_active && s@.len() > 0 && pos > self.len_unicode_spec(*old(doc)) ==> r
                == Err::<(), LoroError>(LoroError::OutOfBound),
            r is Ok <==> old(doc).txn_active && (s@.len() == 0 || (pos <= self.len_unicode_spec(
                *old(doc),
            ) && old(doc).next_counter + s@.len() <= Counter::MAX && old(doc).next_lamport
                + s@.len() <= Lamport::MAX)),
            r is Ok && s@.len() > 0 ==> final(doc).ops() == old(doc).ops().push(
                self.insert_op(*old(doc), pos as int, s@),
            ),
            r is Ok && s@.len() == 0 ==> final(doc).ops() == old(doc).ops(),
            r is Err ==> final(doc).ops() == old(doc).ops(),
    {
        doc.text_insert(self.container_idx, pos, s)
    }

    /// Deletes a character range.
    pub fn delete_unicode(&self, doc: &mut LoroDoc, pos: usize, len: usize) -> (r: Result<
        (),
        LoroError,
    >)
        requires
            old(doc).wf(),
            self.valid(*old(doc)),
        ensures
            final(doc).wf(),
            self.valid(*final(doc)),
            final(doc).peer == old(doc).peer,
            final(doc).txn_active == old(doc).txn_active,
            !old(doc).txn_active ==> r == Err::<(), LoroError>(LoroError::TransactionInactive),
            old(doc).txn_active && len > 0 && pos + len > self.len_unicode_spec(*old(doc)) ==> r
                == Err::<(), LoroError>(LoroError::OutOfBound),
            r is Ok <==> old(doc).txn_active && (len == 0 || (pos + len <= self.len_unicode_spec(
                *old(doc),
            ) && old(doc).next_counter + len <= Counter::MAX && old(doc).next_lamport + len
                <= Lamport::MAX)),
            r is Ok && len > 0 ==> final(doc).ops() == old(doc).ops().push(
                self.delete_op(*old(doc), pos as int, len as int),
            ),
            r is Ok && len == 0 ==> final(doc).ops() == old(doc).ops(),
            r is Err ==> final(doc).ops() == old(doc).ops(),
    {
        doc.text_delete(self.container_idx, pos, len)
    }

    /// The visible text.
    pub fn get_value(&self, doc: &LoroDoc) -> (r: String)
        requires
            doc.wf(),
            self.valid(*doc),
        ensures
            crate::tracker::str_points(r@) == crate::tracker::visible_points(
                doc.cont_model(
                    doc.arena.cid_views()[self.container_idx.index as int],
                )->Sequence_0,
            ),
    {
        doc.text_value(self.container_idx)
    }

    /// The stable identifier of the container this handle addresses.
    pub fn id(&self, doc: &LoroDoc) -> (r: ContainerID)
        requires
            doc.wf(),
            self.valid(*doc),
        ensures
            r@ == doc.arena.cid_views()[self.container_idx.index as int],
    {
        match doc.arena.idx_to_id(self.container_idx.index) {
            Some(c) => c.dup(),
            None => unreached(),
        }
    }
}

impl RichtextHandler {
    pub open spec fn valid(self, doc: LoroDoc) -> bool {
        doc.valid_handle(self.container_idx) && self.container_idx.container_type
            == ContainerType::Text
    }

    /// The same container, addressed as plain text.
    pub open spec fn th(self) -> TextHandler {
        TextHandler { container_idx: self.container_idx }
    }

    pub fn new(idx: ContainerIdx) -> (r: Self)
        requires
            idx.container_type == ContainerType::Text,
        ensures
            r.container_idx == idx,
    {
        RichtextHandler { container_idx: idx }
    }

    pub fn is_empty(&self, doc: &LoroDoc) -> (r: bool)
        requires
            doc.wf(),
            self.valid(*doc),
        ensures
            r == ((TextHandler { container_idx: self.container_idx }).len_unicode_spec(*doc)
                == 0),
    {
        self.len_unicode(doc) == 0
    }

    pub fn len_unicode(&self, doc: &LoroDoc) -> (r: usize)
        requires
            doc.wf(),
            self.valid(*doc),
        ensures
            r == (TextHandler { container_idx: self.container_idx }).len_unicode_spec(*doc),
    {
        doc.seq_len(self.container_idx)
    }

    /// Inserts text at a character position; see [`TextHandler::insert`].
    pub fn insert(&self, doc: &mut LoroDoc, pos: usize, s: &str) -> (r: Result<(), LoroError>)
        requires
            old(doc).wf(),
            self.valid(*old(doc)),
        ensures
            final(doc).wf(),
            self.valid(*final(doc)),
            final(doc).peer == old(doc).peer,
            final(doc).txn_active == old(doc).txn_active,
            !old(doc).txn_active ==> r == Err::<(), LoroError>(LoroError::TransactionInactive),
            r is Ok <==> old(doc).txn_active && (s@.len() == 0 || (pos
                <= self.th().len_unicode_spec(*old(doc)) && old(doc).next_counter + s@.len()
                <= Counter::MAX && old(doc).next_lamport + s@.len() <= Lamport::MAX)),
            r is Ok && s@.len() > 0 ==> final(doc).ops() == old(doc).ops().push(
                self.th().insert_op(*old(doc), pos as int, s@),
            ),
            r is Ok && s@.len() == 0 ==> final(doc).ops() == old(doc).ops(),
            r is Err ==> final(doc).ops() == old(doc).ops(),
    {
        doc.text_insert(self.container_idx, pos, s)
    }

    /// Deletes a character range; see [`TextHandler::delete`].
    pub fn delete(&self, doc: &mut LoroDoc, pos: usize, len: usize) -> (r: Result<(), LoroError>)
        requires
            old(doc).wf(),
            self.valid(*old(doc)),
        ensures
            final(doc).wf(),
            self.valid(*final(doc)),
            final(doc).peer == old(doc).peer,
            final(doc).txn_active == old(doc).txn_active,
            !old(doc).txn_active ==> r == Err::<(), LoroError>(LoroError::TransactionInactive),
            r is Ok <==> old(doc).txn_active && (len == 0 || (pos + len
                <= self.th().len_unicode_spec(*old(doc)) && old(doc).next_counter + len
                <= Counter::MAX && old(doc).next_lamport + len <= Lamport::MAX)),
            r is Ok && len > 0 ==> final(doc).ops() == old(doc).ops().push(
                self.th().delete_op(*old(doc), pos as int, len as int),
            ),
            r is Ok && len == 0 ==> final(doc).ops() == old(doc).ops(),
            r is Err ==> final(doc).ops() == old(doc).ops(),
    {
        doc.text_delete(self.container_idx, pos, len)
    }

    pub fn get_value(&self, doc: &LoroDoc) -> (r: String)
        requires
            doc.wf(),
            self.valid(*doc),
        ensures
            crate::tracker::str_points(r@) == crate::tracker::visible_points(
                doc.cont_model(
                    doc.arena.cid_views()[self.container_idx.index as int],
                )->Sequence_0,
            ),
    {
        doc.text_value(self.container_idx)
    }

    /// The stable identifier of the container this handle addresses.
    pub fn id(&self, doc: &LoroDoc) -> (r: ContainerID)
        requires
            doc.wf(),
            self.valid(*doc),
        ensures
            r@ == doc.arena.cid_views()[self.container_idx.index as int],
    {
        match doc.arena.idx_to_id(self.container_idx.index) {
            Some(c) => c.dup(),
            None => unreached(),
        }
    }
}

impl ListHandler {
    pub open spec fn valid(self, doc: LoroDoc) -> bool {
        doc.valid_handle(self.container_idx) && self.container_idx.container_type
            == ContainerType::List
    }

    /// The element order of the list container this handle addresses.
    pub open spec fn model(self, doc: LoroDoc) -> Seq<crate::tracker::ElemV> {
        doc.cont_model(doc.arena.cid_views()[self.container_idx.index as int])->Sequence_0
    }

    /// The visible length in entries.
    pub open spec fn len_spec(self, doc: LoroDoc) -> int {
        crate::tracker::sel_count(self.model(doc), false)
    }

    /// The operation a successful insertion at `pos` stages.
    pub open spec fn insert_op(self, doc: LoroDoc, pos: int, v: crate::value::LvView) -> OpView {
        OpView {
            id: ID { peer: doc.peer, counter: doc.next_counter },
            lamport: doc.next_lamport,
            container: doc.arena.cid_views()[self.container_idx.index as int],
            content: OcView::ListInsert {
                origin_left: crate::doc::spec_left_anchor(self.model(doc), pos, false),
                origin_right: crate::doc::spec_right_anchor(self.model(doc), pos, false),
                values: seq![v],
            },
        }
    }

    /// The operation a successful deletion of `[pos, pos + len)` stages.
    pub open spec fn delete_op(self, doc: LoroDoc, pos: int, len: int) -> OpView {
        OpView {
            id: ID { peer: doc.peer, counter: doc.next_counter },
            lamport: doc.next_lamport,
            container: doc.arena.cid_views()[self.container_idx.index as int],
            content: OcView::SeqDelete {
                targets: crate::tracker::sel_ids(self.model(doc), false).subrange(
                    pos,
                    pos + len,
                ),
            },
        }
    }

    pub fn new(idx: ContainerIdx) -> (r: Self)
        requires
            idx.container_type == ContainerType::List,
        ensures
            r.container_idx == idx,
    {
        ListHandler { container_idx: idx }
    }

    pub fn len(&self, doc: &LoroDoc) -> (r: usize)
        requires
            doc.wf(),
            self.valid(*doc),
        ensures
            r == self.len_spec(*doc),
    {
        doc.seq_len(self.container_idx)
    }

    pub fn is_empty(&self, doc: &LoroDoc) -> (r: bool)
        requires
            doc.wf(),
            self.valid(*doc),
        ensures
            r == (self.len_spec(*doc) == 0),
    {
        self.len(doc) == 0
    }

    /// Inserts a value at a visible position; see [`LoroDoc::list_insert`].
    pub fn insert(&self, doc: &mut LoroDoc, pos: usize, v: LoroValue) -> (r: Result<
        (),
        LoroError,
    >)
        requires
            old(doc).wf(),
            self.valid(*old(doc)),
        ensures
            final(doc).wf(),
            self.valid(*final(doc)),
            final(doc).peer == old(doc).peer,
            final(doc).txn_active == old(doc).txn_active,
            !old(doc).txn_active ==> r == Err::<(), LoroError>(LoroError::TransactionInactive),
            old(doc).txn_active && pos > self.len_spec(*old(doc)) ==> r == Err::<(), LoroError>(
                LoroError::OutOfBound,
            ),
            r is Ok <==> old(doc).txn_active && pos <= self.len_spec(*old(doc)) && old(doc).next_counter + 1 <= Counter::MAX && old(doc).next_lamport + 1 <= Lamport::MAX,
            r is Ok ==> final(doc).ops() == old(doc).ops().push(
                self.insert_op(*old(doc), pos as int, crate::value::lv_view(v)),
            ),
            r is Err ==> final(doc).ops() == old(doc).ops(),
    {
        doc.list_insert(self.container_idx, pos, v)
    }

    /// Appends a value at the end.
    pub fn push(&self, doc: &mut LoroDoc, v: LoroValue) -> (r: Result<(), LoroError>)
        requires
            old(doc).wf(),
            self.valid(*old(doc)),
        ensures
            final(doc).wf(),
            self.valid(*final(doc)),
            final(doc).peer == old(doc).peer,
            final(doc).txn_active == old(doc).txn_active,
            !old(doc).txn_active ==> r == Err::<(), LoroError>(LoroError::TransactionInactive),
            r is Ok <==> old(doc).txn_active && old(doc).next_counter + 1 <= Counter::MAX && old(doc).next_lamport + 1 <= Lamport::MAX,
            r is Ok ==> final(doc).ops() == old(doc).ops().push(
                self.insert_op(*old(doc), self.len_spec(*old(doc)), crate::value::lv_view(v)),
            ),
            r is Err ==> final(doc).ops() == old(doc).ops(),
    {
        let pos = self.len(doc);
        doc.list_insert(self.container_idx, pos, v)
    }

    /// Deletes `len` visible entries; see [`LoroDoc::list_delete`].
    pub fn delete(&self, doc: &mut LoroDoc, pos: usize, len: usize) -> (r: Result<(), LoroError>)
        requires
            old(doc).wf(),
            self.valid(*old(doc)),
        ensures
            final(doc).wf(),
            self.valid(*final(doc)),
            final(doc).peer == old(doc).peer,
            final(doc).txn_active == old(doc).txn_active,
            !old(doc).txn_active ==> r == Err::<(), LoroError>(LoroError::TransactionInactive),
            old(doc).txn_active && len > 0 && pos + len > self.len_spec(*old(doc)) ==> r == Err::<
                (),
                LoroError,
            >(LoroError::OutOfBound),
            r is Ok <==> old(doc).txn_active && (len == 0 || (pos + len <= self.len_spec(
                *old(doc),
            ) && old(doc).next_counter + len <= Counter::MAX && old(doc).next_lamport + len
                <= Lamport::MAX)),
            r is Ok && len > 0 ==> final(doc).ops() == old(doc).ops().push(
                self.delete_op(*old(doc), pos as int, len as int),
            ),
            r is Ok && len == 0 ==> final(doc).ops() == old(doc).ops(),
            r is Err ==> final(doc).ops() == old(doc).ops(),
    {
        doc.list_delete(self.container_idx, pos, len)
    }

    /// Creates a nested container at a visible position, records its parent
    /// link, and returns its handle.
    pub fn insert_container(&self, doc: &mut LoroDoc, pos: usize, c_type: ContainerType) -> (r:
        Result<Handler, LoroError>)
        requires
            old(doc).wf(),
            self.valid(*old(doc)),
        ensures
            final(doc).wf(),
            self.valid(*final(doc)),
            final(doc).peer == old(doc).peer,
            final(doc).txn_active == old(doc).txn_active,
            r is Ok <==> old(doc).txn_active && pos <= self.len_spec(*old(doc)) && old(doc).next_counter + 1 <= Counter::MAX && old(doc).next_lamport + 1 <= Lamport::MAX,
            r is Ok ==> final(doc).ops() == old(doc).ops().push(
                self.insert_op(
                    *old(doc),
                    pos as int,
                    crate::value::LvView::Container(
                        CidView::Normal {
                            peer: old(doc).peer,
                            counter: old(doc).next_counter,
                            container_type: c_type,
                        },
                    ),
                ),
            ),
            r is Ok ==> r->Ok_0.idx_spec().container_type == c_type && final(doc).valid_handle(
                r->Ok_0.idx_spec(),
            ) && final(doc).arena.cid_views()[r->Ok_0.idx_spec().index as int]
                == (CidView::Normal {
                peer: old(doc).peer,
                counter: old(doc).next_counter,
                container_type: c_type,
            }) && final(doc).arena.parents@[r->Ok_0.idx_spec().index as int] == Some(
                self.container_idx.index,
            ),
            r is Err ==> final(doc).ops() == old(doc).ops(),
    {
        let id = crate::id::ID { peer: doc.peer, counter: doc.next_counter };
        let cid = ContainerID::new_normal(id, c_type);
        let cid2 = cid.dup();
        let res = doc.list_insert(self.container_idx, pos, LoroValue::Container(cid));
        match res {
            Ok(()) => {
                let child = doc.register_container(&cid2);
                doc.set_container_parent(child, self.container_idx);
                Ok(Handler::new(child))
            },
            Err(e) => Err(e),
        }
    }

    /// The handle of the container entry at a visible position, when that
    /// entry is a container reference.
    pub fn get_child_handler(&self, doc: &mut LoroDoc, index: usize) -> (r: Option<Handler>)
        requires
            old(doc).wf(),
            self.valid(*old(doc)),
        ensures
            final(doc).wf(),
            self.valid(*final(doc)),
            final(doc).peer == old(doc).peer,
            final(doc).ops() == old(doc).ops(),
            ({
                let vs = crate::tracker::visible_values(self.model(*old(doc)));
                &&& (r is Some <==> index < vs.len() && vs[index as int] is Container)
                &&& (r is Some ==> final(doc).valid_handle(r->0.idx_spec()) && final(doc).arena.cid_views()[r->0.idx_spec().index as int] == vs[
                    index as int]->Container_0)
            }),
    {
        let ghost vs = crate::tracker::visible_values(self.model(*doc));
        let values = doc.list_value(self.container_idx);
        proof {
            crate::value::lemma_lv_seq_view(values@);
        }
        if index >= values.len() {
            return None;
        }
        match values[index].as_container() {
            Some(c) => {
                let cid = c.dup();
                let idx = doc.register_container(&cid);
                Some(Handler::new(idx))
            },
            None => None,
        }
    }

    /// The value at a visible position.
    pub fn get(&self, doc: &LoroDoc, index: usize) -> (r: Option<LoroValue>)
        requires
            doc.wf(),
            self.valid(*doc),
        ensures
            r is Some <==> index < crate::tracker::visible_values(self.model(*doc)).len(),
            r is Some ==> crate::value::lv_view(r->0) == crate::tracker::visible_values(
                self.model(*doc),
            )[index as int],
    {
        let values = doc.list_value(self.container_idx);
        proof {
            crate::value::lemma_lv_seq_view(values@);
        }
        if index < values.len() {
            Some(values[index].dup())
        } else {
            None
        }
    }

    /// The visible values, in order, for iteration.
    pub fn for_each(&self, doc: &LoroDoc) -> (r: Vec<LoroValue>)
        requires
            doc.wf(),
            self.valid(*doc),
        ensures
            crate::value::lv_seq_view(r@) == crate::tracker::visible_values(self.model(*doc)),
    {
        doc.list_value(self.container_idx)
    }

    /// The visible values.
    pub fn get_value(&self, doc: &LoroDoc) -> (r: Vec<LoroValue>)
        requires
            doc.wf(),
            self.valid(*doc),
        ensures
            crate::value::lv_seq_view(r@) == crate::tracker::visible_values(self.model(*doc)),
    {
        doc.list_value(self.container_idx)
    }

    /// The stable identifier of the container this handle addresses.
    pub fn id(&self, doc: &LoroDoc) -> (r: ContainerID)
        requires
            doc.wf(),
            self.valid(*doc),
        ensures
            r@ == doc.arena.cid_views()[self.container_idx.index as int],
    {
        match doc.arena.idx_to_id(self.container_idx.index) {
            Some(c) => c.dup(),
            None => unreached(),
        }
    }
}

impl MapHandler {
    pub open spec fn valid(self, doc: LoroDoc) -> bool {
        doc.valid_handle(self.container_idx) && self.container_idx.container_type
            == ContainerType::Dict
    }

    /// The registers of the map container this handle addresses.
    pub open spec fn entries(self, doc: LoroDoc) -> Seq<crate::state::MapEntryV> {
        doc.cont_model(doc.arena.cid_views()[self.container_idx.index as int])->Registers_0
    }

    /// The operation a successful write of `key` stages.
    pub open spec fn set_op(self, doc: LoroDoc, key: Seq<char>, value: Option<
        crate::value::LvView,
    >) -> OpView {
        OpView {
            id: ID { peer: doc.peer, counter: doc.next_counter },
            lamport: doc.next_lamport,
            container: doc.arena.cid_views()[self.container_idx.index as int],
            content: OcView::MapSet { key, value },
        }
    }

    /// Whether `key` already holds exactly this value, in which case a write
    /// is skipped.
    pub open spec fn holds(self, doc: LoroDoc, key: Seq<char>, v: crate::value::LvView) -> bool {
        let es = self.entries(doc);
        let k = crate::state::find_key(es, key);
        k >= 0 && es[k].value == Some(v)
    }

    pub fn new(idx: ContainerIdx) -> (r: Self)
        requires
            idx.container_type == ContainerType::Dict,
        ensures
            r.container_idx == idx,
    {
        MapHandler { container_idx: idx }
    }

    /// Writes a key, unless it already holds an equal value.
    pub fn insert(&self, doc: &mut LoroDoc, key: &str, value: LoroValue) -> (r: Result<
        (),
        LoroError,
    >)
        requires
            old(doc).wf(),
            self.valid(*old(doc)),
        ensures
            final(doc).wf(),
            self.valid(*final(doc)),
            final(doc).peer == old(doc).peer,
            final(doc).txn_active == old(doc).txn_active,
            self.holds(*old(doc), key@, crate::value::lv_view(value)) ==> r is Ok && final(doc).ops() == old(doc).ops(),
            !self.holds(*old(doc), key@, crate::value::lv_view(value)) ==> (r is Ok <==> old(doc).txn_active && old(doc).next_counter + 1 <= Counter::MAX && old(doc).next_lamport
                + 1 <= Lamport::MAX),
            !self.holds(*old(doc), key@, crate::value::lv_view(value)) && r is Ok ==> final(doc).ops() == old(doc).ops().push(
                self.set_op(*old(doc), key@, Some(crate::value::lv_view(value))),
            ),
            r is Err ==> final(doc).ops() == old(doc).ops() && (r->Err_0
                == LoroError::TransactionInactive || r->Err_0 == LoroError::CounterOverflow),
    {
        let cur = doc.map_get(self.container_idx, key);
        match cur {
            Some(c) => {
                if c.same_as(&value) {
                    return Ok(());
                }
            },
            None => {
            },
        }
        doc.map_set(self.container_idx, key, Some(value))
    }

    /// Deletes a key.
    pub fn delete(&self, doc: &mut LoroDoc, key: &str) -> (r: Result<(), LoroError>)
        requires
            old(doc).wf(),
            self.valid(*old(doc)),
        ensures
            final(doc).wf(),
            self.valid(*final(doc)),
            final(doc).peer == old(doc).peer,
            final(doc).txn_active == old(doc).txn_active,
            !old(doc).txn_active ==> r == Err::<(), LoroError>(LoroError::TransactionInactive),
            r is Ok <==> old(doc).txn_active && old(doc).next_counter + 1 <= Counter::MAX && old(doc).next_lamport + 1 <= Lamport::MAX,
            r is Ok ==> final(doc).ops() == old(doc).ops().push(
                self.set_op(*old(doc), key@, None),
            ),
            r is Err ==> final(doc).ops() == old(doc).ops(),
    {
        doc.map_set(self.container_idx, key, None)
    }

    /// Creates a nested container under a key, records its parent link, and
    /// returns its handle.
    pub fn insert_container(&self, doc: &mut LoroDoc, key: &str, c_type: ContainerType) -> (r:
        Result<Handler, LoroError>)
        requires
            old(doc).wf(),
            self.valid(*old(doc)),
        ensures
            final(doc).wf(),
            self.valid(*final(doc)),
            final(doc).peer == old(doc).peer,
            final(doc).txn_active == old(doc).txn_active,
            r is Ok <==> old(doc).txn_active && old(doc).next_counter + 1 <= Counter::MAX && old(doc).next_lamport + 1 <= Lamport::MAX,
            r is Ok ==> final(doc).ops() == old(doc).ops().push(
                self.set_op(
                    *old(doc),
                    key@,
                    Some(
                        crate::value::LvView::Container(
                            CidView::Normal {
                                peer: old(doc).peer,
                                counter: old(doc).next_counter,
                                container_type: c_type,
                            },
                        ),
                    ),
                ),
            ),
            r is Ok ==> r->Ok_0.idx_spec().container_type == c_type && final(doc).valid_handle(
                r->Ok_0.idx_spec(),
            ) && final(doc).arena.cid_views()[r->Ok_0.idx_spec().index as int]
                == (CidView::Normal {
                peer: old(doc).peer,
                counter: old(doc).next_counter,
                container_type: c_type,
            }) && final(doc).arena.parents@[r->Ok_0.idx_spec().index as int] == Some(
                self.container_idx.index,
            ),
            r is Err ==> final(doc).ops() == old(doc).ops(),
    {
        let id = crate::id::ID { peer: doc.peer, counter: doc.next_counter };
        let cid = ContainerID::new_normal(id, c_type);
        let cid2 = cid.dup();
        let res = doc.map_set(self.container_idx, key, Some(LoroValue::Container(cid)));
        match res {
            Ok(()) => {
                let child = doc.register_container(&cid2);
                doc.set_container_parent(child, self.container_idx);
                Ok(Handler::new(child))
            },
            Err(e) => Err(e),
        }
    }

    /// The winning value of a key, if the key holds one.
    pub fn get(&self, doc: &LoroDoc, key: &str) -> (r: Option<LoroValue>)
        requires
            doc.wf(),
            self.valid(*doc),
        ensures
            ({
                let es = self.entries(*doc);
                let k = crate::state::find_key(es, key@);
                match r {
                    None => k < 0 || es[k].value is None,
                    Some(v) => k >= 0 && es[k].value == Some(crate::value::lv_view(v)),
                }
            }),
    {
        doc.map_get(self.container_idx, key)
    }

    /// The handle of the container a key points at, when it does.
    pub fn get_child_handler(&self, doc: &mut LoroDoc, key: &str) -> (r: Option<Handler>)
        requires
            old(doc).wf(),
            self.valid(*old(doc)),
        ensures
            final(doc).wf(),
            self.valid(*final(doc)),
            final(doc).peer == old(doc).peer,
            final(doc).ops() == old(doc).ops(),
            ({
                let es = self.entries(*old(doc));
                let k = crate::state::find_key(es, key@);
                r is Some ==> k >= 0 && es[k].value is Some && es[k].value->0 is Container
                    && final(doc).valid_handle(r->0.idx_spec()) && final(doc).arena.cid_views()[
                    r->0.idx_spec().index as int] == es[k].value->0->Container_0
            }),
    {
        let v = doc.map_get(self.container_idx, key);
        match v {
            Some(v) => match v.as_container() {
                Some(c) => {
                    let cid = c.dup();
                    let idx = doc.register_container(&cid);
                    Some(Handler::new(idx))
                },
                None => None,
            },
            None => None,
        }
    }

    /// The entries that currently hold a value, in first-write order.
    pub fn for_each(&self, doc: &LoroDoc) -> (r: LoroValue)
        requires
            doc.wf(),
            self.valid(*doc),
        ensures
            crate::value::lv_view(r) == crate::value::LvView::Dict(
                crate::doc::live_entries(self.entries(*doc)),
            ),
    {
        doc.map_value(self.container_idx)
    }

    /// The materialized map value.
    pub fn get_value(&self, doc: &LoroDoc) -> (r: LoroValue)
        requires
            doc.wf(),
            self.valid(*doc),
        ensures
            crate::value::lv_view(r) == crate::value::LvView::Dict(
                crate::doc::live_entries(self.entries(*doc)),
            ),
    {
        doc.map_value(self.container_idx)
    }

    pub fn len(&self, doc: &LoroDoc) -> (r: usize)
        requires
            doc.wf(),
            self.valid(*doc),
        ensures
            r == crate::doc::live_entries(self.entries(*doc)).len(),
    {
        doc.map_len(self.container_idx)
    }

    pub fn is_empty(&self, doc: &LoroDoc) -> (r: bool)
        requires
            doc.wf(),
            self.valid(*doc),
        ensures
            r == (crate::doc::live_entries(self.entries(*doc)).len() == 0),
    {
        self.len(doc) == 0
    }

    /// The stable identifier of the container this handle addresses.
    pub fn id(&self, doc: &LoroDoc) -> (r: ContainerID)
        requires
            doc.wf(),
            self.valid(*doc),
        ensures
            r@ == doc.arena.cid_views()[self.container_idx.index as int],
    {
        match doc.arena.idx_to_id(self.container_idx.index) {
            Some(c) => c.dup(),
            None => unreached(),
        }
    }
}

impl LoroDoc {
    /// The handle of the root text container with this name.
    pub fn get_text(&mut self, name: &str) -> (r: TextHandler)
        requires
            old(self).wf(),
        ensures
            final(self).wf(),
            r.valid(*final(self)),
            final(self).arena.cid_views()[r.container_idx.index as int] == (CidView::Root {
                name: name@,
                container_type: ContainerType::Text,
            }),
            final(self).peer == old(self).peer,
            final(self).ops() == old(self).ops(),
            final(self).txn_active == old(self).txn_active,
            final(self).vv == old(self).vv,
            final(self).log == old(self).log,
            final(self).detached == old(self).detached,
    {
        let cid = ContainerID::new_root(name, ContainerType::Text);
        let idx = self.register_container(&cid);
        TextHandler { container_idx: idx }
    }

    /// The handle of the root text container with this name, by rich-text
    /// conventions.
    pub fn get_richtext(&mut self, name: &str) -> (r: RichtextHandler)
        requires
            old(self).wf(),
        ensures
            final(self).wf(),
            r.valid(*final(self)),
            final(self).arena.cid_views()[r.container_idx.index as int] == (CidView::Root {
                name: name@,
                container_type: ContainerType::Text,
            }),
            final(self).peer == old(self).peer,
            final(self).ops() == old(self).ops(),
            final(self).txn_active == old(self).txn_active,
            final(self).vv == old(self).vv,
            final(self).log == old(self).log,
            final(self).detached == old(self).detached,
    {
        let cid = ContainerID::new_root(name, ContainerType::Text);
        let idx = self.register_container(&cid);
        RichtextHandler { container_idx: idx }
    }

    /// The handle of the root map container with this name.
    pub fn get_map(&mut self, name: &str) -> (r: MapHandler)
        requires
            old(self).wf(),
        ensures
            final(self).wf(),
            r.valid(*final(self)),
            final(self).arena.cid_views()[r.container_idx.index as int] == (CidView::Root {
                name: name@,
                container_type: ContainerType::Dict,
            }),
            final(self).peer == old(self).peer,
            final(self).ops() == old(self).ops(),
            final(self).txn_active == old(self).txn_active,
            final(self).vv == old(self).vv,
            final(self).log == old(self).log,
            final(self).detached == old(self).detached,
    {
        let cid = ContainerID::new_root(name, ContainerType::Dict);
        let idx = self.register_container(&cid);
        MapHandler { container_idx: idx }
    }

    /// The handle of the root list container with this name.
    pub fn get_list(&mut self, name: &str) -> (r: ListHandler)
        requires
            old(self).wf(),
        ensures
            final(self).wf(),
            r.valid(*final(self)),
            final(self).arena.cid_views()[r.container_idx.index as int] == (CidView::Root {
                name: name@,
                container_type: ContainerType::List,
            }),
            final(self).peer == old(self).peer,
            final(self).ops() == old(self).ops(),
            final(self).txn_active == old(self).txn_active,
            final(self).vv == old(self).vv,
            final(self).log == old(self).log,
            final(self).detached == old(self).detached,
    {
        let cid = ContainerID::new_root(name, ContainerType::List);
        let idx = self.register_container(&cid);
        ListHandler { container_idx: idx }
    }

    /// The handle of the root tree container with this name.
    pub fn get_tree(&mut self, name: &str) -> (r: ContainerIdx)
        requires
            old(self).wf(),
        ensures
            final(self).wf(),
            final(self).valid_handle(r),
            r.container_type == ContainerType::Tree,
            final(self).arena.cid_views()[r.index as int] == (CidView::Root {
                name: name@,
                container_type: ContainerType::Tree,
            }),
            final(self).peer == old(self).peer,
            final(self).ops() == old(self).ops(),
            final(self).txn_active == old(self).txn_active,
            final(self).vv == old(self).vv,
            final(self).log == old(self).log,
            final(self).detached == old(self).detached,
    {
        let cid = ContainerID::new_root(name, ContainerType::Tree);
        self.register_container(&cid)
    }
}

} // verus!
