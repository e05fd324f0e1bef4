//! The sequence CRDT engine.
//!
//! One tracker holds the full element order of a text or list container.
//! Elements are never removed: a deletion only flips visibility, so any
//! identifier remains addressable by later concurrent operations. A fresh
//! insertion is placed by scanning the window between its two frozen anchors;
//! among elements anchored at the same position, the one whose left anchor
//! lies further right sorts first, and full ties are broken by peer
//! identifier. The placement is a deterministic function of the element
//! order and the anchors alone, so every replica that applies the same
//! operations in the same canonical order reaches the same element order.

use vstd::prelude::*;

use crate::id::Counter;
use crate::id::ID;
use crate::id::IdSpan;
use crate::id::PeerID;
use crate::op::OcView;
use crate::op::Op;
use crate::op::OpContent;
use crate::op::OpView;
use crate::value::LoroValue;
use crate::value::LvView;
use crate::value::lv_view;
use crate::version::VersionVector;

verus! {

/// The payload of one sequence element: a text character or a list value.
pub enum Item {
    Ch(char),
    Val(LoroValue),
}

/// The mathematical shape of a payload. A character is modelled by its
/// Unicode code point.
pub enum ItemV {
    Ch(u32),
    Val(LvView),
}

impl DeepView for Item {
    type V = ItemV;

    open spec fn deep_view(&self) -> ItemV {
        match self {
            Item::Ch(c) => ItemV::Ch(*c as u32),
            Item::Val(v) => ItemV::Val(lv_view(*v)),
        }
    }
}

/// The code points of a character sequence, in order.
pub open spec fn str_points(s: Seq<char>) -> Seq<u32>
    decreases s.len(),
{
    if s.len() == 0 {
        Seq::empty()
    } else {
        str_points(s.drop_last()).push(s.last() as u32)
    }
}

pub proof fn lemma_str_points(s: Seq<char>)
    ensures
        str_points(s).len() == s.len(),
        forall|i: int| 0 <= i < s.len() ==> str_points(s)[i] == (#[trigger] s[i]) as u32,
    decreases s.len(),
{
    if s.len() > 0 {
        lemma_str_points(s.drop_last());
        assert forall|i: int| 0 <= i < s.len() implies str_points(s)[i] == s[i] as u32 by {
            if i < s.len() - 1 {
                assert(s.drop_last()[i] == s[i]);
                assert(str_points(s)[i] == str_points(s.drop_last())[i]);
            }
        }
    }
}

impl Item {
    /// A character payload.
    pub fn ch(c: char) -> (r: Item)
        ensures
            r == Item::Ch(c),
    {
        Item::Ch(c)
    }

    /// A structural copy with the same view.
    pub fn dup(&self) -> (r: Item)
        ensures
            r.deep_view() == self.deep_view(),
    {
        match self {
            Item::Ch(c) => Item::ch(*c),
            Item::Val(v) => Item::Val(v.dup()),
        }
    }
}

/// One inserted position: its identifier, the two anchors frozen at
/// insertion time, the identifiers of the deletions that tombstoned it, and
/// its visibility under the currently checked-out version.
pub struct SeqElem {
    pub id: ID,
    pub origin_left: Option<ID>,
    pub origin_right: Option<ID>,
    pub deleters: Vec<ID>,
    pub alive: bool,
    pub item: Item,
}

/// The mathematical shape of an element.
pub struct ElemV {
    pub id: ID,
    pub origin_left: Option<ID>,
    pub origin_right: Option<ID>,
    pub deleters: Seq<ID>,
    pub alive: bool,
    pub item: ItemV,
}

impl DeepView for SeqElem {
    type V = ElemV;

    open spec fn deep_view(&self) -> ElemV {
        ElemV {
            id: self.id,
            origin_left: self.origin_left,
            origin_right: self.origin_right,
            deleters: self.deleters@,
            alive: self.alive,
            item: self.item.deep_view(),
        }
    }
}

/// The first index holding an element with the given identifier, or `-1`.
pub open spec fn idx_of(s: Seq<ElemV>, id: ID) -> int
    decreases s.len(),
{
    if s.len() == 0 {
        -1
    } else if s[0].id == id {
        0
    } else if idx_of(s.skip(1), id) < 0 {
        -1
    } else {
        1 + idx_of(s.skip(1), id)
    }
}

pub proof fn lemma_idx_of(s: Seq<ElemV>, id: ID)
    ensures
        idx_of(s, id) < 0 ==> forall|i: int| 0 <= i < s.len() ==> (#[trigger] s[i]).id != id,
        idx_of(s, id) >= 0 ==> idx_of(s, id) < s.len() && s[idx_of(s, id)].id == id && forall|
            i: int,
        | 0 <= i < idx_of(s, id) ==> (#[trigger] s[i]).id != id,
    decreases s.len(),
{
    if s.len() > 0 && s[0].id != id {
        lemma_idx_of(s.skip(1), id);
        assert(forall|i: int| 1 <= i < s.len() ==> s[i] == s.skip(1)[i - 1]);
    }
}

pub proof fn lemma_idx_of_at(s: Seq<ElemV>, id: ID, i: int)
    requires
        0 <= i < s.len(),
        s[i].id == id,
        forall|j: int| 0 <= j < i ==> (#[trigger] s[j]).id != id,
    ensures
        idx_of(s, id) == i,
    decreases i,
{
    if i > 0 {
        assert(forall|j: int| 0 <= j < s.skip(1).len() ==> s.skip(1)[j] == s[j + 1]);
        lemma_idx_of_at(s.skip(1), id, i - 1);
    }
}

/// The scan start for a left anchor: just after the anchor's element, or the
/// sequence start when there is none.
pub open spec fn left_pos(s: Seq<ElemV>, ol: Option<ID>) -> int {
    match ol {
        None => 0,
        Some(a) => {
            let i = idx_of(s, a);
            if i >= 0 {
                i + 1
            } else {
                0
            }
        },
    }
}

/// The scan end for a right anchor: the anchor's index, or the sequence end
/// when there is none or the anchor lies before the window.
pub open spec fn right_pos(s: Seq<ElemV>, or: Option<ID>, l: int) -> int {
    match or {
        None => s.len() as int,
        Some(a) => {
            let i = idx_of(s, a);
            if i >= l {
                i
            } else {
                s.len() as int
            }
        },
    }
}

/// The conflict scan: walk the window `[i, r)`; an existing element whose
/// left anchor lies further right than `l`, or at `l` with a smaller peer,
/// stays before the new element; otherwise the new element goes here.
pub open spec fn scan_pos(s: Seq<ElemV>, l: int, r: int, i: int, peer: PeerID) -> int
    decreases r - i,
{
    if 0 <= i && i < r && r <= s.len() {
        let opos = left_pos(s, s[i].origin_left);
        if opos > l {
            scan_pos(s, l, r, i + 1, peer)
        } else if opos == l && s[i].id.peer < peer {
            scan_pos(s, l, r, i + 1, peer)
        } else {
            i
        }
    } else {
        i
    }
}

pub proof fn lemma_scan_pos_range(s: Seq<ElemV>, l: int, r: int, i: int, peer: PeerID)
    requires
        0 <= i <= r <= s.len(),
    ensures
        i <= scan_pos(s, l, r, i, peer) <= r,
    decreases r - i,
{
    if i < r {
        let opos = left_pos(s, s[i].origin_left);
        if opos > l || (opos == l && s[i].id.peer < peer) {
            lemma_scan_pos_range(s, l, r, i + 1, peer);
        }
    }
}

/// The index where an element with the given anchors and peer is placed.
pub open spec fn insert_pos(s: Seq<ElemV>, ol: Option<ID>, or: Option<ID>, peer: PeerID) -> int {
    let l = left_pos(s, ol);
    let r = right_pos(s, or, l);
    scan_pos(s, l, r, l, peer)
}

/// Placing one element.
pub open spec fn integrate_one(s: Seq<ElemV>, e: ElemV) -> Seq<ElemV> {
    s.insert(insert_pos(s, e.origin_left, e.origin_right, e.id.peer), e)
}

pub proof fn lemma_left_pos_range(s: Seq<ElemV>, ol: Option<ID>)
    ensures
        0 <= left_pos(s, ol) <= s.len(),
{
    match ol {
        None => {},
        Some(a) => {
            lemma_idx_of(s, a);
        },
    }
}

pub proof fn lemma_insert_pos_range(s: Seq<ElemV>, ol: Option<ID>, or: Option<ID>, peer: PeerID)
    ensures
        0 <= insert_pos(s, ol, or, peer) <= s.len(),
{
    lemma_left_pos_range(s, ol);
    let l = left_pos(s, ol);
    let r = right_pos(s, or, l);
    match or {
        None => {},
        Some(a) => {
            lemma_idx_of(s, a);
        },
    }
    lemma_scan_pos_range(s, l, r, l, peer);
}

/// The element `k` of an insertion run: the first carries the operation's
/// own anchors, later ones anchor to their immediate predecessor.
pub open spec fn run_elem(id0: ID, ol: Option<ID>, or: Option<ID>, items: Seq<ItemV>, k: int)
    -> ElemV {
    ElemV {
        id: ID { peer: id0.peer, counter: (id0.counter + k) as Counter },
        origin_left: if k == 0 {
            ol
        } else {
            Some(ID { peer: id0.peer, counter: (id0.counter + k - 1) as Counter })
        },
        origin_right: or,
        deleters: Seq::empty(),
        alive: true,
        item: items[k],
    }
}

/// Placing an insertion run, element by element, starting at offset `k`.
pub open spec fn integrate_run(
    s: Seq<ElemV>,
    id0: ID,
    ol: Option<ID>,
    or: Option<ID>,
    items: Seq<ItemV>,
    k: int,
) -> Seq<ElemV>
    decreases items.len() - k,
{
    if 0 <= k < items.len() {
        integrate_run(integrate_one(s, run_elem(id0, ol, or, items, k)), id0, ol, or, items, k + 1)
    } else {
        s
    }
}

/// The first index holding `id`, or `-1`.
pub open spec fn find_id(s: Seq<ID>, id: ID) -> int
    decreases s.len(),
{
    if s.len() == 0 {
        -1
    } else if s[0] == id {
        0
    } else if find_id(s.skip(1), id) < 0 {
        -1
    } else {
        1 + find_id(s.skip(1), id)
    }
}

pub proof fn lemma_find_id(s: Seq<ID>, id: ID)
    ensures
        find_id(s, id) < 0 ==> forall|i: int| 0 <= i < s.len() ==> s[i] != id,
        find_id(s, id) >= 0 ==> find_id(s, id) < s.len() && s[find_id(s, id)] == id && forall|
            i: int,
        | 0 <= i < find_id(s, id) ==> s[i] != id,
    decreases s.len(),
{
    if s.len() > 0 && s[0] != id {
        lemma_find_id(s.skip(1), id);
        assert(forall|i: int| 1 <= i < s.len() ==> s[i] == s.skip(1)[i - 1]);
    }
}

pub proof fn lemma_find_id_at(s: Seq<ID>, id: ID, i: int)
    requires
        0 <= i < s.len(),
        s[i] == id,
        forall|j: int| 0 <= j < i ==> s[j] != id,
    ensures
        find_id(s, id) == i,
    decreases i,
{
    if i > 0 {
        assert(forall|j: int| 0 <= j < s.skip(1).len() ==> s.skip(1)[j] == s[j + 1]);
        lemma_find_id_at(s.skip(1), id, i - 1);
    }
}

/// The least index of `id` in `v`, as an exec search.
pub fn find_id_at(v: &Vec<ID>, id: ID) -> (r: Option<usize>)
    ensures
        r is Some <==> find_id(v@, id) >= 0,
        r is Some ==> r->0 == find_id(v@, id) && r->0 < v@.len(),
{
    proof {
        lemma_find_id(v@, id);
    }
    let n = v.len();
    let mut i: usize = 0;
    while i < n
        invariant
            n == v@.len(),
            0 <= i <= n,
            forall|k: int| 0 <= k < i ==> v@[k] != id,
        decreases n - i,
    {
        if v[i] == id {
            proof {
                lemma_find_id_at(v@, id, i as int);
            }
            return Some(i);
        }
        i = i + 1;
    }
    None
}

/// The effect of a deletion on one element: targeted elements lose
/// visibility and record the deleting identifier.
pub open spec fn delete_elem(e: ElemV, did: ID, targets: Seq<ID>) -> ElemV {
    let k = find_id(targets, e.id);
    if k >= 0 {
        ElemV {
            id: e.id,
            origin_left: e.origin_left,
            origin_right: e.origin_right,
            deleters: e.deleters.push(ID { peer: did.peer, counter: (did.counter + k) as Counter }),
            alive: false,
            item: e.item,
        }
    } else {
        e
    }
}

pub open spec fn apply_delete(s: Seq<ElemV>, did: ID, targets: Seq<ID>) -> Seq<ElemV> {
    Seq::new(s.len(), |i: int| delete_elem(s[i], did, targets))
}

/// Whether any recorded deleter of an element is covered by the version.
pub open spec fn any_deleter_included(ds: Seq<ID>, vv: VersionVector) -> bool {
    exists|k: int| 0 <= k < ds.len() && vv.spec_includes(#[trigger] ds[k])
}

/// Visibility of every element under an arbitrary version: inserted and not
/// yet deleted by any operation the version covers.
pub open spec fn apply_checkout(s: Seq<ElemV>, vv: VersionVector) -> Seq<ElemV> {
    Seq::new(
        s.len(),
        |i: int|
            ElemV {
                id: s[i].id,
                origin_left: s[i].origin_left,
                origin_right: s[i].origin_right,
                deleters: s[i].deleters,
                alive: vv.spec_includes(s[i].id) && !any_deleter_included(s[i].deleters, vv),
                item: s[i].item,
            },
    )
}

/// Text payloads as items.
pub open spec fn chars_items(s: Seq<char>) -> Seq<ItemV>
    decreases s.len(),
{
    if s.len() == 0 {
        Seq::empty()
    } else {
        chars_items(s.drop_last()).push(ItemV::Ch(s.last() as u32))
    }
}

pub proof fn lemma_chars_items(s: Seq<char>)
    ensures
        chars_items(s).len() == s.len(),
        forall|i: int| 0 <= i < s.len() ==> chars_items(s)[i] == ItemV::Ch((#[trigger] s[i]) as u32),
    decreases s.len(),
{
    if s.len() > 0 {
        lemma_chars_items(s.drop_last());
        assert forall|i: int|
            0 <= i < s.len() implies chars_items(s)[i] == ItemV::Ch(s[i] as u32) by {
            if i < s.len() - 1 {
                assert(s.drop_last()[i] == s[i]);
                assert(chars_items(s)[i] == chars_items(s.drop_last())[i]);
            }
        }
    }
}

/// List payloads as items.
pub open spec fn values_items(s: Seq<LvView>) -> Seq<ItemV>
    decreases s.len(),
{
    if s.len() == 0 {
        Seq::empty()
    } else {
        values_items(s.drop_last()).push(ItemV::Val(s.last()))
    }
}

pub proof fn lemma_values_items(s: Seq<LvView>)
    ensures
        values_items(s).len() == s.len(),
        forall|i: int| 0 <= i < s.len() ==> values_items(s)[i] == ItemV::Val(#[trigger] s[i]),
    decreases s.len(),
{
    if s.len() > 0 {
        lemma_values_items(s.drop_last());
        assert forall|i: int| 0 <= i < s.len() implies values_items(s)[i] == ItemV::Val(s[i]) by {
            if i < s.len() - 1 {
                assert(s.drop_last()[i] == s[i]);
                assert(values_items(s)[i] == values_items(s.drop_last())[i]);
            }
        }
    }
}

/// The effect of one sequence operation on the element order. Operations of
/// other container kinds leave a tracker unchanged.
pub open spec fn tracker_step(s: Seq<ElemV>, op: OpView) -> Seq<ElemV> {
    match op.content {
        OcView::TextInsert { origin_left, origin_right, chars } => integrate_run(
            s,
            op.id,
            origin_left,
            origin_right,
            chars_items(chars),
            0,
        ),
        OcView::ListInsert { origin_left, origin_right, values } => integrate_run(
            s,
            op.id,
            origin_left,
            origin_right,
            values_items(values),
            0,
        ),
        OcView::SeqDelete { targets } => apply_delete(s, op.id, targets),
        OcView::MapSet { .. } => s,
        OcView::TreeMove { .. } => s,
    }
}

/// The visible payloads, in element order.
pub open spec fn visible_items(s: Seq<ElemV>) -> Seq<ItemV>
    decreases s.len(),
{
    if s.len() == 0 {
        Seq::empty()
    } else if s.last().alive {
        visible_items(s.drop_last()).push(s.last().item)
    } else {
        visible_items(s.drop_last())
    }
}

/// The visible code points of a text tracker (non-character payloads carry
/// no text).
pub open spec fn visible_points(s: Seq<ElemV>) -> Seq<u32>
    decreases s.len(),
{
    if s.len() == 0 {
        Seq::empty()
    } else if s.last().alive && s.last().item is Ch {
        visible_points(s.drop_last()).push(s.last().item->Ch_0)
    } else {
        visible_points(s.drop_last())
    }
}

/// The visible values of a list tracker.
pub open spec fn visible_values(s: Seq<ElemV>) -> Seq<LvView>
    decreases s.len(),
{
    if s.len() == 0 {
        Seq::empty()
    } else if s.last().alive && s.last().item is Val {
        visible_values(s.drop_last()).push(s.last().item->Val_0)
    } else {
        visible_values(s.drop_last())
    }
}

/// Whether an element occupies a visible position of the given kind:
/// `text` selects character payloads, otherwise list payloads.
pub open spec fn sel(e: ElemV, text: bool) -> bool {
    e.alive && (if text {
        e.item is Ch
    } else {
        e.item is Val
    })
}

/// The number of visible positions of the given kind.
pub open spec fn sel_count(s: Seq<ElemV>, text: bool) -> int
    decreases s.len(),
{
    if s.len() == 0 {
        0
    } else {
        sel_count(s.drop_last(), text) + if sel(s.last(), text) {
            1int
        } else {
            0int
        }
    }
}

/// The identifiers of the visible positions of the given kind, in order.
pub open spec fn sel_ids(s: Seq<ElemV>, text: bool) -> Seq<ID>
    decreases s.len(),
{
    if s.len() == 0 {
        Seq::empty()
    } else if sel(s.last(), text) {
        sel_ids(s.drop_last(), text).push(s.last().id)
    } else {
        sel_ids(s.drop_last(), text)
    }
}

pub proof fn lemma_sel_count_step(s: Seq<ElemV>, i: int, text: bool)
    requires
        0 <= i < s.len(),
    ensures
        sel_count(s.take(i + 1), text) == sel_count(s.take(i), text) + if sel(s[i], text) {
            1int
        } else {
            0int
        },
{
    assert(s.take(i + 1).drop_last() =~= s.take(i));
    assert(s.take(i + 1).last() == s[i]);
}

pub proof fn lemma_sel_ids_step(s: Seq<ElemV>, i: int, text: bool)
    requires
        0 <= i < s.len(),
    ensures
        sel_ids(s.take(i + 1), text) == if sel(s[i], text) {
            sel_ids(s.take(i), text).push(s[i].id)
        } else {
            sel_ids(s.take(i), text)
        },
{
    assert(s.take(i + 1).drop_last() =~= s.take(i));
    assert(s.take(i + 1).last() == s[i]);
}

pub proof fn lemma_sel_ids_len(s: Seq<ElemV>, text: bool)
    ensures
        sel_ids(s, text).len() == sel_count(s, text),
    decreases s.len(),
{
    if s.len() > 0 {
        lemma_sel_ids_len(s.drop_last(), text);
    }
}

/// A prefix never selects more elements than any extension of it.
pub proof fn lemma_sel_count_mono(s: Seq<ElemV>, i: int, text: bool)
    requires
        0 <= i <= s.len(),
    ensures
        sel_count(s.take(i), text) <= sel_count(s, text),
    decreases s.len() - i,
{
    if i < s.len() {
        lemma_sel_count_step(s, i, text);
        lemma_sel_count_mono(s, i + 1, text);
    } else {
        assert(s.take(i) =~= s);
    }
}

/// A tracker for one sequence container: the run of every insertion ever
/// applied, with current visibility. Deleted content keeps its place in the
/// identifier keyspace with zero visible length.
pub struct Tracker {
    pub elems: Vec<SeqElem>,
}

impl Tracker {
    pub open spec fn model(self) -> Seq<ElemV> {
        self.elems.deep_view()
    }

    /// A tracker with no elements.
    pub fn new() -> (r: Self)
        ensures
            r.model() == Seq::<ElemV>::empty(),
    {
        let r = Tracker { elems: Vec::new() };
        proof {
            assert(r.model() =~= Seq::<ElemV>::empty());
        }
        r
    }

    /// The first index holding the identifier.
    fn find_index(&self, id: ID) -> (r: Option<usize>)
        ensures
            r is Some <==> idx_of(self.model(), id) >= 0,
            r is Some ==> r->0 == idx_of(self.model(), id) && r->0 < self.elems@.len(),
    {
        proof {
            lemma_idx_of(self.model(), id);
        }
        let n = self.elems.len();
        let mut i: usize = 0;
        while i < n
            invariant
                n == self.elems@.len(),
                n == self.model().len(),
                0 <= i <= n,
                forall|j: int| 0 <= j < i ==> (#[trigger] self.model()[j]).id != id,
                self.model() == self.elems.deep_view(),
            decreases n - i,
        {
            if self.elems[i].id == id {
                proof {
                    assert(self.model()[i as int].id == id);
                    lemma_idx_of_at(self.model(), id, i as int);
                }
                return Some(i);
            }
            proof {
                assert(self.model()[i as int] == self.elems@[i as int].deep_view());
            }
            i = i + 1;
        }
        None
    }

    /// Places one element by the anchor scan.
    #[verifier::loop_isolation(false)]
    fn integrate_elem(&mut self, e: SeqElem) -> (pos: usize)
        ensures
            final(self).model() == integrate_one(old(self).model(), e.deep_view()),
            pos == insert_pos(
                old(self).model(),
                e.deep_view().origin_left,
                e.deep_view().origin_right,
                e.id.peer,
            ),
    {
        let ghost s = self.model();
        let ghost ev = e.deep_view();
        proof {
            lemma_left_pos_range(s, ev.origin_left);
            lemma_insert_pos_range(s, ev.origin_left, ev.origin_right, e.id.peer);
        }
        let n = self.elems.len();
        let l: usize = match e.origin_left {
            None => 0,
            Some(a) => match self.find_index(a) {
                Some(i) => i + 1,
                None => 0,
            },
        };
        proof {
            assert(l as int == left_pos(s, ev.origin_left));
        }
        let r: usize = match e.origin_right {
            None => n,
            Some(a) => match self.find_index(a) {
                Some(i) => if i >= l {
                    i
                } else {
                    n
                },
                None => n,
            },
        };
        proof {
            assert(r as int == right_pos(s, ev.origin_right, l as int));
            assert(n == s.len());
            assert(r <= n);
            assert(l as int <= r as int) by {
                match ev.origin_right {
                    None => {
                        assert(l <= n);
                    },
                    Some(a) => {},
                }
            }
        }
        let mut i: usize = l;
        while i < r
            invariant
                l <= i <= r,
                scan_pos(s, l as int, r as int, l as int, e.id.peer) == scan_pos(
                    s,
                    l as int,
                    r as int,
                    i as int,
                    e.id.peer,
                ),
            decreases r - i,
        {
            let opos: usize = match self.elems[i].origin_left {
                None => 0,
                Some(a) => match self.find_index(a) {
                    Some(j) => j + 1,
                    None => 0,
                },
            };
            proof {
                assert(opos as int == left_pos(s, s[i as int].origin_left));
            }
            if opos > l {
                i = i + 1;
            } else if opos == l && self.elems[i].id.peer < e.id.peer {
                proof {
                    assert(s[i as int].id.peer == self.elems@[i as int].deep_view().id.peer);
                }
                i = i + 1;
            } else {
                break;
            }
        }
        proof {
            assert(scan_pos(s, l as int, r as int, i as int, e.id.peer) == i as int);
        }
        self.elems.insert(i, e);
        proof {
            assert(self.elems.deep_view() =~= s.insert(i as int, ev));
        }
        i
    }

    /// Applies an insertion run: element `k` gets identifier `id0 + k` and,
    /// for `k > 0`, anchors to its predecessor `id0 + k - 1`.
    #[verifier::loop_isolation(false)]
    fn integrate_items(
        &mut self,
        id0: ID,
        origin_left: Option<ID>,
        origin_right: Option<ID>,
        items: Vec<Item>,
    )
        requires
            0 <= id0.counter,
            id0.counter + items@.len() <= Counter::MAX,
        ensures
            final(self).model() == integrate_run(
                old(self).model(),
                id0,
                origin_left,
                origin_right,
                items.deep_view(),
                0,
            ),
    {
        let ghost iv = items.deep_view();
        let n = items.len();
        proof {
            assert(iv.len() == n);
        }
        let mut items = items;
        let mut k: usize = 0;
        while k < n
            invariant
                0 <= k <= n,
                items@.len() == n - k,
                forall|j: int|
                    0 <= j < n - k ==> (#[trigger] items@[j]).deep_view() == iv[j + k],
                integrate_run(old(self).model(), id0, origin_left, origin_right, iv, 0)
                    == integrate_run(self.model(), id0, origin_left, origin_right, iv, k as int),
            decreases n - k,
        {
            let item = items.remove(0);
            let ol = if k == 0 {
                origin_left
            } else {
                Some(ID { peer: id0.peer, counter: id0.counter + (k as Counter) - 1 })
            };
            let e = SeqElem {
                id: ID { peer: id0.peer, counter: id0.counter + (k as Counter) },
                origin_left: ol,
                origin_right,
                deleters: Vec::new(),
                alive: true,
                item,
            };
            proof {
                assert(e.deep_view().deleters =~= Seq::<ID>::empty());
                assert(e.deep_view() == run_elem(id0, origin_left, origin_right, iv, k as int));
            }
            self.integrate_elem(e);
            k = k + 1;
        }
    }

    /// Tombstones every element named in `targets`; element `targets[k]`
    /// records `did + k` as its deleter.
    #[verifier::loop_isolation(false)]
    fn delete_targets(&mut self, did: ID, targets: &Vec<ID>)
        requires
            0 <= did.counter,
            did.counter + targets@.len() <= Counter::MAX,
        ensures
            final(self).model() == apply_delete(old(self).model(), did, targets@),
    {
        let ghost s = old(self).model();
        let n = self.elems.len();
        let mut i: usize = 0;
        while i < n
            invariant
                0 <= i <= n,
                self.elems@.len() == n,
                forall|j: int| i <= j < n ==> #[trigger] self.model()[j] == s[j],
                forall|j: int|
                    0 <= j < i ==> #[trigger] self.model()[j] == delete_elem(s[j], did, targets@),
            decreases n - i,
        {
            let eid = self.elems[i].id;
            match find_id_at(targets, eid) {
                Some(k) => {
                    let ghost pre = self.elems@;
                    let ghost pre_model = self.model();
                    let mut ds = crate::op::copy_vec(&self.elems[i].deleters);
                    ds.push(ID { peer: did.peer, counter: did.counter + (k as Counter) });
                    let e = SeqElem {
                        id: eid,
                        origin_left: self.elems[i].origin_left,
                        origin_right: self.elems[i].origin_right,
                        deleters: ds,
                        alive: false,
                        item: self.elems[i].item.dup(),
                    };
                    self.elems[i] = e;
                    proof {
                        assert forall|j: int|
                            0 <= j < n && j != i implies #[trigger] self.model()[j]
                            == pre_model[j] by {
                            assert(self.elems@[j] == pre[j]);
                        }
                        assert(self.model()[i as int] == delete_elem(s[i as int], did, targets@));
                    }
                },
                None => {
                    proof {
                        assert(self.model()[i as int] == delete_elem(s[i as int], did, targets@));
                    }
                },
            }
            i = i + 1;
        }
        proof {
            assert(self.model() =~= apply_delete(s, did, targets@));
        }
    }

    /// Applies one operation directly to the current element order.
    /// Operations addressed to other container kinds leave it unchanged.
    #[verifier::loop_isolation(false)]
    pub fn apply(&mut self, op: &Op)
        requires
            op.deep_view().wf(),
        ensures
            final(self).model() == tracker_step(old(self).model(), op.deep_view()),
    {
        match &op.content {
            OpContent::TextInsert { origin_left, origin_right, chars } => {
                let n = chars.len();
                let mut items: Vec<Item> = Vec::new();
                let mut k: usize = 0;
                while k < n
                    invariant
                        0 <= k <= n,
                        n == chars@.len(),
                        items@.len() == k,
                        forall|j: int|
                            0 <= j < k ==> (#[trigger] items@[j]).deep_view() == ItemV::Ch(
                                chars@[j] as u32,
                            ),
                    decreases n - k,
                {
                    items.push(Item::ch(chars[k]));
                    k = k + 1;
                }
                proof {
                    lemma_chars_items(chars@);
                    assert(items.deep_view() =~= chars_items(chars@));
                }
                self.integrate_items(op.id, *origin_left, *origin_right, items);
            },
            OpContent::ListInsert { origin_left, origin_right, values } => {
                let n = values.len();
                proof {
                    crate::value::lemma_lv_seq_view(values@);
                }
                let mut items: Vec<Item> = Vec::new();
                let mut k: usize = 0;
                while k < n
                    invariant
                        0 <= k <= n,
                        n == values@.len(),
                        items@.len() == k,
                        forall|j: int|
                            0 <= j < k ==> (#[trigger] items@[j]).deep_view() == ItemV::Val(
                                lv_view(values@[j]),
                            ),
                    decreases n - k,
                {
                    items.push(Item::Val(values[k].dup()));
                    k = k + 1;
                }
                proof {
                    crate::value::lemma_lv_seq_view(values@);
                    lemma_values_items(crate::value::lv_seq_view(values@));
                    assert(items.deep_view() =~= values_items(crate::value::lv_seq_view(values@)));
                }
                self.integrate_items(op.id, *origin_left, *origin_right, items);
            },
            OpContent::SeqDelete { targets } => {
                self.delete_targets(op.id, targets);
            },
            OpContent::MapSet { .. } => {
            },
            OpContent::TreeMove { .. } => {
            },
        }
    }

    /// Recomputes every element's visibility for an arbitrary version:
    /// visible exactly when inserted under `vv` and deleted by no operation
    /// `vv` covers.
    #[verifier::loop_isolation(false)]
    pub fn checkout(&mut self, vv: &VersionVector)
        requires
            vv.wf(),
        ensures
            final(self).model() == apply_checkout(old(self).model(), *vv),
    {
        let ghost s = old(self).model();
        let n = self.elems.len();
        let mut i: usize = 0;
        while i < n
            invariant
                0 <= i <= n,
                self.elems@.len() == n,
                forall|j: int| i <= j < n ==> #[trigger] self.model()[j] == s[j],
                forall|j: int|
                    0 <= j < i ==> #[trigger] self.model()[j] == apply_checkout(s, *vv)[j],
            decreases n - i,
        {
            let inserted = vv.includes_id(self.elems[i].id);
            let mut any_del = false;
            let dn = self.elems[i].deleters.len();
            let mut k: usize = 0;
            while k < dn
                invariant
                    0 <= k <= dn == self.elems@[i as int].deleters@.len(),
                    i < n == self.elems@.len(),
                    any_del == exists|j: int|
                        0 <= j < k && vv.spec_includes(
                            #[trigger] self.elems@[i as int].deleters@[j],
                        ),
                decreases dn - k,
            {
                if vv.includes_id(self.elems[i].deleters[k]) {
                    any_del = true;
                }
                k = k + 1;
            }
            proof {
                assert(self.model()[i as int] == s[i as int]);
                assert(any_del == any_deleter_included(s[i as int].deleters, *vv));
            }
            let alive = inserted && !any_del;
            let ghost pre = self.elems@;
            let ghost pre_model = self.model();
            let e = SeqElem {
                id: self.elems[i].id,
                origin_left: self.elems[i].origin_left,
                origin_right: self.elems[i].origin_right,
                deleters: crate::op::copy_vec(&self.elems[i].deleters),
                alive,
                item: self.elems[i].item.dup(),
            };
            self.elems[i] = e;
            proof {
                assert forall|j: int|
                    0 <= j < n && j != i implies #[trigger] self.model()[j] == pre_model[j] by {
                    assert(self.elems@[j] == pre[j]);
                }
                assert(self.model()[i as int] == apply_checkout(s, *vv)[i as int]);
            }
            i = i + 1;
        }
        proof {
            assert(self.model() =~= apply_checkout(s, *vv));
        }
    }

    /// The number of visible elements of the given kind.
    #[verifier::loop_isolation(false)]
    pub fn visible_len(&self, text: bool) -> (r: usize)
        ensures
            r == sel_count(self.model(), text),
    {
        let ghost s = self.model();
        let n = self.elems.len();
        let mut cnt: usize = 0;
        let mut i: usize = 0;
        while i < n
            invariant
                0 <= i <= n,
                cnt == sel_count(s.take(i as int), text),
                cnt <= i,
            decreases n - i,
        {
            proof {
                lemma_sel_count_step(s, i as int, text);
            }
            let e = &self.elems[i];
            let hit = match (&e.item, text) {
                (Item::Ch(_), true) => e.alive,
                (Item::Val(_), false) => e.alive,
                _ => false,
            };
            if hit {
                cnt = cnt + 1;
            }
            i = i + 1;
        }
        proof {
            assert(s.take(n as int) =~= s);
        }
        cnt
    }

    /// The element order index of the `p`-th visible element of the given
    /// kind; `None` exactly when fewer than `p + 1` are visible.
    #[verifier::loop_isolation(false)]
    pub fn nth_visible(&self, p: usize, text: bool) -> (r: Option<usize>)
        ensures
            r is Some <==> p < sel_count(self.model(), text),
            r is Some ==> r->0 < self.model().len() && sel(self.model()[r->0 as int], text)
                && sel_count(self.model().take(r->0 as int), text) == p,
    {
        let ghost s = self.model();
        let n = self.elems.len();
        let mut cnt: usize = 0;
        let mut i: usize = 0;
        while i < n
            invariant
                0 <= i <= n,
                cnt == sel_count(s.take(i as int), text),
                cnt <= p,
            decreases n - i,
        {
            proof {
                lemma_sel_count_step(s, i as int, text);
            }
            let e = &self.elems[i];
            let hit = match (&e.item, text) {
                (Item::Ch(_), true) => e.alive,
                (Item::Val(_), false) => e.alive,
                _ => false,
            };
            if hit {
                if cnt == p {
                    proof {
                        lemma_sel_count_mono(s, i + 1, text);
                    }
                    return Some(i);
                }
                cnt = cnt + 1;
            }
            i = i + 1;
        }
        proof {
            assert(s.take(n as int) =~= s);
        }
        None
    }

    /// The identifier of the element at an element order index.
    pub fn elem_id(&self, a: usize) -> (r: ID)
        requires
            a < self.model().len(),
        ensures
            r == self.model()[a as int].id,
    {
        self.elems[a].id
    }

    /// The identifiers of the visible elements of the given kind at
    /// positions `[pos, pos + len)`; `None` exactly when the range exceeds
    /// the visible length.
    #[verifier::loop_isolation(false)]
    pub fn range_ids(&self, pos: usize, len: usize, text: bool) -> (r: Option<Vec<ID>>)
        ensures
            r is Some <==> pos + len <= sel_count(self.model(), text),
            r is Some ==> r->0@ == sel_ids(self.model(), text).subrange(
                pos as int,
                pos as int + len as int,
            ),
    {
        let ghost s = self.model();
        proof {
            lemma_sel_ids_len(s, text);
        }
        let n = self.elems.len();
        let mut all: Vec<ID> = Vec::new();
        let mut i: usize = 0;
        while i < n
            invariant
                0 <= i <= n,
                all@ =~= sel_ids(s.take(i as int), text),
                all@.len() == sel_count(s.take(i as int), text),
                all@.len() <= i,
            decreases n - i,
        {
            proof {
                lemma_sel_count_step(s, i as int, text);
                lemma_sel_ids_step(s, i as int, text);
            }
            let e = &self.elems[i];
            let hit = match (&e.item, text) {
                (Item::Ch(_), true) => e.alive,
                (Item::Val(_), false) => e.alive,
                _ => false,
            };
            if hit {
                all.push(e.id);
            }
            i = i + 1;
        }
        proof {
            assert(s.take(n as int) =~= s);
        }
        if pos > all.len() || len > all.len() - pos {
            return None;
        }
        let mut out: Vec<ID> = Vec::new();
        let mut k: usize = pos;
        while k < pos + len
            invariant
                pos <= k <= pos + len <= all@.len(),
                out@ =~= all@.subrange(pos as int, k as int),
            decreases pos + len - k,
        {
            out.push(all[k]);
            proof {
                assert(out@ =~= all@.subrange(pos as int, k + 1));
            }
            k = k + 1;
        }
        Some(out)
    }

    /// The visible text, in order.
    #[verifier::loop_isolation(false)]
    pub fn text_value(&self) -> (r: String)
        ensures
            str_points(r@) == visible_points(self.model()),
    {
        let ghost s = self.model();
        let n = self.elems.len();
        let mut out = String::new();
        let mut i: usize = 0;
        while i < n
            invariant
                0 <= i <= n,
                str_points(out@) =~= visible_points(s.take(i as int)),
            decreases n - i,
        {
            proof {
                assert(s.take(i + 1).drop_last() =~= s.take(i as int));
            }
            let e = &self.elems[i];
            if e.alive {
                match &e.item {
                    Item::Ch(c) => {
                        let ghost pre = out@;
                        crate::strutil::push_char(&mut out, *c);
                        proof {
                            assert(out@.drop_last() =~= pre);
                        }
                    },
                    Item::Val(_) => {},
                }
            }
            i = i + 1;
        }
        proof {
            assert(s.take(n as int) =~= s);
        }
        out
    }

    /// The visible list values, in order.
    #[verifier::loop_isolation(false)]
    pub fn list_values(&self) -> (r: Vec<LoroValue>)
        ensures
            crate::value::lv_seq_view(r@) == visible_values(self.model()),
    {
        let ghost s = self.model();
        let n = self.elems.len();
        let mut out: Vec<LoroValue> = Vec::new();
        let mut i: usize = 0;
        while i < n
            invariant
                0 <= i <= n,
                crate::value::lv_seq_view(out@) =~= visible_values(s.take(i as int)),
            decreases n - i,
        {
            proof {
                assert(s.take(i + 1).drop_last() =~= s.take(i as int));
            }
            let e = &self.elems[i];
            if e.alive {
                match &e.item {
                    Item::Ch(_) => {},
                    Item::Val(v) => {
                        let ghost pre = out@;
                        out.push(v.dup());
                        proof {
                            assert(out@.drop_last() =~= pre);
                        }
                    },
                }
            }
            i = i + 1;
        }
        proof {
            assert(s.take(n as int) =~= s);
        }
        out
    }

    /// Span activation is represented element-wise here; the call keeps the
    /// tracker unchanged and exists for interface parity.
    pub fn turn_on(&mut self, _id: IdSpan)
        ensures
            *final(self) == *old(self),
    {
    }

    /// See [`Tracker::turn_on`].
    pub fn turn_off(&mut self, _id: IdSpan)
        ensures
            *final(self) == *old(self),
    {
    }
}

} // verus!
