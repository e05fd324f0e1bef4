//! Materialized container state and the state interpretation.
//!
//! Every container's state is the left fold of that container's own
//! operations, taken in the document's canonical operation order. The fold —
//! [`interp_cont`] — is a function of the operation sequence alone, so two
//! replicas whose logs hold the same operations materialize identical state
//! for every container.

use vstd::prelude::*;

use crate::container::CidView;
use crate::container::ContainerID;
use crate::container::ContainerType;
use crate::container::TreeID;
use crate::id::Lamport;
use crate::id::PeerID;
use crate::op::OcView;
use crate::op::Op;
use crate::op::OpContent;
use crate::op::OpView;
use crate::tracker::Tracker;
use crate::tracker::ElemV;
use crate::tracker::tracker_step;
use crate::value::LoroValue;
use crate::value::LvView;
use crate::value::lv_view;

verus! {

/// One last-writer-wins register of a map container.
pub struct MapEntry {
    pub key: String,
    pub value: Option<LoroValue>,
    pub lamport: Lamport,
    pub peer: PeerID,
}

/// The mathematical shape of a register.
pub struct MapEntryV {
    pub key: Seq<char>,
    pub value: Option<LvView>,
    pub lamport: Lamport,
    pub peer: PeerID,
}

impl DeepView for MapEntry {
    type V = MapEntryV;

    open spec fn deep_view(&self) -> MapEntryV {
        MapEntryV {
            key: self.key@,
            value: match &self.value {
                None => None,
                Some(v) => Some(lv_view(*v)),
            },
            lamport: self.lamport,
            peer: self.peer,
        }
    }
}

/// A map container: one register per key, in first-write order.
pub struct MapState {
    pub entries: Vec<MapEntry>,
}

/// The first entry index holding `key`, or `-1`.
pub open spec fn find_key(es: Seq<MapEntryV>, key: Seq<char>) -> int
    decreases es.len(),
{
    if es.len() == 0 {
        -1
    } else if es[0].key == key {
        0
    } else if find_key(es.skip(1), key) < 0 {
        -1
    } else {
        1 + find_key(es.skip(1), key)
    }
}

pub proof fn lemma_find_key(es: Seq<MapEntryV>, key: Seq<char>)
    ensures
        find_key(es, key) < 0 ==> forall|i: int| 0 <= i < es.len() ==> (#[trigger] es[i]).key
            != key,
        find_key(es, key) >= 0 ==> find_key(es, key) < es.len() && es[find_key(es, key)].key
            == key && forall|i: int|
            0 <= i < find_key(es, key) ==> (#[trigger] es[i]).key != key,
    decreases es.len(),
{
    if es.len() > 0 && es[0].key != key {
        lemma_find_key(es.skip(1), key);
        assert(forall|i: int| 1 <= i < es.len() ==> es[i] == es.skip(1)[i - 1]);
    }
}

pub proof fn lemma_find_key_at(es: Seq<MapEntryV>, key: Seq<char>, i: int)
    requires
        0 <= i < es.len(),
        es[i].key == key,
        forall|j: int| 0 <= j < i ==> (#[trigger] es[j]).key != key,
    ensures
        find_key(es, key) == i,
    decreases i,
{
    if i > 0 {
        assert(forall|j: int| 0 <= j < es.skip(1).len() ==> es.skip(1)[j] == es[j + 1]);
        lemma_find_key_at(es.skip(1), key, i - 1);
    }
}

/// The last-writer-wins order on writes: by Lamport stamp, ties by peer.
pub open spec fn write_wins(l1: Lamport, p1: PeerID, l2: Lamport, p2: PeerID) -> bool {
    l1 > l2 || (l1 == l2 && p1 >= p2)
}

/// The effect of one map write: the key's register adopts the write exactly
/// when the write wins against the register's current writer.
pub open spec fn map_step(es: Seq<MapEntryV>, op: OpView) -> Seq<MapEntryV> {
    match op.content {
        OcView::MapSet { key, value } => {
            let k = find_key(es, key);
            let e = MapEntryV { key, value, lamport: op.lamport, peer: op.id.peer };
            if k < 0 {
                es.push(e)
            } else if write_wins(op.lamport, op.id.peer, es[k].lamport, es[k].peer) {
                es.update(k, e)
            } else {
                es
            }
        },
        _ => es,
    }
}

/// A node of a tree container: its address and current parent. `None` means
/// the node sits at the root; the deleted-root sentinel marks tombstoned
/// subtrees.
#[derive(Clone, Copy, PartialEq, Eq, Structural, Debug)]
pub struct TreeNode {
    pub id: TreeID,
    pub parent: Option<TreeID>,
}

/// A tree container: a parent-pointer forest in first-sight order.
pub struct TreeState {
    pub nodes: Vec<TreeNode>,
}

/// The first node index holding `id`, or `-1`.
pub open spec fn find_node(ns: Seq<TreeNode>, id: TreeID) -> int
    decreases ns.len(),
{
    if ns.len() == 0 {
        -1
    } else if ns[0].id == id {
        0
    } else if find_node(ns.skip(1), id) < 0 {
        -1
    } else {
        1 + find_node(ns.skip(1), id)
    }
}

pub proof fn lemma_find_node(ns: Seq<TreeNode>, id: TreeID)
    ensures
        find_node(ns, id) < 0 ==> forall|i: int| 0 <= i < ns.len() ==> (#[trigger] ns[i]).id
            != id,
        find_node(ns, id) >= 0 ==> find_node(ns, id) < ns.len() && ns[find_node(ns, id)].id
            == id && forall|i: int|
            0 <= i < find_node(ns, id) ==> (#[trigger] ns[i]).id != id,
    decreases ns.len(),
{
    if ns.len() > 0 && ns[0].id != id {
        lemma_find_node(ns.skip(1), id);
        assert(forall|i: int| 1 <= i < ns.len() ==> ns[i] == ns.skip(1)[i - 1]);
    }
}

pub proof fn lemma_find_node_at(ns: Seq<TreeNode>, id: TreeID, i: int)
    requires
        0 <= i < ns.len(),
        ns[i].id == id,
        forall|j: int| 0 <= j < i ==> (#[trigger] ns[j]).id != id,
    ensures
        find_node(ns, id) == i,
    decreases i,
{
    if i > 0 {
        assert(forall|j: int| 0 <= j < ns.skip(1).len() ==> ns.skip(1)[j] == ns[j + 1]);
        lemma_find_node_at(ns.skip(1), id, i - 1);
    }
}

/// The ancestor-chain walk: whether placing `target` under `cur` would close
/// a cycle. The walk follows parent pointers; unknown parents count as
/// roots; the fuel bounds the walk and exhaustion counts as a cycle.
pub open spec fn walk_hits(ns: Seq<TreeNode>, target: TreeID, cur: Option<TreeID>, fuel: int)
    -> bool
    decreases fuel,
{
    if fuel <= 0 {
        true
    } else {
        match cur {
            None => false,
            Some(p) => {
                if p == target {
                    true
                } else {
                    let k = find_node(ns, p);
                    if k < 0 {
                        false
                    } else {
                        walk_hits(ns, target, ns[k].parent, fuel - 1)
                    }
                }
            },
        }
    }
}

/// The effect of one tree move: a move that would close a cycle is rejected
/// against the current state; otherwise the node adopts the new parent,
/// appearing on first sight.
pub open spec fn tree_step(ns: Seq<TreeNode>, op: OpView) -> Seq<TreeNode> {
    match op.content {
        OcView::TreeMove { target, parent } => {
            if walk_hits(ns, target, parent, ns.len() as int + 1) {
                ns
            } else {
                let k = find_node(ns, target);
                if k < 0 {
                    ns.push(TreeNode { id: target, parent })
                } else {
                    ns.update(k, TreeNode { id: target, parent })
                }
            }
        },
        _ => ns,
    }
}

/// The state of one container.
pub enum ContainerState {
    Sequence(Tracker),
    Registers(MapState),
    Forest(TreeState),
}

/// The mathematical shape of a container state.
pub enum ContModel {
    Sequence(Seq<ElemV>),
    Registers(Seq<MapEntryV>),
    Forest(Seq<TreeNode>),
}

impl ContainerState {
    pub open spec fn model(self) -> ContModel {
        match self {
            ContainerState::Sequence(t) => ContModel::Sequence(t.model()),
            ContainerState::Registers(m) => ContModel::Registers(m.entries.deep_view()),
            ContainerState::Forest(t) => ContModel::Forest(t.nodes@),
        }
    }
}

/// The empty state of each container kind.
pub open spec fn empty_model(t: ContainerType) -> ContModel {
    match t {
        ContainerType::Text => ContModel::Sequence(Seq::empty()),
        ContainerType::List => ContModel::Sequence(Seq::empty()),
        ContainerType::Dict => ContModel::Registers(Seq::empty()),
        ContainerType::Tree => ContModel::Forest(Seq::empty()),
    }
}

/// The effect of one operation on one container state. An operation whose
/// payload does not fit the container's kind leaves the state unchanged.
pub open spec fn cont_step(m: ContModel, op: OpView) -> ContModel {
    match m {
        ContModel::Sequence(s) => match op.content {
            OcView::TextInsert { .. } => ContModel::Sequence(tracker_step(s, op)),
            OcView::ListInsert { .. } => ContModel::Sequence(tracker_step(s, op)),
            OcView::SeqDelete { .. } => ContModel::Sequence(tracker_step(s, op)),
            _ => m,
        },
        ContModel::Registers(es) => match op.content {
            OcView::MapSet { .. } => ContModel::Registers(map_step(es, op)),
            _ => m,
        },
        ContModel::Forest(ns) => match op.content {
            OcView::TreeMove { .. } => ContModel::Forest(tree_step(ns, op)),
            _ => m,
        },
    }
}

/// The state of one container after an operation sequence: the left fold of
/// the container's own operations over its empty state.
pub open spec fn interp_cont(ops: Seq<OpView>, cid: CidView) -> ContModel
    decreases ops.len(),
{
    if ops.len() == 0 {
        empty_model(cid.ctype())
    } else if ops.last().container == cid {
        cont_step(interp_cont(ops.drop_last(), cid), ops.last())
    } else {
        interp_cont(ops.drop_last(), cid)
    }
}

impl MapState {
    pub fn new() -> (r: Self)
        ensures
            r.entries.deep_view() == Seq::<MapEntryV>::empty(),
    {
        let r = MapState { entries: Vec::new() };
        proof {
            assert(r.entries.deep_view() =~= Seq::<MapEntryV>::empty());
        }
        r
    }

    /// Applies one map write.
    #[verifier::loop_isolation(false)]
    pub fn apply(&mut self, op: &Op)
        ensures
            final(self).entries.deep_view() == map_step(
                old(self).entries.deep_view(),
                op.deep_view(),
            ),
    {
        let ghost es = old(self).entries.deep_view();
        match &op.content {
            OpContent::MapSet { key, value } => {
                proof {
                    lemma_find_key(es, key@);
                }
                let n = self.entries.len();
                let mut i: usize = 0;
                while i < n
                    invariant
                        0 <= i <= n,
                        n == self.entries@.len(),
                        self.entries@ == old(self).entries@,
                        forall|j: int| 0 <= j < i ==> (#[trigger] es[j]).key != key@,
                    decreases n - i,
                {
                    proof {
                        assert(es[i as int] == self.entries@[i as int].deep_view());
                    }
                    if self.entries[i].key == *key {
                        proof {
                            lemma_find_key_at(es, key@, i as int);
                        }
                        let win = op.lamport > self.entries[i].lamport || (op.lamport
                            == self.entries[i].lamport && op.id.peer >= self.entries[i].peer);
                        if win {
                            let e = MapEntry {
                                key: key.clone(),
                                value: match value {
                                    None => None,
                                    Some(v) => Some(v.dup()),
                                },
                                lamport: op.lamport,
                                peer: op.id.peer,
                            };
                            let ghost pre = self.entries@;
                            self.entries[i] = e;
                            proof {
                                assert forall|j: int|
                                    0 <= j < n && j != i implies #[trigger] self.entries.deep_view()[j]
                                    == es[j] by {
                                    assert(self.entries@[j] == pre[j]);
                                    assert(self.entries.deep_view()[j] == self.entries@[
                                        j].deep_view());
                                }
                                assert(self.entries.deep_view()[i as int] == self.entries@[
                                    i as int].deep_view());
                                assert(self.entries.deep_view() =~= map_step(es, op.deep_view()));
                            }
                        } else {
                            proof {
                                assert(self.entries.deep_view() =~= map_step(es, op.deep_view()));
                            }
                        }
                        return;
                    }
                    i = i + 1;
                }
                let e = MapEntry {
                    key: key.clone(),
                    value: match value {
                        None => None,
                        Some(v) => Some(v.dup()),
                    },
                    lamport: op.lamport,
                    peer: op.id.peer,
                };
                self.entries.push(e);
                proof {
                    assert(self.entries.deep_view() =~= map_step(es, op.deep_view()));
                }
            },
            _ => {
                proof {
                    assert(self.entries.deep_view() =~= map_step(es, op.deep_view()));
                }
            },
        }
    }

    /// The winning value of `key`, if the key holds one.
    #[verifier::loop_isolation(false)]
    pub fn get(&self, key: &str) -> (r: Option<LoroValue>)
        ensures
            ({
                let k = find_key(self.entries.deep_view(), key@);
                match r {
                    None => k < 0 || self.entries.deep_view()[k].value is None,
                    Some(v) => k >= 0 && self.entries.deep_view()[k].value == Some(lv_view(v)),
                }
            }),
    {
        let ghost es = self.entries.deep_view();
        proof {
            lemma_find_key(es, key@);
        }
        let n = self.entries.len();
        let mut i: usize = 0;
        while i < n
            invariant
                0 <= i <= n,
                n == self.entries@.len(),
                forall|j: int| 0 <= j < i ==> (#[trigger] es[j]).key != key@,
            decreases n - i,
        {
            proof {
                assert(es[i as int] == self.entries@[i as int].deep_view());
            }
            if crate::strutil::str_eq(self.entries[i].key.as_str(), key) {
                proof {
                    lemma_find_key_at(es, key@, i as int);
                }
                return match &self.entries[i].value {
                    None => None,
                    Some(v) => Some(v.dup()),
                };
            }
            i = i + 1;
        }
        None
    }
}

impl TreeState {
    pub fn new() -> (r: Self)
        ensures
            r.nodes@ == Seq::<TreeNode>::empty(),
    {
        let r = TreeState { nodes: Vec::new() };
        proof {
            assert(r.nodes@ =~= Seq::<TreeNode>::empty());
        }
        r
    }

    /// The first node index holding `id`.
    fn find(&self, id: TreeID) -> (r: Option<usize>)
        ensures
            r is Some <==> find_node(self.nodes@, id) >= 0,
            r is Some ==> r->0 == find_node(self.nodes@, id) && r->0 < self.nodes@.len(),
    {
        proof {
            lemma_find_node(self.nodes@, id);
        }
        let n = self.nodes.len();
        let mut i: usize = 0;
        while i < n
            invariant
                n == self.nodes@.len(),
                0 <= i <= n,
                forall|j: int| 0 <= j < i ==> (#[trigger] self.nodes@[j]).id != id,
            decreases n - i,
        {
            if self.nodes[i].id == id {
                proof {
                    lemma_find_node_at(self.nodes@, id, i as int);
                }
                return Some(i);
            }
            i = i + 1;
        }
        None
    }

    /// The current parent of `id`: `None` when the node is unknown, `Some`
    /// of its parent pointer otherwise.
    pub fn parent_of(&self, id: TreeID) -> (r: Option<Option<TreeID>>)
        ensures
            ({
                let k = find_node(self.nodes@, id);
                match r {
                    None => k < 0,
                    Some(p) => k >= 0 && p == self.nodes@[k].parent,
                }
            }),
    {
        match self.find(id) {
            None => None,
            Some(i) => Some(self.nodes[i].parent),
        }
    }

    /// Applies one tree move.
    #[verifier::loop_isolation(false)]
    pub fn apply(&mut self, op: &Op)
        ensures
            final(self).nodes@ == tree_step(old(self).nodes@, op.deep_view()),
    {
        let ghost ns = old(self).nodes@;
        match &op.content {
            OpContent::TreeMove { target, parent } => {
                let n = self.nodes.len();
                let mut cur: Option<TreeID> = *parent;
                let mut fuel: usize = n;
                let mut hits: bool = false;
                let mut done: bool = false;
                match cur {
                    None => {
                        hits = false;
                        done = true;
                    },
                    Some(p) => {
                        if p == *target {
                            hits = true;
                            done = true;
                        } else {
                            match self.find(p) {
                                None => {
                                    hits = false;
                                    done = true;
                                },
                                Some(k) => {
                                    cur = self.nodes[k].parent;
                                },
                            }
                        }
                    },
                }
                while !done
                    invariant
                        0 <= fuel <= n,
                        n == self.nodes@.len(),
                        self.nodes@ == ns,
                        !done ==> walk_hits(ns, *target, *parent, n as int + 1) == walk_hits(
                            ns,
                            *target,
                            cur,
                            fuel as int,
                        ),
                        done ==> hits == walk_hits(ns, *target, *parent, n as int + 1),
                    decreases fuel + (if done { 0int } else { 1int }),
                {
                    if fuel == 0 {
                        hits = true;
                        done = true;
                    } else {
                        match cur {
                            None => {
                                hits = false;
                                done = true;
                            },
                            Some(p) => {
                                if p == *target {
                                    hits = true;
                                    done = true;
                                } else {
                                    match self.find(p) {
                                        None => {
                                            hits = false;
                                            done = true;
                                        },
                                        Some(k) => {
                                            cur = self.nodes[k].parent;
                                            fuel = fuel - 1;
                                        },
                                    }
                                }
                            },
                        }
                    }
                }
                if hits {
                    return;
                }
                match self.find(*target) {
                    None => {
                        self.nodes.push(TreeNode { id: *target, parent: *parent });
                        proof {
                            assert(self.nodes@ =~= tree_step(ns, op.deep_view()));
                        }
                    },
                    Some(k) => {
                        self.nodes[k] = TreeNode { id: *target, parent: *parent };
                        proof {
                            assert(self.nodes@ =~= tree_step(ns, op.deep_view()));
                        }
                    },
                }
            },
            _ => {
            },
        }
    }
}

impl ContainerState {
    /// The empty state of a container kind.
    pub fn empty(t: ContainerType) -> (r: Self)
        ensures
            r.model() == empty_model(t),
    {
        match t {
            ContainerType::Text => ContainerState::Sequence(Tracker::new()),
            ContainerType::List => ContainerState::Sequence(Tracker::new()),
            ContainerType::Dict => ContainerState::Registers(MapState::new()),
            ContainerType::Tree => ContainerState::Forest(TreeState::new()),
        }
    }

    /// Applies one operation to this state.
    pub fn apply(&mut self, op: &Op)
        requires
            op.deep_view().wf(),
        ensures
            final(self).model() == cont_step(old(self).model(), op.deep_view()),
    {
        match self {
            ContainerState::Sequence(t) => {
                match &op.content {
                    OpContent::TextInsert { .. } => t.apply(op),
                    OpContent::ListInsert { .. } => t.apply(op),
                    OpContent::SeqDelete { .. } => t.apply(op),
                    _ => {
                    },
                }
            },
            ContainerState::Registers(m) => {
                match &op.content {
                    OpContent::MapSet { .. } => m.apply(op),
                    _ => {
                    },
                }
            },
            ContainerState::Forest(t) => {
                match &op.content {
                    OpContent::TreeMove { .. } => t.apply(op),
                    _ => {
                    },
                }
            },
        }
    }
}

/// The arena: a bidirectional mapping between stable container identifiers
/// and dense runtime indices, with parent links mirroring nesting.
pub struct ContainerArena {
    pub cids: Vec<ContainerID>,
    pub parents: Vec<Option<usize>>,
}

/// The first index of `cid` in the identifier sequence, or `-1`.
pub open spec fn find_cid(s: Seq<CidView>, cid: CidView) -> int
    decreases s.len(),
{
    if s.len() == 0 {
        -1
    } else if s[0] == cid {
        0
    } else if find_cid(s.skip(1), cid) < 0 {
        -1
    } else {
        1 + find_cid(s.skip(1), cid)
    }
}

pub proof fn lemma_find_cid(s: Seq<CidView>, cid: CidView)
    ensures
        find_cid(s, cid) < 0 ==> forall|i: int| 0 <= i < s.len() ==> s[i] != cid,
        find_cid(s, cid) >= 0 ==> find_cid(s, cid) < s.len() && s[find_cid(s, cid)] == cid
            && forall|i: int| 0 <= i < find_cid(s, cid) ==> s[i] != cid,
    decreases s.len(),
{
    if s.len() > 0 && s[0] != cid {
        lemma_find_cid(s.skip(1), cid);
        assert(forall|i: int| 1 <= i < s.len() ==> s[i] == s.skip(1)[i - 1]);
    }
}

pub proof fn lemma_find_cid_at(s: Seq<CidView>, cid: CidView, i: int)
    requires
        0 <= i < s.len(),
        s[i] == cid,
        forall|j: int| 0 <= j < i ==> s[j] != cid,
    ensures
        find_cid(s, cid) == i,
    decreases i,
{
    if i > 0 {
        assert(forall|j: int| 0 <= j < s.skip(1).len() ==> s.skip(1)[j] == s[j + 1]);
        lemma_find_cid_at(s.skip(1), cid, i - 1);
    }
}

impl ContainerArena {
    pub open spec fn cid_views(self) -> Seq<CidView> {
        self.cids.deep_view()
    }

    /// Well-formed: identifiers unique, one parent slot per container.
    pub open spec fn wf(self) -> bool {
        &&& self.parents@.len() == self.cids@.len()
        &&& forall|i: int, j: int|
            0 <= i < j < self.cid_views().len() ==> self.cid_views()[i] != self.cid_views()[j]
    }

    pub fn new() -> (r: Self)
        ensures
            r.wf(),
            r.cid_views() == Seq::<CidView>::empty(),
    {
        let r = ContainerArena { cids: Vec::new(), parents: Vec::new() };
        proof {
            assert(r.cid_views() =~= Seq::<CidView>::empty());
        }
        r
    }

    /// Registers a container identifier: the same identifier always yields
    /// the same index, inserting an entry on first sight.
    #[verifier::loop_isolation(false)]
    pub fn register(&mut self, cid: &ContainerID) -> (r: usize)
        requires
            old(self).wf(),
        ensures
            final(self).wf(),
            r < final(self).cid_views().len(),
            final(self).cid_views()[r as int] == cid@,
            r as int == find_cid(final(self).cid_views(), cid@),
            find_cid(old(self).cid_views(), cid@) >= 0 ==> *final(self) == *old(self) && r as int
                == find_cid(old(self).cid_views(), cid@),
            find_cid(old(self).cid_views(), cid@) < 0 ==> final(self).cid_views() == old(
                self,
            ).cid_views().push(cid@) && r == old(self).cid_views().len() && final(self).parents@
                == old(self).parents@.push(None),
    {
        let ghost s = self.cid_views();
        proof {
            lemma_find_cid(s, cid@);
        }
        let n = self.cids.len();
        let mut i: usize = 0;
        while i < n
            invariant
                0 <= i <= n,
                n == self.cids@.len(),
                forall|j: int| 0 <= j < i ==> s[j] != cid@,
            decreases n - i,
        {
            if self.cids[i].same_as(cid) {
                proof {
                    lemma_find_cid_at(s, cid@, i as int);
                }
                return i;
            }
            i = i + 1;
        }
        self.cids.push(cid.dup());
        self.parents.push(None);
        proof {
            assert(self.cid_views() =~= s.push(cid@));
            lemma_find_cid_at(self.cid_views(), cid@, n as int);
        }
        n
    }

    /// The identifier registered at `idx`, when known.
    pub fn idx_to_id(&self, idx: usize) -> (r: Option<&ContainerID>)
        ensures
            r is Some <==> idx < self.cid_views().len(),
            r is Some ==> r->0@ == self.cid_views()[idx as int],
    {
        if idx < self.cids.len() {
            Some(&self.cids[idx])
        } else {
            None
        }
    }

    /// Overwrites the parent link of a registered container.
    pub fn set_parent(&mut self, idx: usize, parent: Option<usize>)
        requires
            old(self).wf(),
            idx < old(self).cids@.len(),
        ensures
            final(self).wf(),
            final(self).cids == old(self).cids,
            final(self).parents@ == old(self).parents@.update(idx as int, parent),
    {
        self.parents[idx] = parent;
        proof {
            assert(self.cids@ == old(self).cids@);
            assert(self.cid_views() =~= old(self).cid_views());
            assert(self.parents@.len() == old(self).parents@.len());
        }
    }

    /// The parent link of a registered container.
    pub fn parent_of(&self, idx: usize) -> (r: Option<usize>)
        requires
            idx < self.parents@.len(),
        ensures
            r == self.parents@[idx as int],
    {
        self.parents[idx]
    }
}

} // verus!
