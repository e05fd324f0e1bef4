//! Operations and changes: the immutable units of the append-only log.
//!
//! A sequence insertion records its payload together with the two anchor
//! identifiers frozen at creation time (the immediate left neighbour in the
//! creator's visible sequence, and that neighbour's immediate successor in
//! the creator's full element order). A sequence deletion records the
//! identifiers of the elements it tombstones. Both are therefore
//! position-independent and merge deterministically on every replica.

use vstd::prelude::*;

use crate::container::CidView;
use crate::container::ContainerID;
use crate::container::TreeID;
use crate::id::Counter;
use crate::id::ID;
use crate::id::Lamport;
use crate::value::LoroValue;
use crate::value::LvView;
use crate::value::lv_seq_view;
use crate::value::lv_view;
use crate::value::lemma_lv_seq_view;

verus! {

/// The payload of one operation.
pub enum OpContent {
    /// Insert characters into a text container, anchored at creation time.
    TextInsert { origin_left: Option<ID>, origin_right: Option<ID>, chars: Vec<char> },
    /// Insert values into a list container, anchored at creation time.
    ListInsert { origin_left: Option<ID>, origin_right: Option<ID>, values: Vec<LoroValue> },
    /// Tombstone the sequence elements with the given identifiers.
    SeqDelete { targets: Vec<ID> },
    /// Write a key of a map container; `None` deletes the key.
    MapSet { key: String, value: Option<LoroValue> },
    /// Move a tree node under a new parent; `None` moves it to the root,
    /// the deleted-root sentinel deletes its subtree.
    TreeMove { target: TreeID, parent: Option<TreeID> },
}

/// The mathematical shape of an operation payload.
pub enum OcView {
    TextInsert { origin_left: Option<ID>, origin_right: Option<ID>, chars: Seq<char> },
    ListInsert { origin_left: Option<ID>, origin_right: Option<ID>, values: Seq<LvView> },
    SeqDelete { targets: Seq<ID> },
    MapSet { key: Seq<char>, value: Option<LvView> },
    TreeMove { target: TreeID, parent: Option<TreeID> },
}

impl DeepView for OpContent {
    type V = OcView;

    open spec fn deep_view(&self) -> OcView {
        match self {
            OpContent::TextInsert { origin_left, origin_right, chars } => OcView::TextInsert {
                origin_left: *origin_left,
                origin_right: *origin_right,
                chars: chars@,
            },
            OpContent::ListInsert { origin_left, origin_right, values } => OcView::ListInsert {
                origin_left: *origin_left,
                origin_right: *origin_right,
                values: lv_seq_view(values@),
            },
            OpContent::SeqDelete { targets } => OcView::SeqDelete { targets: targets@ },
            OpContent::MapSet { key, value } => OcView::MapSet {
                key: key@,
                value: match value {
                    None => None,
                    Some(v) => Some(lv_view(*v)),
                },
            },
            OpContent::TreeMove { target, parent } => OcView::TreeMove {
                target: *target,
                parent: *parent,
            },
        }
    }
}

/// The number of identifiers an operation consumes.
pub open spec fn oc_len(c: OcView) -> int {
    match c {
        OcView::TextInsert { chars, .. } => chars.len() as int,
        OcView::ListInsert { values, .. } => values.len() as int,
        OcView::SeqDelete { targets } => targets.len() as int,
        OcView::MapSet { .. } => 1,
        OcView::TreeMove { .. } => 1,
    }
}

/// One immutable operation, addressed by its starting identifier.
pub struct Op {
    pub id: ID,
    pub lamport: Lamport,
    pub container: ContainerID,
    pub content: OpContent,
}

/// The mathematical shape of an operation.
pub struct OpView {
    pub id: ID,
    pub lamport: Lamport,
    pub container: CidView,
    pub content: OcView,
}

impl DeepView for Op {
    type V = OpView;

    open spec fn deep_view(&self) -> OpView {
        OpView {
            id: self.id,
            lamport: self.lamport,
            container: self.container@,
            content: self.content.deep_view(),
        }
    }
}

impl OpView {
    pub open spec fn len(self) -> int {
        oc_len(self.content)
    }

    /// The exclusive counter bound after this operation.
    pub open spec fn end(self) -> int {
        self.id.counter + self.len()
    }

    /// An operation is well-formed when it consumes at least one counter and
    /// stays within the counter and Lamport ranges.
    pub open spec fn wf(self) -> bool {
        &&& self.len() >= 1
        &&& 0 <= self.id.counter
        &&& self.end() <= Counter::MAX
        &&& self.lamport + self.len() <= Lamport::MAX
    }
}

impl Op {
    /// The number of identifiers this operation consumes.
    pub fn len(&self) -> (r: usize)
        ensures
            r == oc_len(self.deep_view().content),
    {
        match &self.content {
            OpContent::TextInsert { chars, .. } => chars.len(),
            OpContent::ListInsert { values, .. } => {
                proof {
                    lemma_lv_seq_view(values@);
                }
                values.len()
            },
            OpContent::SeqDelete { targets } => targets.len(),
            OpContent::MapSet { .. } => 1,
            OpContent::TreeMove { .. } => 1,
        }
    }

    /// A structural copy with the same view.
    pub fn dup(&self) -> (r: Op)
        ensures
            r.deep_view() == self.deep_view(),
    {
        let content = match &self.content {
            OpContent::TextInsert { origin_left, origin_right, chars } => {
                OpContent::TextInsert {
                    origin_left: *origin_left,
                    origin_right: *origin_right,
                    chars: copy_vec(chars),
                }
            },
            OpContent::ListInsert { origin_left, origin_right, values } => {
                let n = values.len();
                let mut out: Vec<LoroValue> = Vec::new();
                let mut i: usize = 0;
                while i < n
                    invariant
                        n == values@.len(),
                        0 <= i <= n,
                        out@.len() == i,
                        forall|k: int|
                            0 <= k < i ==> lv_view(#[trigger] out@[k]) == lv_view(values@[k]),
                    decreases n - i,
                {
                    out.push(values[i].dup());
                    i = i + 1;
                }
                proof {
                    crate::value::lemma_lv_seq_view_eq(out@, values@);
                }
                OpContent::ListInsert {
                    origin_left: *origin_left,
                    origin_right: *origin_right,
                    values: out,
                }
            },
            OpContent::SeqDelete { targets } => OpContent::SeqDelete {
                targets: copy_vec(targets),
            },
            OpContent::MapSet { key, value } => OpContent::MapSet {
                key: key.clone(),
                value: match value {
                    None => None,
                    Some(v) => Some(v.dup()),
                },
            },
            OpContent::TreeMove { target, parent } => OpContent::TreeMove {
                target: *target,
                parent: *parent,
            },
        };
        Op { id: self.id, lamport: self.lamport, container: self.container.dup(), content }
    }
}

/// An element-wise copy of a vector of plain values.
pub fn copy_vec<T: Copy>(v: &Vec<T>) -> (r: Vec<T>)
    ensures
        r@ == v@,
{
    let n = v.len();
    let mut out: Vec<T> = Vec::new();
    let mut i: usize = 0;
    while i < n
        invariant
            n == v@.len(),
            0 <= i <= n,
            out@ =~= v@.take(i as int),
        decreases n - i,
    {
        out.push(v[i]);
        proof {
            assert(out@ =~= v@.take(i + 1));
        }
        i = i + 1;
    }
    proof {
        assert(v@.take(n as int) =~= v@);
    }
    out
}

/// A batch of consecutive operations of one peer, committed atomically,
/// together with the frontier it causally depends on.
pub struct Change {
    pub id: ID,
    pub lamport: Lamport,
    pub deps: Vec<ID>,
    pub ops: Vec<Op>,
}

/// The mathematical shape of a change.
pub struct ChangeView {
    pub id: ID,
    pub lamport: Lamport,
    pub deps: Seq<ID>,
    pub ops: Seq<OpView>,
}

impl DeepView for Change {
    type V = ChangeView;

    open spec fn deep_view(&self) -> ChangeView {
        ChangeView {
            id: self.id,
            lamport: self.lamport,
            deps: self.deps@,
            ops: self.ops.deep_view(),
        }
    }
}

impl ChangeView {
    /// Total identifiers consumed.
    pub open spec fn len(self) -> int
        decreases self.ops.len(),
    {
        ops_total_len(self.ops)
    }

    /// Exclusive counter bound after the change.
    pub open spec fn end(self) -> int {
        self.id.counter + self.len()
    }

    /// Exclusive Lamport bound after the change.
    pub open spec fn lamport_end(self) -> int {
        self.lamport + self.len()
    }

    /// Internal well-formedness: non-empty, counters and Lamport stamps
    /// contiguous, all on the change's peer, within range.
    pub open spec fn wf(self) -> bool {
        &&& self.ops.len() > 0
        &&& 0 <= self.id.counter
        &&& self.end() <= Counter::MAX
        &&& self.lamport_end() <= Lamport::MAX
        &&& forall|k: int| 0 <= k < self.ops.len() ==> (#[trigger] self.ops[k]).wf()
        &&& forall|k: int|
            0 <= k < self.ops.len() ==> (#[trigger] self.ops[k]).id.peer == self.id.peer
        &&& forall|k: int|
            0 <= k < self.ops.len() ==> (#[trigger] self.ops[k]).id.counter == self.id.counter
                + ops_total_len(self.ops.take(k))
        &&& forall|k: int|
            0 <= k < self.ops.len() ==> (#[trigger] self.ops[k]).lamport == self.lamport
                + ops_total_len(self.ops.take(k))
        &&& forall|k: int| 0 <= k < self.deps.len() ==> 0 <= (#[trigger] self.deps[k]).counter
    }

    /// The strict canonical order of changes: by Lamport stamp, then peer,
    /// then starting counter.
    pub open spec fn before(self, other: ChangeView) -> bool {
        if self.lamport != other.lamport {
            self.lamport < other.lamport
        } else if self.id.peer != other.id.peer {
            self.id.peer < other.id.peer
        } else {
            self.id.counter < other.id.counter
        }
    }
}

/// The total number of identifiers a sequence of operations consumes.
pub open spec fn ops_total_len(ops: Seq<OpView>) -> int
    decreases ops.len(),
{
    if ops.len() == 0 {
        0
    } else {
        ops_total_len(ops.drop_last()) + ops.last().len()
    }
}

pub proof fn lemma_ops_total_len_nonneg(ops: Seq<OpView>)
    requires
        forall|k: int| 0 <= k < ops.len() ==> (#[trigger] ops[k]).len() >= 0,
    ensures
        ops_total_len(ops) >= 0,
    decreases ops.len(),
{
    if ops.len() > 0 {
        lemma_ops_total_len_nonneg(ops.drop_last());
    }
}

impl Change {
    /// A structural copy with the same view.
    pub fn dup(&self) -> (r: Change)
        ensures
            r.deep_view() == self.deep_view(),
    {
        let n = self.ops.len();
        let mut ops: Vec<Op> = Vec::new();
        let mut i: usize = 0;
        while i < n
            invariant
                n == self.ops@.len(),
                0 <= i <= n,
                ops@.len() == i,
                forall|k: int|
                    0 <= k < i ==> (#[trigger] ops@[k]).deep_view() == self.ops@[k].deep_view(),
            decreases n - i,
        {
            ops.push(self.ops[i].dup());
            i = i + 1;
        }
        proof {
            assert(ops.deep_view() =~= self.ops.deep_view());
        }
        Change { id: self.id, lamport: self.lamport, deps: copy_vec(&self.deps), ops }
    }

    /// Whether this change sorts strictly before `other` in canonical order.
    pub fn is_before(&self, other: &Change) -> (r: bool)
        ensures
            r == self.deep_view().before(other.deep_view()),
    {
        if self.lamport != other.lamport {
            self.lamport < other.lamport
        } else if self.id.peer != other.id.peer {
            self.id.peer < other.id.peer
        } else {
            self.id.counter < other.id.counter
        }
    }
}

} // verus!
