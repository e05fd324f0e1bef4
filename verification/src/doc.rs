//! The document: the append-only log, the transaction protocol, and the
//! merge/import protocol.
//!
//! The log holds whole changes in one canonical order — by Lamport stamp,
//! then peer, then counter — and every container's materialized state is the
//! fold of the logged (plus staged) operations in exactly that order. The
//! fold is a function of the log contents alone, which is what makes two
//! replicas with the same operations converge, whatever order the batches
//! arrived in.

use vstd::prelude::*;
use vstd::multiset::Multiset;

use crate::container::CidView;
use crate::container::ContainerID;
use crate::container::ContainerType;
use crate::error::LoroError;
use crate::id::Counter;
use crate::id::ID;
use crate::id::Lamport;
use crate::id::PeerID;
use crate::op::Change;
use crate::op::ChangeView;
use crate::op::OcView;
use crate::op::Op;
use crate::op::OpContent;
use crate::op::OpView;
use crate::state::ContainerArena;
use crate::state::ContainerState;
use crate::state::ContModel;
use crate::state::cont_step;
use crate::state::empty_model;
use crate::state::find_cid;
use crate::state::interp_cont;
use crate::state::lemma_find_cid;
use crate::state::map_step;
use crate::value::LvView;
use crate::state::tree_step;
use crate::tracker::apply_checkout;
use crate::tracker::tracker_step;
use crate::value::LoroValue;
use crate::version::Frontiers;
use crate::version::VersionVector;
use crate::version::seq_bound;

verus! {

/// The operations of a change sequence, concatenated in log order.
pub open spec fn changes_ops(cs: Seq<ChangeView>) -> Seq<OpView>
    decreases cs.len(),
{
    if cs.len() == 0 {
        Seq::empty()
    } else {
        changes_ops(cs.drop_last()) + cs.last().ops
    }
}

/// Whether an operation lies entirely below a version's bound for its peer.
pub open spec fn op_incl(op: OpView, vv: VersionVector) -> bool {
    op.end() <= vv.bound(op.id.peer)
}

/// The detached fold: sequence operations always extend the element order
/// (visibility is a later, separate cut), while register and tree writes
/// only apply when the version covers them.
pub open spec fn det_interp(ops: Seq<OpView>, vv: VersionVector, cid: CidView) -> ContModel
    decreases ops.len(),
{
    if ops.len() == 0 {
        empty_model(cid.ctype())
    } else {
        let prev = det_interp(ops.drop_last(), vv, cid);
        let op = ops.last();
        if op.container == cid {
            match prev {
                ContModel::Sequence(s) => ContModel::Sequence(tracker_step(s, op)),
                ContModel::Registers(es) => if op_incl(op, vv) {
                    ContModel::Registers(map_step(es, op))
                } else {
                    prev
                },
                ContModel::Forest(ns) => if op_incl(op, vv) {
                    ContModel::Forest(tree_step(ns, op))
                } else {
                    prev
                },
            }
        } else {
            prev
        }
    }
}

/// The materialized state of one container at an arbitrary version: the
/// detached fold, with sequence visibility cut at the version.
pub open spec fn det_state(ops: Seq<OpView>, vv: VersionVector, cid: CidView) -> ContModel {
    match det_interp(ops, vv, cid) {
        ContModel::Sequence(s) => ContModel::Sequence(apply_checkout(s, vv)),
        m => m,
    }
}

/// A want-map: peer to exclusive counter bound, absent peers at zero.
pub open spec fn get0(w: Map<PeerID, int>, p: PeerID) -> int {
    if w.dom().contains(p) {
        w[p]
    } else {
        0
    }
}

/// Raising a want by one identifier.
pub open spec fn bump(w: Map<PeerID, int>, id: ID) -> Map<PeerID, int> {
    if get0(w, id.peer) >= id.counter + 1 {
        w
    } else {
        w.insert(id.peer, id.counter + 1)
    }
}

pub open spec fn bump_all(w: Map<PeerID, int>, deps: Seq<ID>) -> Map<PeerID, int>
    decreases deps.len(),
{
    if deps.len() == 0 {
        w
    } else {
        bump(bump_all(w, deps.drop_last()), deps.last())
    }
}

/// One step of the dependency walk: a change some part of which is wanted
/// pulls in its dependencies.
pub open spec fn walk_step(w: Map<PeerID, int>, c: ChangeView) -> Map<PeerID, int> {
    if get0(w, c.id.peer) > c.id.counter {
        bump_all(w, c.deps)
    } else {
        w
    }
}

/// The dependency walk over the first `i` changes of the log, processed in
/// descending canonical order. Dependencies always carry smaller Lamport
/// stamps than their change, so one descending pass reaches a fixpoint.
pub open spec fn walk(cs: Seq<ChangeView>, i: int, w: Map<PeerID, int>) -> Map<PeerID, int>
    decreases i,
{
    if i <= 0 {
        w
    } else {
        walk(cs, i - 1, walk_step(w, cs[i - 1]))
    }
}

/// The want-map a frontier starts the walk from.
pub open spec fn frontier_want(f: Seq<ID>) -> Map<PeerID, int> {
    bump_all(Map::empty(), f)
}

/// The version a frontier denotes, given the log.
pub open spec fn spec_frontier_vv(cs: Seq<ChangeView>, f: Seq<ID>) -> Map<PeerID, int> {
    walk(cs, cs.len() as int, frontier_want(f))
}

/// The largest bound a frontier set demands of one peer.
pub open spec fn fmax(f: Seq<ID>, q: PeerID) -> int
    decreases f.len(),
{
    if f.len() == 0 {
        0
    } else {
        let rest = fmax(f.drop_last(), q);
        if f.last().peer == q && f.last().counter + 1 > rest {
            f.last().counter + 1
        } else {
            rest
        }
    }
}

/// The demand of a frontier is never negative.
pub proof fn lemma_fmax_nonneg(f: Seq<ID>, q: PeerID)
    ensures
        fmax(f, q) >= 0,
    decreases f.len(),
{
    if f.len() > 0 {
        lemma_fmax_nonneg(f.drop_last(), q);
    }
}

/// Raising a non-negative want by a set of identifiers yields the pointwise
/// maximum.
pub proof fn lemma_bump_all_q(w: Map<PeerID, int>, f: Seq<ID>, q: PeerID)
    requires
        forall|p: PeerID| #[trigger] get0(w, p) >= 0,
    ensures
        get0(bump_all(w, f), q) == max_int(get0(w, q), fmax(f, q)),
        forall|p: PeerID| #[trigger] get0(bump_all(w, f), p) >= 0,
    decreases f.len(),
{
    lemma_fmax_nonneg(f, q);
    if f.len() > 0 {
        lemma_bump_all_q(w, f.drop_last(), q);
        assert forall|p: PeerID| #[trigger] get0(bump_all(w, f), p) >= 0 by {
            lemma_bump_all_q(w, f.drop_last(), p);
        }
    }
}

pub proof fn lemma_bump_all_mono(w1: Map<PeerID, int>, w2: Map<PeerID, int>, f: Seq<ID>)
    requires
        forall|p: PeerID| get0(w1, p) <= #[trigger] get0(w2, p),
        forall|p: PeerID| #[trigger] get0(w1, p) >= 0,
        forall|p: PeerID| #[trigger] get0(w2, p) >= 0,
    ensures
        forall|p: PeerID| get0(bump_all(w1, f), p) <= #[trigger] get0(bump_all(w2, f), p),
{
    assert forall|p: PeerID|
        get0(bump_all(w1, f), p) <= #[trigger] get0(bump_all(w2, f), p) by {
        lemma_bump_all_q(w1, f, p);
        lemma_bump_all_q(w2, f, p);
    }
}

/// The walk never lowers a non-negative want, and keeps it non-negative.
pub proof fn lemma_walk_extensive(cs: Seq<ChangeView>, i: int, w: Map<PeerID, int>)
    requires
        forall|p: PeerID| #[trigger] get0(w, p) >= 0,
    ensures
        forall|q: PeerID| get0(#[trigger] walk(cs, i, w), q) >= get0(w, q),
        forall|q: PeerID| get0(#[trigger] walk(cs, i, w), q) >= 0,
    decreases i,
{
    if i > 0 {
        let s = walk_step(w, cs[i - 1]);
        assert forall|p: PeerID| #[trigger] get0(s, p) >= 0 by {
            if get0(w, cs[i - 1].id.peer) > cs[i - 1].id.counter {
                lemma_bump_all_q(w, cs[i - 1].deps, p);
            }
        }
        assert forall|p: PeerID| #[trigger] get0(s, p) >= get0(w, p) by {
            if get0(w, cs[i - 1].id.peer) > cs[i - 1].id.counter {
                lemma_bump_all_q(w, cs[i - 1].deps, p);
            }
        }
        lemma_walk_extensive(cs, i - 1, s);
        assert forall|q: PeerID| get0(#[trigger] walk(cs, i, w), q) >= get0(w, q) by {
            assert(walk(cs, i, w) == walk(cs, i - 1, s));
            assert(get0(walk(cs, i - 1, s), q) >= get0(s, q));
        }
        assert forall|q: PeerID| get0(#[trigger] walk(cs, i, w), q) >= 0 by {
            assert(walk(cs, i, w) == walk(cs, i - 1, s));
            assert(get0(walk(cs, i - 1, s), q) >= 0);
        }
    }
}

/// The walk is monotone in the initial want.
pub proof fn lemma_walk_mono(cs: Seq<ChangeView>, i: int, w1: Map<PeerID, int>, w2: Map<
    PeerID,
    int,
>)
    requires
        forall|p: PeerID| get0(w1, p) <= #[trigger] get0(w2, p),
        forall|p: PeerID| #[trigger] get0(w1, p) >= 0,
        forall|p: PeerID| #[trigger] get0(w2, p) >= 0,
    ensures
        forall|q: PeerID| get0(walk(cs, i, w1), q) <= #[trigger] get0(walk(cs, i, w2), q),
    decreases i,
{
    if i > 0 {
        let c = cs[i - 1];
        let s1 = walk_step(w1, c);
        let s2 = walk_step(w2, c);
        assert forall|p: PeerID| get0(s1, p) <= #[trigger] get0(s2, p) by {
            if get0(w1, c.id.peer) > c.id.counter {
                lemma_bump_all_mono(w1, w2, c.deps);
                assert(get0(bump_all(w1, c.deps), p) <= get0(bump_all(w2, c.deps), p));
            } else {
                if get0(w2, c.id.peer) > c.id.counter {
                    lemma_bump_all_q(w2, c.deps, p);
                }
            }
        }
        assert forall|p: PeerID| #[trigger] get0(s1, p) >= 0 by {
            if get0(w1, c.id.peer) > c.id.counter {
                lemma_bump_all_q(w1, c.deps, p);
            }
        }
        assert forall|p: PeerID| #[trigger] get0(s2, p) >= 0 by {
            if get0(w2, c.id.peer) > c.id.counter {
                lemma_bump_all_q(w2, c.deps, p);
            }
        }
        lemma_walk_mono(cs, i - 1, s1, s2);
        assert forall|q: PeerID|
            get0(walk(cs, i, w1), q) <= #[trigger] get0(walk(cs, i, w2), q) by {
            assert(walk(cs, i, w1) == walk(cs, i - 1, s1));
            assert(walk(cs, i, w2) == walk(cs, i - 1, s2));
            assert(get0(walk(cs, i - 1, s1), q) <= get0(walk(cs, i - 1, s2), q));
        }
    }
}

/// When every dependency of the first `i` changes lies below `vv`, the walk
/// stays below the pointwise maximum of the want and `vv`.
pub proof fn lemma_walk_bounded(cs: Seq<ChangeView>, i: int, w: Map<PeerID, int>, vv: VersionVector)
    requires
        0 <= i <= cs.len(),
        forall|j: int, k: int|
            0 <= j < cs.len() && 0 <= k < cs[j].deps.len() ==> ((#[trigger] cs[j].deps[k]).counter
                as int) + 1 <= vv.bound(cs[j].deps[k].peer),
        forall|p: PeerID| #[trigger] get0(w, p) >= 0,
    ensures
        forall|q: PeerID|
            get0(walk(cs, i, w), q) <= max_int(#[trigger] get0(w, q), vv.bound(q)),
    decreases i,
{
    if i > 0 {
        let c = cs[i - 1];
        let s = walk_step(w, c);
        assert forall|q: PeerID|
            get0(s, q) <= max_int(#[trigger] get0(w, q), vv.bound(q)) by {
            if get0(w, c.id.peer) > c.id.counter {
                lemma_bump_all_bounded(w, c.deps, vv, q);
            }
        }
        assert forall|q: PeerID| #[trigger] get0(s, q) >= 0 by {
            if get0(w, c.id.peer) > c.id.counter {
                lemma_bump_all_q(w, c.deps, q);
            }
        }
        lemma_walk_bounded(cs, i - 1, s, vv);
        assert forall|q: PeerID|
            get0(walk(cs, i, w), q) <= max_int(#[trigger] get0(w, q), vv.bound(q)) by {
            assert(walk(cs, i, w) == walk(cs, i - 1, s));
            assert(get0(walk(cs, i - 1, s), q) <= max_int(get0(s, q), vv.bound(q)));
        }
    }
}

pub open spec fn max_int(a: int, b: int) -> int {
    if a >= b {
        a
    } else {
        b
    }
}

proof fn lemma_bump_all_bounded(w: Map<PeerID, int>, f: Seq<ID>, vv: VersionVector, q: PeerID)
    requires
        forall|k: int| 0 <= k < f.len() ==> ((#[trigger] f[k]).counter as int) + 1 <= vv.bound(
            f[k].peer,
        ),
        forall|p: PeerID| #[trigger] get0(w, p) >= 0,
    ensures
        get0(bump_all(w, f), q) <= max_int(get0(w, q), vv.bound(q)),
{
    lemma_bump_all_q(w, f, q);
    lemma_fmax_bounded(f, vv, q);
}

proof fn lemma_fmax_bounded(f: Seq<ID>, vv: VersionVector, q: PeerID)
    requires
        forall|k: int| 0 <= k < f.len() ==> ((#[trigger] f[k]).counter as int) + 1 <= vv.bound(
            f[k].peer,
        ),
    ensures
        fmax(f, q) <= max_int(0, vv.bound(q)),
    decreases f.len(),
{
    if f.len() > 0 {
        lemma_fmax_bounded(f.drop_last(), vv, q);
    }
}

/// Appending a change at the end does not affect the walk over the prefix.
pub proof fn lemma_walk_push_prefix(cs: Seq<ChangeView>, c: ChangeView, i: int, w: Map<
    PeerID,
    int,
>)
    requires
        0 <= i <= cs.len(),
    ensures
        walk(cs.push(c), i, w) == walk(cs, i, w),
    decreases i,
{
    if i > 0 {
        assert(cs.push(c)[i - 1] == cs[i - 1]);
        lemma_walk_push_prefix(cs, c, i - 1, walk_step(w, cs[i - 1]));
    }
}

/// The canonical order is transitive and total on distinct keys.
pub proof fn lemma_before_trans(a: ChangeView, b: ChangeView, c: ChangeView)
    requires
        a.before(b),
        b.before(c),
    ensures
        a.before(c),
{
}

/// Two changes that are unordered share Lamport stamp, peer and counter.
pub proof fn lemma_before_order(a: ChangeView, b: ChangeView, vv: VersionVector)
    requires
        !b.before(a),
        !a.before(b),
    ensures
        a.lamport == b.lamport && a.id.peer == b.id.peer && a.id.counter == b.id.counter,
{
}

/// Sortedness of an insertion, case by case.
proof fn lemma_before_cases(cs: Seq<ChangeView>, cv: ChangeView, pos: int, a: int, b: int)
    requires
        0 <= pos <= cs.len(),
        0 <= a < b < cs.len() + 1,
        forall|i: int, j: int|
            0 <= i < j < cs.len() ==> (#[trigger] cs[i]).before(#[trigger] cs[j]),
        forall|j: int| 0 <= j < pos ==> (#[trigger] cs[j]).before(cv),
        forall|j: int| pos <= j < cs.len() ==> cv.before(#[trigger] cs[j]),
    ensures
        ({
            let csn = cs.take(pos) + seq![cv] + cs.skip(pos);
            csn[a].before(csn[b])
        }),
{
    let csn = cs.take(pos) + seq![cv] + cs.skip(pos);
    assert(forall|j: int| 0 <= j < pos ==> #[trigger] csn[j] == cs[j]);
    assert(csn[pos] == cv);
    assert(forall|j: int| pos < j < csn.len() ==> #[trigger] csn[j] == cs[j - 1]);
}

/// Per-peer disjointness of an insertion, case by case.
proof fn lemma_peer_cases(
    cs: Seq<ChangeView>,
    cv: ChangeView,
    pos: int,
    a: int,
    b: int,
    vv: VersionVector,
)
    requires
        0 <= pos <= cs.len(),
        0 <= a < b < cs.len() + 1,
        forall|i: int, j: int|
            0 <= i < j < cs.len() && cs[i].id.peer == cs[j].id.peer ==> (#[trigger] cs[i]).end()
                <= (#[trigger] cs[j]).id.counter,
        forall|i: int|
            0 <= i < cs.len() ==> (#[trigger] cs[i]).end() <= vv.bound(cs[i].id.peer),
        cv.id.counter as int == vv.bound(cv.id.peer),
        forall|i: int|
            0 <= i < cs.len() && (#[trigger] cs[i]).id.peer == cv.id.peer ==> cs[i].before(cv),
        forall|j: int| pos <= j < cs.len() ==> cv.before(#[trigger] cs[j]),
    ensures
        ({
            let csn = cs.take(pos) + seq![cv] + cs.skip(pos);
            csn[a].id.peer == csn[b].id.peer ==> csn[a].end() <= csn[b].id.counter
        }),
{
    let csn = cs.take(pos) + seq![cv] + cs.skip(pos);
    assert(forall|j: int| 0 <= j < pos ==> #[trigger] csn[j] == cs[j]);
    assert(csn[pos] == cv);
    assert(forall|j: int| pos < j < csn.len() ==> #[trigger] csn[j] == cs[j - 1]);
    if csn[a].id.peer == csn[b].id.peer {
        if a == pos {
            // a same-peer change after the insertion point would sort after
            // `cv`, contradicting readiness
            let other = csn[b];
            assert(other == cs[b - 1]);
            assert(cs[b - 1].before(cv));
            assert(cv.before(cs[b - 1]));
            assert(false);
        } else if b == pos {
            assert(csn[a] == cs[a]);
            assert(cs[a].end() <= vv.bound(cs[a].id.peer));
        }
    }
}

/// An admitted change, inserted at its scan position, keeps the log sorted
/// and per-peer disjoint, and adds one occurrence to the multiset.
proof fn lemma_admit_log(cs: Seq<ChangeView>, cv: ChangeView, pos: int, vv: VersionVector)
    requires
        0 <= pos <= cs.len(),
        forall|i: int, j: int|
            0 <= i < j < cs.len() ==> (#[trigger] cs[i]).before(#[trigger] cs[j]),
        forall|i: int, j: int|
            0 <= i < j < cs.len() && cs[i].id.peer == cs[j].id.peer ==> (#[trigger] cs[i]).end()
                <= (#[trigger] cs[j]).id.counter,
        forall|i: int|
            0 <= i < cs.len() ==> (#[trigger] cs[i]).end() <= vv.bound(cs[i].id.peer),
        cv.id.counter as int == vv.bound(cv.id.peer),
        forall|i: int|
            0 <= i < cs.len() && (#[trigger] cs[i]).id.peer == cv.id.peer ==> cs[i].before(cv),
        forall|j: int| 0 <= j < pos ==> (#[trigger] cs[j]).before(cv),
        forall|j: int| pos <= j < cs.len() ==> cv.before(#[trigger] cs[j]),
    ensures
        ({
            let csn = cs.take(pos) + seq![cv] + cs.skip(pos);
            &&& forall|a: int, b: int|
                0 <= a < b < csn.len() ==> (#[trigger] csn[a]).before(#[trigger] csn[b])
            &&& forall|a: int, b: int|
                0 <= a < b < csn.len() && csn[a].id.peer == csn[b].id.peer ==> (
                #[trigger] csn[a]).end() <= (#[trigger] csn[b]).id.counter
            &&& csn.to_multiset() == cs.to_multiset().insert(cv)
        }),
{
    let csn = cs.take(pos) + seq![cv] + cs.skip(pos);
    assert forall|a: int, b: int|
        0 <= a < b < csn.len() implies (#[trigger] csn[a]).before(#[trigger] csn[b]) by {
        lemma_before_cases(cs, cv, pos, a, b);
    }
    assert forall|a: int, b: int|
        0 <= a < b < csn.len() && csn[a].id.peer == csn[b].id.peer implies (
    #[trigger] csn[a]).end() <= (#[trigger] csn[b]).id.counter by {
        lemma_peer_cases(cs, cv, pos, a, b, vv);
    }
    lemma_multiset_insert_mid(cs, cv, pos);
}

/// Inserting in the middle adds exactly one occurrence to the multiset.
proof fn lemma_multiset_insert_mid(cs: Seq<ChangeView>, cv: ChangeView, pos: int)
    requires
        0 <= pos <= cs.len(),
    ensures
        (cs.take(pos) + seq![cv] + cs.skip(pos)).to_multiset() == cs.to_multiset().insert(cv),
{
    broadcast use vstd::seq_lib::group_seq_properties;

    assert(cs.take(pos) + seq![cv] + cs.skip(pos) =~= cs.take(pos) + (seq![cv] + cs.skip(pos)));
    vstd::seq_lib::lemma_multiset_commutative(cs.take(pos), seq![cv] + cs.skip(pos));
    vstd::seq_lib::lemma_multiset_commutative(seq![cv], cs.skip(pos));
    vstd::seq_lib::lemma_multiset_commutative(cs.take(pos), cs.skip(pos));
    assert(cs.take(pos) + cs.skip(pos) =~= cs);
    assert(seq![cv].to_multiset() =~= Multiset::empty().insert(cv)) by {
        seq![cv].to_multiset_ensures();
        assert(seq![cv].drop_last() =~= Seq::<ChangeView>::empty());
    }
    assert((cs.take(pos) + seq![cv] + cs.skip(pos)).to_multiset() =~= cs.to_multiset().insert(
        cv,
    ));
}

/// Appending a change that starts at its peer's previous bound, carries a
/// Lamport stamp at or above every logged stamp, and ends at the raised
/// bound keeps the log well-formed.
proof fn lemma_log_push_wf(
    cs: Seq<ChangeView>,
    cv: ChangeView,
    prevv: VersionVector,
    newvv: VersionVector,
    base: int,
)
    requires
        forall|i: int| 0 <= i < cs.len() ==> (#[trigger] cs[i]).wf(),
        forall|i: int, j: int|
            0 <= i < j < cs.len() ==> (#[trigger] cs[i]).before(#[trigger] cs[j]),
        forall|i: int|
            0 <= i < cs.len() ==> (#[trigger] cs[i]).end() <= prevv.bound(cs[i].id.peer),
        forall|i: int| 0 <= i < cs.len() ==> (#[trigger] cs[i]).lamport_end() <= base,
        forall|i: int, j: int|
            0 <= i < j < cs.len() && cs[i].id.peer == cs[j].id.peer ==> (#[trigger] cs[i]).end()
                <= (#[trigger] cs[j]).id.counter,
        cv.wf(),
        cv.lamport as int == base,
        cv.id.counter as int == prevv.bound(cv.id.peer),
        forall|p: PeerID| #[trigger] newvv.bound(p) >= prevv.bound(p),
        newvv.bound(cv.id.peer) >= cv.end(),
    ensures
        forall|i: int|
            0 <= i < cs.push(cv).len() ==> (#[trigger] cs.push(cv)[i]).wf(),
        forall|i: int, j: int|
            0 <= i < j < cs.push(cv).len() ==> (#[trigger] cs.push(cv)[i]).before(
                #[trigger] cs.push(cv)[j],
            ),
        forall|i: int|
            0 <= i < cs.push(cv).len() ==> (#[trigger] cs.push(cv)[i]).end() <= newvv.bound(
                cs.push(cv)[i].id.peer,
            ),
        forall|i: int, j: int|
            0 <= i < j < cs.push(cv).len() && cs.push(cv)[i].id.peer == cs.push(cv)[j].id.peer
                ==> (#[trigger] cs.push(cv)[i]).end() <= (#[trigger] cs.push(cv)[j]).id.counter,
{
    let csn = cs.push(cv);
    assert forall|i: int, j: int|
        0 <= i < j < csn.len() implies (#[trigger] csn[i]).before(#[trigger] csn[j]) by {
        if j == csn.len() - 1 {
            assert(csn[i] == cs[i]);
            assert(cs[i].lamport_end() <= base);
            lemma_total_len_lb(cs[i].ops);
            assert(cs[i].lamport < cv.lamport);
        }
    }
    assert forall|i: int|
        0 <= i < csn.len() implies (#[trigger] csn[i]).end() <= newvv.bound(
        csn[i].id.peer,
    ) by {
        if i < cs.len() {
            assert(cs[i].end() <= prevv.bound(cs[i].id.peer));
        }
    }
    assert forall|i: int, j: int|
        0 <= i < j < csn.len() && csn[i].id.peer == csn[j].id.peer implies (
    #[trigger] csn[i]).end() <= (#[trigger] csn[j]).id.counter by {
        if j == csn.len() - 1 {
            assert(csn[i] == cs[i]);
            assert(cs[i].end() <= prevv.bound(cs[i].id.peer));
        }
    }
}

/// After a commit, the single-identifier frontier of the new change denotes
/// exactly the advanced version.
proof fn lemma_commit_frontier(pre: LoroDoc, post: LoroDoc, cv: ChangeView)
    requires
        pre.wf(),
        pre.txn_active,
        cv.id.peer == pre.peer,
        cv.id.counter as int == pre.vv.bound(pre.peer),
        cv.deps == pre.state_frontier@,
        cv.end() == pre.next_counter,
        cv.end() > cv.id.counter,
        post.log.deep_view() == pre.log.deep_view().push(cv),
        post.state_frontier@ == seq![ID { peer: pre.peer, counter: (pre.next_counter - 1) as Counter }],
        pre.next_counter >= 1,
        forall|p: PeerID|
            #[trigger] post.state_vv.bound(p) == if p == pre.peer {
                pre.next_counter as int
            } else {
                pre.state_vv.bound(p)
            },
    ensures
        forall|p: PeerID|
            get0(spec_frontier_vv(post.log.deep_view(), post.state_frontier@), p)
                == #[trigger] post.state_vv.bound(p),
{
    let cs = pre.log.deep_view();
    let csn = post.log.deep_view();
    let n = cs.len() as int;
    let f1 = post.state_frontier@;
    let f0 = pre.state_frontier@;
    let w0 = frontier_want(f1);
    let nid = ID { peer: pre.peer, counter: (pre.next_counter - 1) as Counter };
    assert forall|p: PeerID| #[trigger] get0(Map::<PeerID, int>::empty(), p) >= 0 by {}
    assert forall|p: PeerID| #[trigger] get0(w0, p) == (if p == pre.peer {
        pre.next_counter as int
    } else {
        0
    }) by {
        lemma_bump_all_q(Map::empty(), f1, p);
        assert(f1.drop_last() =~= Seq::<ID>::empty());
        assert(f1.last() == nid);
        assert(fmax(Seq::<ID>::empty(), p) == 0);
        assert(fmax(f1, p) == if p == pre.peer { pre.next_counter as int } else { 0int });
    }
    assert(csn[n] == cv);
    assert(get0(w0, cv.id.peer) > cv.id.counter);
    let w1 = bump_all(w0, f0);
    assert(walk(csn, n + 1, w0) == walk(csn, n, w1));
    lemma_walk_push_prefix(cs, cv, n, w1);
    assert(walk(csn, n, w1) == walk(cs, n, w1));
    let base = frontier_want(f0);
    assert forall|p: PeerID| #[trigger] get0(Map::<PeerID, int>::empty(), p) >= 0 by {}
    assert forall|p: PeerID| #[trigger] get0(base, p) >= 0 by {
        lemma_bump_all_q(Map::empty(), f0, p);
    }
    assert forall|p: PeerID| #[trigger] get0(w0, p) >= 0 by {}
    assert forall|p: PeerID| #[trigger] get0(w1, p) >= 0 by {
        lemma_bump_all_q(w0, f0, p);
    }
    assert forall|p: PeerID| get0(base, p) <= #[trigger] get0(w1, p) by {
        lemma_bump_all_q(Map::empty(), f0, p);
        lemma_bump_all_q(w0, f0, p);
    }
    lemma_walk_mono(cs, n, base, w1);
    lemma_walk_extensive(cs, n, w1);
    lemma_walk_bounded(cs, n, w1, pre.vv);
    assert forall|p: PeerID|
        get0(spec_frontier_vv(csn, f1), p) == #[trigger] post.state_vv.bound(p) by {
        crate::version::lemma_seq_bound_nonneg(pre.vv@, p);
        lemma_bump_all_q(w0, f0, p);
        lemma_fmax_bounded(f0, pre.vv, p);
        assert(get0(walk(cs, n, base), p) == pre.state_vv.bound(p));
        assert(get0(walk(cs, n, w1), p) >= get0(walk(cs, n, base), p));
        assert(get0(walk(cs, n, w1), p) >= get0(w1, p));
        assert(get0(w1, p) >= get0(w0, p));
        assert(get0(walk(cs, n, w1), p) <= max_int(get0(w1, p), pre.vv.bound(p)));
        if p == pre.peer {
            assert(get0(w1, p) <= max_int(pre.next_counter as int, pre.vv.bound(p)));
            assert(pre.vv.bound(p) <= pre.next_counter as int) by {
                crate::op::lemma_ops_total_len_nonneg(pre.staged.deep_view());
                assert forall|i: int|
                    0 <= i < pre.staged.deep_view().len() implies (#[trigger] pre.staged.deep_view()[i]).len() >= 0 by {
                    assert(pre.staged.deep_view()[i].wf());
                }
            }
        } else {
            assert(get0(w1, p) <= max_int(0, pre.vv.bound(p)));
            assert(pre.state_vv.bound(p) == pre.vv.bound(p));
        }
    }
}

/// The changes of a log that a version vector does not cover, in order.
pub open spec fn export_sel(cs: Seq<ChangeView>, from: VersionVector) -> Seq<ChangeView>
    decreases cs.len(),
{
    if cs.len() == 0 {
        Seq::empty()
    } else if cs.last().end() > from.bound(cs.last().id.peer) {
        export_sel(cs.drop_last(), from).push(cs.last())
    } else {
        export_sel(cs.drop_last(), from)
    }
}

/// A batch change is settled when the version covers it or an equal-span
/// copy waits in the queue.
pub open spec fn batch_settled(c: ChangeView, vv: VersionVector, q: Seq<ChangeView>) -> bool {
    covered(c, vv) || exists|j: int|
        0 <= j < q.len() && (#[trigger] q[j]).id == c.id && q[j].end() == c.end()
}

/// Whether a change came from the given batch or buffer.
pub open spec fn from_sources(c: ChangeView, bs: Seq<ChangeView>, ps: Seq<ChangeView>) -> bool {
    bs.contains(c) || ps.contains(c)
}

/// A batch that a document has fully absorbed already: every change covered
/// or buffered, and nothing buffered is ready or covered.
pub open spec fn noop_premise(d: LoroDoc, bs: Seq<ChangeView>) -> bool {
    &&& forall|k: int|
        0 <= k < bs.len() ==> batch_settled(#[trigger] bs[k], d.vv, d.pending.deep_view())
    &&& forall|j: int|
        0 <= j < d.pending.deep_view().len() ==> !covered(
            #[trigger] d.pending.deep_view()[j],
            d.vv,
        ) && !d.ready_change(d.pending.deep_view()[j])
}

/// Settledness survives queue growth.
proof fn lemma_settled_push(c: ChangeView, vv: VersionVector, q: Seq<ChangeView>, x: ChangeView)
    requires
        batch_settled(c, vv, q),
    ensures
        batch_settled(c, vv, q.push(x)),
{
    if !covered(c, vv) {
        let j = choose|j: int|
            0 <= j < q.len() && (#[trigger] q[j]).id == c.id && q[j].end() == c.end();
        assert(q.push(x)[j] == q[j]);
    }
}

/// Settledness survives removing a covered queue entry, and a version that
/// only grew.
proof fn lemma_settled_remove(
    c: ChangeView,
    vv1: VersionVector,
    vv2: VersionVector,
    q: Seq<ChangeView>,
    i: int,
)
    requires
        batch_settled(c, vv1, q),
        0 <= i < q.len(),
        covered(q[i], vv2),
        forall|p: PeerID| #[trigger] vv2.bound(p) >= vv1.bound(p),
    ensures
        batch_settled(c, vv2, q.remove(i)),
{
    if covered(c, vv1) {
        assert(vv2.bound(c.id.peer) >= vv1.bound(c.id.peer));
    } else {
        let j = choose|j: int|
            0 <= j < q.len() && (#[trigger] q[j]).id == c.id && q[j].end() == c.end();
        if j == i {
            assert(covered(c, vv2));
        } else if j < i {
            assert(q.remove(i)[j] == q[j]);
        } else {
            assert(q.remove(i)[j - 1] == q[j]);
        }
    }
}

/// Removing a queue entry keeps the rest well-formed and source-tracked.
proof fn lemma_queue_remove_facts(q: Seq<ChangeView>, i: int, bs: Seq<ChangeView>, ps: Seq<
    ChangeView,
>)
    requires
        0 <= i < q.len(),
        forall|j: int| 0 <= j < q.len() ==> (#[trigger] q[j]).wf(),
        forall|j: int| 0 <= j < q.len() ==> from_sources(#[trigger] q[j], bs, ps),
    ensures
        forall|j: int| 0 <= j < q.remove(i).len() ==> (#[trigger] q.remove(i)[j]).wf(),
        forall|j: int|
            0 <= j < q.remove(i).len() ==> from_sources(#[trigger] q.remove(i)[j], bs, ps),
{
    assert forall|j: int|
        0 <= j < q.remove(i).len() implies (#[trigger] q.remove(i)[j]).wf() && from_sources(
        q.remove(i)[j],
        bs,
        ps,
    ) by {
        if j < i {
            assert(q.remove(i)[j] == q[j]);
        } else {
            assert(q.remove(i)[j] == q[j + 1]);
        }
    }
}

/// One admission extends the old-log containment and source tracking.
proof fn lemma_log_tie_step(
    pre_log: Seq<ChangeView>,
    log_mid: Seq<ChangeView>,
    log_new: Seq<ChangeView>,
    cv: ChangeView,
    bs: Seq<ChangeView>,
    ps: Seq<ChangeView>,
)
    requires
        forall|j: int|
            0 <= j < pre_log.len() ==> log_mid.contains(#[trigger] pre_log[j]),
        forall|j: int|
            0 <= j < log_mid.len() ==> pre_log.contains(#[trigger] log_mid[j]) || from_sources(
                log_mid[j],
                bs,
                ps,
            ),
        from_sources(cv, bs, ps),
        forall|j: int| 0 <= j < log_mid.len() ==> log_new.contains(#[trigger] log_mid[j]),
        forall|j: int|
            0 <= j < log_new.len() ==> (#[trigger] log_new[j]) == cv || log_mid.contains(
                log_new[j],
            ),
    ensures
        forall|j: int|
            0 <= j < pre_log.len() ==> log_new.contains(#[trigger] pre_log[j]),
        forall|j: int|
            0 <= j < log_new.len() ==> pre_log.contains(#[trigger] log_new[j]) || from_sources(
                log_new[j],
                bs,
                ps,
            ),
{
    assert forall|j: int|
        0 <= j < pre_log.len() implies log_new.contains(#[trigger] pre_log[j]) by {
        let w = choose|w: int| 0 <= w < log_mid.len() && log_mid[w] == pre_log[j];
        assert(log_new.contains(log_mid[w]));
    }
    assert forall|j: int|
        0 <= j < log_new.len() implies (pre_log.contains(#[trigger] log_new[j]) || from_sources(
        log_new[j],
        bs,
        ps,
    )) by {
        if log_new[j] != cv {
            let w = choose|w: int| 0 <= w < log_mid.len() && log_mid[w] == log_new[j];
        }
    }
}

/// A frontier set holding exactly one identifier per peer, at one below the
/// bound, demands exactly the bounds.
proof fn lemma_fmax_absent(ids: Seq<ID>, p: PeerID)
    requires
        forall|k: int| 0 <= k < ids.len() ==> (#[trigger] ids[k]).peer != p,
    ensures
        fmax(ids, p) == 0,
    decreases ids.len(),
{
    if ids.len() > 0 {
        lemma_fmax_absent(ids.drop_last(), p);
    }
}

proof fn lemma_fmax_unique(ids: Seq<ID>, p: PeerID, j: int)
    requires
        0 <= j < ids.len(),
        ids[j].peer == p,
        0 <= ids[j].counter,
        forall|k: int| 0 <= k < ids.len() && k != j ==> (#[trigger] ids[k]).peer != p,
    ensures
        fmax(ids, p) == ids[j].counter + 1,
    decreases ids.len(),
{
    if j == ids.len() - 1 {
        assert(forall|k: int|
            0 <= k < ids.drop_last().len() ==> (#[trigger] ids.drop_last()[k]).peer != p);
        lemma_fmax_absent(ids.drop_last(), p);
    } else {
        lemma_fmax_unique(ids.drop_last(), p, j);
    }
}

/// The candidate frontier of a well-formed version vector demands exactly
/// its bounds.
proof fn lemma_candidates_fmax(ents: Seq<(PeerID, Counter)>, ids: Seq<ID>, p: PeerID)
    requires
        crate::version::entries_wf(ents),
        ids.len() == ents.len(),
        forall|k: int|
            0 <= k < ids.len() ==> #[trigger] ids[k] == (ID {
                peer: ents[k].0,
                counter: (ents[k].1 - 1) as Counter,
            }),
    ensures
        fmax(ids, p) == seq_bound(ents, p),
{
    crate::version::lemma_seq_bound_nonneg(ents, p);
    if exists|j: int| 0 <= j < ents.len() && (#[trigger] ents[j]).0 == p {
        let j = choose|j: int| 0 <= j < ents.len() && (#[trigger] ents[j]).0 == p;
        assert forall|k: int| 0 <= k < ids.len() && k != j implies (#[trigger] ids[k]).peer
            != p by {
            if k < j {
                assert(ents[k].0 < ents[j].0);
            } else {
                assert(ents[j].0 < ents[k].0);
            }
        }
        lemma_fmax_unique(ids, p, j);
        assert forall|k: int| 0 <= k < j implies (#[trigger] ents[k]).0 != p by {
            assert(ents[k].0 < ents[j].0);
        }
        crate::version::lemma_seq_bound_found(ents, p, j);
    } else {
        assert forall|k: int| 0 <= k < ids.len() implies (#[trigger] ids[k]).peer != p by {
            assert(ents[k].0 != p);
        }
        lemma_fmax_absent(ids, p);
        crate::version::lemma_seq_bound_absent(ents, p);
    }
}

/// When the frontier demands exactly the current bounds and every logged
/// dependency is known, the dependency walk reproduces the bounds.
proof fn lemma_import_frontier(d: LoroDoc)
    requires
        d.vv.wf(),
        d.log_wf(),
        forall|p: PeerID| #[trigger] fmax(d.state_frontier@, p) == d.vv.bound(p),
        forall|p: PeerID| #[trigger] d.state_vv.bound(p) == d.vv.bound(p),
    ensures
        forall|p: PeerID|
            get0(spec_frontier_vv(d.log.deep_view(), d.state_frontier@), p) == #[trigger] d.state_vv.bound(p),
{
    let cs = d.log.deep_view();
    let f = d.state_frontier@;
    let w0 = frontier_want(f);
    assert forall|p: PeerID| #[trigger] get0(Map::<PeerID, int>::empty(), p) >= 0 by {}
    assert forall|p: PeerID| #[trigger] get0(w0, p) == d.vv.bound(p) by {
        lemma_bump_all_q(Map::empty(), f, p);
        crate::version::lemma_seq_bound_nonneg(d.vv@, p);
    }
    assert forall|p: PeerID| #[trigger] get0(w0, p) >= 0 by {
        crate::version::lemma_seq_bound_nonneg(d.vv@, p);
    }
    lemma_walk_extensive(cs, cs.len() as int, w0);
    lemma_walk_bounded(cs, cs.len() as int, w0, d.vv);
    assert forall|p: PeerID|
        get0(spec_frontier_vv(cs, f), p) == #[trigger] d.state_vv.bound(p) by {
        assert(get0(walk(cs, cs.len() as int, w0), p) >= get0(w0, p));
        assert(get0(walk(cs, cs.len() as int, w0), p) <= max_int(get0(w0, p), d.vv.bound(p)));
    }
}

/// Whether a change lies entirely below a version's bound for its peer.
pub open spec fn covered(c: ChangeView, vv: VersionVector) -> bool {
    c.end() <= vv.bound(c.id.peer)
}

/// The largest exclusive bound a batch carries for one peer.
pub open spec fn batch_bound(bs: Seq<ChangeView>, p: PeerID) -> int
    decreases bs.len(),
{
    if bs.len() == 0 {
        0
    } else {
        let rest = batch_bound(bs.drop_last(), p);
        if bs.last().id.peer == p && bs.last().end() > rest {
            bs.last().end()
        } else {
            rest
        }
    }
}

/// The registers that currently hold a value, as map-value entries.
pub open spec fn live_entries(es: Seq<crate::state::MapEntryV>) -> Seq<(Seq<char>, LvView)>
    decreases es.len(),
{
    if es.len() == 0 {
        Seq::empty()
    } else if es.last().value is Some {
        live_entries(es.drop_last()).push((es.last().key, es.last().value->0))
    } else {
        live_entries(es.drop_last())
    }
}

/// The attached fold keeps the constructor its container kind dictates.
pub proof fn lemma_interp_kind(ops: Seq<OpView>, cid: CidView)
    ensures
        (cid.ctype() == ContainerType::Text || cid.ctype() == ContainerType::List)
            ==> interp_cont(ops, cid) is Sequence,
        cid.ctype() == ContainerType::Dict ==> interp_cont(ops, cid) is Registers,
        cid.ctype() == ContainerType::Tree ==> interp_cont(ops, cid) is Forest,
    decreases ops.len(),
{
    if ops.len() > 0 {
        lemma_interp_kind(ops.drop_last(), cid);
    }
}

/// The detached fold and state keep the constructor too.
pub proof fn lemma_det_kind(ops: Seq<OpView>, vv: VersionVector, cid: CidView)
    ensures
        (cid.ctype() == ContainerType::Text || cid.ctype() == ContainerType::List) ==> (
        det_interp(ops, vv, cid) is Sequence && det_state(ops, vv, cid) is Sequence),
        cid.ctype() == ContainerType::Dict ==> det_interp(ops, vv, cid) is Registers && det_state(
            ops,
            vv,
            cid,
        ) is Registers,
        cid.ctype() == ContainerType::Tree ==> det_interp(ops, vv, cid) is Forest && det_state(
            ops,
            vv,
            cid,
        ) is Forest,
    decreases ops.len(),
{
    if ops.len() > 0 {
        lemma_det_kind(ops.drop_last(), vv, cid);
    }
}

/// All operations of a well-formed change sequence are well-formed.
pub proof fn lemma_changes_ops_all_wf(cs: Seq<ChangeView>)
    requires
        forall|i: int| 0 <= i < cs.len() ==> (#[trigger] cs[i]).wf(),
    ensures
        forall|k: int| 0 <= k < changes_ops(cs).len() ==> (#[trigger] changes_ops(cs)[k]).wf(),
    decreases cs.len(),
{
    if cs.len() > 0 {
        lemma_changes_ops_all_wf(cs.drop_last());
        assert forall|k: int|
            0 <= k < changes_ops(cs).len() implies (#[trigger] changes_ops(cs)[k]).wf() by {
            let pre = changes_ops(cs.drop_last());
            if k < pre.len() {
                assert(changes_ops(cs)[k] == pre[k]);
            } else {
                assert(changes_ops(cs)[k] == cs.last().ops[k - pre.len()]);
            }
        }
    }
}

/// Two logs sorted in the canonical order and holding the same changes —
/// as a multiset, so in whatever order and batching they arrived — are the
/// same sequence.
pub proof fn lemma_log_canonical(cs1: Seq<ChangeView>, cs2: Seq<ChangeView>)
    requires
        forall|i: int, j: int|
            0 <= i < j < cs1.len() ==> (#[trigger] cs1[i]).before(#[trigger] cs1[j]),
        forall|i: int, j: int|
            0 <= i < j < cs2.len() ==> (#[trigger] cs2[i]).before(#[trigger] cs2[j]),
        cs1.to_multiset() == cs2.to_multiset(),
    ensures
        cs1 == cs2,
    decreases cs1.len(),
{
    cs1.to_multiset_ensures();
    cs2.to_multiset_ensures();
    if cs1.len() == 0 {
        assert(cs2.len() == 0);
        assert(cs1 =~= cs2);
    } else {
        assert(cs2.len() == cs1.len());
        let l1 = cs1.last();
        let l2 = cs2.last();
        assert(cs1.contains(l1));
        assert(cs1.to_multiset().count(l1) > 0);
        assert(cs2.contains(l1));
        let j = choose|j: int| 0 <= j < cs2.len() && cs2[j] == l1;
        assert(cs1.to_multiset().count(l2) > 0) by {
            assert(cs2.contains(l2));
        }
        assert(cs1.contains(l2));
        let i = choose|i: int| 0 <= i < cs1.len() && cs1[i] == l2;
        if j < cs2.len() - 1 {
            assert(l1.before(l2));
            if i < cs1.len() - 1 {
                assert(l2.before(l1));
                assert(false);
            } else {
                assert(l2 == l1);
                assert(false);
            }
        }
        assert(l1 == l2);
        let d1 = cs1.drop_last();
        let d2 = cs2.drop_last();
        assert(cs1 =~= d1.push(l1));
        assert(cs2 =~= d2.push(l1));
        d1.to_multiset_ensures();
        d2.to_multiset_ensures();
        assert(d1.push(l1).to_multiset() =~= d1.to_multiset().insert(l1));
        assert(d2.push(l1).to_multiset() =~= d2.to_multiset().insert(l1));
        assert(d1.to_multiset() =~= d2.to_multiset()) by {
            broadcast use vstd::multiset::group_multiset_axioms;

            assert forall|x: ChangeView|
                d1.to_multiset().count(x) == #[trigger] d2.to_multiset().count(x) by {
                assert(cs1.to_multiset().count(x) == cs2.to_multiset().count(x));
                assert(cs1.to_multiset() == d1.to_multiset().insert(l1));
                assert(cs2.to_multiset() == d2.to_multiset().insert(l1));
                assert(d1.to_multiset().insert(l1).count(x) == d1.to_multiset().count(x) + (
                if x == l1 {
                    1int
                } else {
                    0int
                }));
                assert(d2.to_multiset().insert(l1).count(x) == d2.to_multiset().count(x) + (
                if x == l1 {
                    1int
                } else {
                    0int
                }));
            }
        }
        lemma_log_canonical(d1, d2);
        assert(cs1 =~= cs2);
    }
}

/// Convergence: two documents that hold the same set of changes — however
/// the batches arrived — and are both checked out to everything known
/// materialize identical state for every container. The log keeps one
/// canonical order (Lamport stamp, then peer, then counter), so equal change
/// sets are equal sequences, and every container's state is a function of
/// that sequence alone.
pub proof fn lemma_convergence(d1: LoroDoc, d2: LoroDoc, cid: CidView)
    requires
        d1.wf(),
        d2.wf(),
        !d1.detached,
        !d2.detached,
        !d1.txn_active,
        !d2.txn_active,
        d1.log.deep_view().to_multiset() == d2.log.deep_view().to_multiset(),
    ensures
        d1.cont_model(cid) == d2.cont_model(cid),
{
    lemma_log_canonical(d1.log.deep_view(), d2.log.deep_view());
    assert(d1.staged.deep_view() =~= Seq::<OpView>::empty());
    assert(d2.staged.deep_view() =~= Seq::<OpView>::empty());
    assert(d1.ops() =~= d2.ops());
}

/// Idempotence of import: a batch the document has already fully absorbed —
/// every change covered by the version vector or buffered with an equal
/// span, and nothing buffered covered or ready — satisfies the no-op
/// premise of [`LoroDoc::import`], whose contract then promises the second
/// import changes nothing. A successful import's own ensures establish
/// exactly these facts for its batch.
pub proof fn lemma_import_idempotent(d: LoroDoc, bs: Seq<ChangeView>)
    requires
        forall|k: int|
            0 <= k < bs.len() ==> batch_settled(#[trigger] bs[k], d.vv, d.pending.deep_view()),
        forall|j: int|
            0 <= j < d.pending.deep_view().len() ==> !covered(
                #[trigger] d.pending.deep_view()[j],
                d.vv,
            ) && !d.ready_change(d.pending.deep_view()[j]),
    ensures
        noop_premise(d, bs),
{
}

/// A fully covered batch never demands more than the vector grants.
proof fn lemma_batch_bound_covered(bs: Seq<ChangeView>, vv: VersionVector, p: PeerID)
    requires
        forall|k: int| 0 <= k < bs.len() ==> covered(#[trigger] bs[k], vv),
    ensures
        batch_bound(bs, p) <= max_int(0, vv.bound(p)),
    decreases bs.len(),
{
    if bs.len() > 0 {
        lemma_batch_bound_covered(bs.drop_last(), vv, p);
        assert(bs.contains(bs.last())) by {
            assert(bs[bs.len() - 1] == bs.last());
        }
    }
}

/// Causal monotonicity: after an import that absorbed its whole batch, the
/// version vector sits at the pointwise union of the pre-import vector and
/// the batch's own bounds. The two hypotheses are [`LoroDoc::import`]'s own
/// ensures (the vector never drops) and the absorbed-batch condition
/// (every batch change covered afterwards); the matching upper bound holds
/// because admissions only raise a peer's bound to an admitted change's
/// end, and every admitted change comes from the batch or the buffer.
pub proof fn lemma_causal_monotonicity(
    pre_vv: VersionVector,
    post_vv: VersionVector,
    bs: Seq<ChangeView>,
)
    requires
        pre_vv.wf(),
        post_vv.wf(),
        forall|p: PeerID| #[trigger] post_vv.bound(p) >= pre_vv.bound(p),
        forall|k: int| 0 <= k < bs.len() ==> covered(#[trigger] bs[k], post_vv),
    ensures
        forall|p: PeerID|
            #[trigger] post_vv.bound(p) >= max_int(pre_vv.bound(p), batch_bound(bs, p)),
{
    assert forall|p: PeerID|
        #[trigger] post_vv.bound(p) >= max_int(pre_vv.bound(p), batch_bound(bs, p)) by {
        lemma_batch_bound_covered(bs, post_vv, p);
        crate::version::lemma_seq_bound_nonneg(post_vv@, p);
    }
}

/// Visibility depends on a version only through its bounds.
proof fn lemma_apply_checkout_same_bounds(
    s: Seq<crate::tracker::ElemV>,
    vv1: VersionVector,
    vv2: VersionVector,
)
    requires
        forall|p: PeerID| #[trigger] vv1.bound(p) == vv2.bound(p),
    ensures
        apply_checkout(s, vv1) == apply_checkout(s, vv2),
{
    assert forall|i: int|
        0 <= i < s.len() implies apply_checkout(s, vv1)[i] == apply_checkout(s, vv2)[i] by {
        assert(vv1.bound(s[i].id.peer) == vv2.bound(s[i].id.peer));
        assert(vv1.spec_includes(s[i].id) == vv2.spec_includes(s[i].id));
        assert(crate::tracker::any_deleter_included(s[i].deleters, vv1)
            == crate::tracker::any_deleter_included(s[i].deleters, vv2)) by {
            assert forall|k: int|
                0 <= k < s[i].deleters.len() implies vv1.spec_includes(
                #[trigger] s[i].deleters[k],
            ) == vv2.spec_includes(s[i].deleters[k]) by {
                assert(vv1.bound(s[i].deleters[k].peer) == vv2.bound(s[i].deleters[k].peer));
            }
        }
    }
    assert(apply_checkout(s, vv1) =~= apply_checkout(s, vv2));
}

/// The detached fold depends on a version only through its bounds.
proof fn lemma_det_interp_same_bounds(
    ops: Seq<OpView>,
    vv1: VersionVector,
    vv2: VersionVector,
    cid: CidView,
)
    requires
        forall|p: PeerID| #[trigger] vv1.bound(p) == vv2.bound(p),
    ensures
        det_interp(ops, vv1, cid) == det_interp(ops, vv2, cid),
    decreases ops.len(),
{
    if ops.len() > 0 {
        lemma_det_interp_same_bounds(ops.drop_last(), vv1, vv2, cid);
        assert(vv1.bound(ops.last().id.peer) == vv2.bound(ops.last().id.peer));
    }
}

/// The materialized state at a version depends on the version only through
/// its bounds.
pub proof fn lemma_det_state_same_bounds(
    ops: Seq<OpView>,
    vv1: VersionVector,
    vv2: VersionVector,
    cid: CidView,
)
    requires
        forall|p: PeerID| #[trigger] vv1.bound(p) == vv2.bound(p),
    ensures
        det_state(ops, vv1, cid) == det_state(ops, vv2, cid),
{
    lemma_det_interp_same_bounds(ops, vv1, vv2, cid);
    match det_interp(ops, vv1, cid) {
        ContModel::Sequence(s) => {
            lemma_apply_checkout_same_bounds(s, vv1, vv2);
        },
        _ => {},
    }
}

/// Checkout round-trip: moving the state to an arbitrary frontier and then
/// back to the frontier it showed before restores the exact prior
/// materialized state of every container. The hypotheses are
/// [`LoroDoc::checkout`]'s own ensures for the two calls, the documents'
/// invariant, and the flag-tightness checkout itself maintains (a document
/// counts as detached exactly when its state version differs from the
/// latest one).
pub proof fn lemma_checkout_round_trip(d0: LoroDoc, d2: LoroDoc, cid: CidView)
    requires
        d0.wf(),
        d2.wf(),
        !d0.txn_active,
        !d2.txn_active,
        d2.log == d0.log,
        d2.vv == d0.vv,
        d2.staged == d0.staged,
        // the second checkout targeted the frontier the state showed at first
        forall|p: PeerID|
            #[trigger] d2.state_vv.bound(p) == get0(
                spec_frontier_vv(d0.log.deep_view(), d0.state_frontier@),
                p,
            ),
        // the detached flags are tight on both sides
        (d0.detached <==> !(forall|p: PeerID|
            #[trigger] d0.state_vv.bound(p) == d0.vv.bound(p))),
        (d2.detached <==> !(forall|p: PeerID|
            #[trigger] d2.state_vv.bound(p) == d2.vv.bound(p))),
    ensures
        d2.cont_model(cid) == d0.cont_model(cid),
{
    assert forall|p: PeerID| #[trigger] d2.state_vv.bound(p) == d0.state_vv.bound(p) by {
        assert(get0(spec_frontier_vv(d0.log.deep_view(), d0.state_frontier@), p)
            == d0.state_vv.bound(p));
    }
    assert(d2.ops() == d0.ops());
    if d0.detached {
        assert(!(forall|p: PeerID| #[trigger] d0.state_vv.bound(p) == d0.vv.bound(p)));
        let p = choose|p: PeerID| #[trigger] d0.state_vv.bound(p) != d0.vv.bound(p);
        assert(d2.state_vv.bound(p) != d2.vv.bound(p));
        assert(d2.detached);
        lemma_det_state_same_bounds(d0.ops(), d2.state_vv, d0.state_vv, cid);
    } else {
        assert(!d2.detached);
    }
}

/// A fold over operations none of which target `cid` yields the empty state.
pub proof fn lemma_interp_absent(ops: Seq<OpView>, cid: CidView)
    requires
        forall|k: int| 0 <= k < ops.len() ==> (#[trigger] ops[k]).container != cid,
    ensures
        interp_cont(ops, cid) == empty_model(cid.ctype()),
    decreases ops.len(),
{
    if ops.len() > 0 {
        lemma_interp_absent(ops.drop_last(), cid);
    }
}

pub proof fn lemma_det_absent(ops: Seq<OpView>, vv: VersionVector, cid: CidView)
    requires
        forall|k: int| 0 <= k < ops.len() ==> (#[trigger] ops[k]).container != cid,
    ensures
        det_interp(ops, vv, cid) == empty_model(cid.ctype()),
    decreases ops.len(),
{
    if ops.len() > 0 {
        lemma_det_absent(ops.drop_last(), vv, cid);
    }
}

/// Appending one operation to the fold input.
pub proof fn lemma_interp_push(ops: Seq<OpView>, op: OpView, cid: CidView)
    ensures
        interp_cont(ops.push(op), cid) == if op.container == cid {
            cont_step(interp_cont(ops, cid), op)
        } else {
            interp_cont(ops, cid)
        },
{
    assert(ops.push(op).drop_last() =~= ops);
}

pub proof fn lemma_det_push(ops: Seq<OpView>, op: OpView, vv: VersionVector, cid: CidView)
    ensures
        det_interp(ops.push(op), vv, cid) == ({
            let prev = det_interp(ops, vv, cid);
            if op.container == cid {
                match prev {
                    ContModel::Sequence(s) => ContModel::Sequence(tracker_step(s, op)),
                    ContModel::Registers(es) => if op_incl(op, vv) {
                        ContModel::Registers(map_step(es, op))
                    } else {
                        prev
                    },
                    ContModel::Forest(ns) => if op_incl(op, vv) {
                        ContModel::Forest(tree_step(ns, op))
                    } else {
                        prev
                    },
                }
            } else {
                prev
            }
        }),
{
    assert(ops.push(op).drop_last() =~= ops);
}

pub proof fn lemma_changes_ops_take_step(cs: Seq<ChangeView>, i: int)
    requires
        0 <= i < cs.len(),
    ensures
        changes_ops(cs.take(i + 1)) == changes_ops(cs.take(i)) + cs[i].ops,
{
    assert(cs.take(i + 1).drop_last() =~= cs.take(i));
    assert(cs.take(i + 1).last() == cs[i]);
}

/// The concatenated operations of a change prefix form a prefix of the
/// whole concatenation.
pub proof fn lemma_changes_ops_prefix(cs: Seq<ChangeView>, i: int)
    requires
        0 <= i <= cs.len(),
    ensures
        changes_ops(cs.take(i)).len() <= changes_ops(cs).len(),
        forall|k: int|
            0 <= k < changes_ops(cs.take(i)).len() ==> #[trigger] changes_ops(cs)[k]
                == changes_ops(cs.take(i))[k],
    decreases cs.len() - i,
{
    if i < cs.len() {
        lemma_changes_ops_take_step(cs, i);
        lemma_changes_ops_prefix(cs, i + 1);
    } else {
        assert(cs.take(i) =~= cs);
    }
}

/// Every operation of one change is well-formed when the whole concatenated
/// sequence is.
pub proof fn lemma_changes_ops_prefix_wf(
    allops: Seq<OpView>,
    cs: Seq<ChangeView>,
    staged: Seq<OpView>,
    ci: int,
)
    requires
        allops == changes_ops(cs) + staged,
        forall|k: int| 0 <= k < allops.len() ==> (#[trigger] allops[k]).wf(),
        0 <= ci < cs.len(),
    ensures
        forall|oi: int| 0 <= oi < cs[ci].ops.len() ==> (#[trigger] cs[ci].ops[oi]).wf(),
{
    lemma_changes_ops_prefix(cs, ci + 1);
    lemma_changes_ops_take_step(cs, ci);
    let base = changes_ops(cs.take(ci)).len() as int;
    assert forall|oi: int| 0 <= oi < cs[ci].ops.len() implies (#[trigger] cs[ci].ops[oi]).wf() by {
        assert(changes_ops(cs.take(ci + 1))[base + oi] == cs[ci].ops[oi]);
        assert(changes_ops(cs)[base + oi] == cs[ci].ops[oi]);
        assert(allops[base + oi] == cs[ci].ops[oi]);
    }
}

/// A non-empty sequence of well-formed operations consumes at least one
/// identifier.
pub proof fn lemma_total_len_lb(ops: Seq<OpView>)
    requires
        ops.len() > 0,
        forall|k: int| 0 <= k < ops.len() ==> (#[trigger] ops[k]).wf(),
    ensures
        crate::op::ops_total_len(ops) >= 1,
    decreases ops.len(),
{
    if ops.len() > 1 {
        lemma_total_len_lb(ops.drop_last());
    } else {
        crate::op::lemma_ops_total_len_nonneg(ops.drop_last());
    }
}

/// Operation lengths are never negative, so prefix totals are monotone.
pub proof fn lemma_total_len_prefix_mono(ops: Seq<OpView>, i: int)
    requires
        0 <= i <= ops.len(),
    ensures
        crate::op::ops_total_len(ops.take(i)) <= crate::op::ops_total_len(ops),
    decreases ops.len() - i,
{
    if i < ops.len() {
        assert(ops.take(i + 1).drop_last() =~= ops.take(i));
        assert(ops.take(i + 1).last() == ops[i]);
        assert(ops[i].len() >= 0);
        lemma_total_len_prefix_mono(ops, i + 1);
    } else {
        assert(ops.take(i) =~= ops);
    }
}

pub proof fn lemma_total_len_push(ss: Seq<OpView>, op: OpView)
    ensures
        crate::op::ops_total_len(ss.push(op)) == crate::op::ops_total_len(ss) + op.len(),
{
    assert(ss.push(op).drop_last() =~= ss);
}

pub proof fn lemma_total_len_take_all(ss: Seq<OpView>)
    ensures
        crate::op::ops_total_len(ss.take(ss.len() as int)) == crate::op::ops_total_len(ss),
{
    assert(ss.take(ss.len() as int) =~= ss);
}

/// A registered identifier stays registered, at the same index, when the
/// arena grows.
pub proof fn lemma_find_cid_push(s: Seq<CidView>, x: CidView, c: CidView)
    requires
        find_cid(s, c) >= 0,
    ensures
        find_cid(s.push(x), c) == find_cid(s, c),
{
    lemma_find_cid(s, c);
    let i = find_cid(s, c);
    assert(s.push(x)[i] == c);
    assert(forall|j: int| 0 <= j < i ==> s.push(x)[j] == s[j]);
    crate::state::lemma_find_cid_at(s.push(x), c, i);
}

/// Applies one operation to the state at `idx`.
fn apply_to_states(states: &mut Vec<ContainerState>, idx: usize, op: &Op)
    requires
        idx < old(states)@.len(),
        op.deep_view().wf(),
    ensures
        final(states)@.len() == old(states)@.len(),
        forall|j: int|
            0 <= j < old(states)@.len() && j != idx ==> (#[trigger] final(states)@[j]).model()
                == old(states)@[j].model(),
        final(states)@[idx as int].model() == cont_step(
            old(states)@[idx as int].model(),
            op.deep_view(),
        ),
{
    let ghost pre = states@;
    let mut st = states.remove(idx);
    st.apply(op);
    states.insert(idx, st);
    proof {
        assert forall|j: int|
            0 <= j < pre.len() && j != idx implies (#[trigger] states@[j]).model()
            == pre[j].model() by {
            assert(states@[j] == pre[j]);
        }
    }
}

/// Recomputes sequence visibility at `vv` on every sequence state.
#[verifier::loop_isolation(false)]
fn checkout_states(states: &mut Vec<ContainerState>, vv: &VersionVector)
    requires
        vv.wf(),
    ensures
        final(states)@.len() == old(states)@.len(),
        forall|j: int|
            0 <= j < old(states)@.len() ==> (#[trigger] final(states)@[j]).model() == (match old(
                states,
            )@[j].model() {
                ContModel::Sequence(s) => ContModel::Sequence(apply_checkout(s, *vv)),
                m => m,
            }),
{
    let ghost pre = states@;
    let n = states.len();
    let mut i: usize = 0;
    while i < n
        invariant
            0 <= i <= n,
            states@.len() == n == pre.len(),
            forall|j: int| i <= j < n ==> (#[trigger] states@[j]).model() == pre[j].model(),
            forall|j: int|
                0 <= j < i ==> (#[trigger] states@[j]).model() == (match pre[j].model() {
                    ContModel::Sequence(s) => ContModel::Sequence(apply_checkout(s, *vv)),
                    m => m,
                }),
        decreases n - i,
    {
        let ghost loop_pre = states@;
        let mut st = states.remove(i);
        match &mut st {
            ContainerState::Sequence(t) => {
                t.checkout(vv);
            },
            ContainerState::Registers(_) => {
            },
            ContainerState::Forest(_) => {
            },
        }
        states.insert(i, st);
        proof {
            assert forall|j: int|
                0 <= j < n && j != i implies (#[trigger] states@[j]).model()
                == loop_pre[j].model() by {
                assert(states@[j] == loop_pre[j]);
            }
        }
        i = i + 1;
    }
}

/// The unique element order index of the `p`-th visible element of a kind.
pub open spec fn nth_sel_idx(s: Seq<crate::tracker::ElemV>, p: int, text: bool) -> int {
    choose|a: int|
        0 <= a < s.len() && crate::tracker::sel(s[a], text) && crate::tracker::sel_count(
            s.take(a),
            text,
        ) == p
}

/// Such an index is unique.
pub proof fn lemma_nth_sel_unique(s: Seq<crate::tracker::ElemV>, p: int, text: bool, a: int)
    requires
        0 <= a < s.len(),
        crate::tracker::sel(s[a], text),
        crate::tracker::sel_count(s.take(a), text) == p,
    ensures
        nth_sel_idx(s, p, text) == a,
{
    let b = nth_sel_idx(s, p, text);
    assert(0 <= b < s.len() && crate::tracker::sel(s[b], text) && crate::tracker::sel_count(
        s.take(b),
        text,
    ) == p);
    if a < b {
        crate::tracker::lemma_sel_count_step(s, a, text);
        lemma_sel_count_prefix_mono(s, a + 1, b, text);
    } else if b < a {
        crate::tracker::lemma_sel_count_step(s, b, text);
        lemma_sel_count_prefix_mono(s, b + 1, a, text);
    }
}

/// Selected counts grow monotonically with the prefix.
pub proof fn lemma_sel_count_prefix_mono(
    s: Seq<crate::tracker::ElemV>,
    i: int,
    j: int,
    text: bool,
)
    requires
        0 <= i <= j <= s.len(),
    ensures
        crate::tracker::sel_count(s.take(i), text) <= crate::tracker::sel_count(s.take(j), text),
    decreases j - i,
{
    if i < j {
        crate::tracker::lemma_sel_count_step(s, i, text);
        lemma_sel_count_prefix_mono(s, i + 1, j, text);
    }
}

/// The anchors a local sequence insertion at visible position `pos` freezes:
/// the left anchor is the visible element just before `pos`, and the right
/// anchor is the left anchor's immediate successor in the full element
/// order — tombstones included — not the visible element at `pos`; the two
/// differ when a tombstone follows the left anchor. Anchoring to the
/// immediate successor keeps the window between the anchors empty at
/// creation time, so a local insertion lands exactly at `pos`.
pub open spec fn spec_left_anchor(s: Seq<crate::tracker::ElemV>, pos: int, text: bool) -> Option<
    ID,
> {
    if pos == 0 {
        None
    } else {
        Some(s[nth_sel_idx(s, pos - 1, text)].id)
    }
}

pub open spec fn spec_left_arr(s: Seq<crate::tracker::ElemV>, pos: int, text: bool) -> int {
    if pos == 0 {
        -1
    } else {
        nth_sel_idx(s, pos - 1, text)
    }
}

pub open spec fn spec_right_anchor(s: Seq<crate::tracker::ElemV>, pos: int, text: bool) -> Option<
    ID,
> {
    let la = spec_left_arr(s, pos, text);
    if la + 1 < s.len() {
        Some(s[la + 1].id)
    } else {
        None
    }
}

/// A handle to a registered container: its dense index and kind.
#[derive(Clone, Copy, PartialEq, Eq, Structural, Debug)]
pub struct ContainerIdx {
    pub index: usize,
    pub container_type: ContainerType,
}

impl ContainerIdx {
    pub fn get_type(&self) -> (r: ContainerType)
        ensures
            r == self.container_type,
    {
        self.container_type
    }
}

/// A replicated document: one peer's full state.
pub struct LoroDoc {
    /// This replica's identifier.
    pub peer: PeerID,
    /// The committed log, in canonical order.
    pub log: Vec<Change>,
    /// Changes whose dependencies have not all arrived yet.
    pub pending: Vec<Change>,
    /// Everything known: per-peer exclusive bounds over log and staged ops.
    pub vv: VersionVector,
    /// The version the materialized state shows.
    pub state_vv: VersionVector,
    /// The frontier the materialized state shows.
    pub state_frontier: Frontiers,
    /// Whether the state sits at a version other than the latest.
    pub detached: bool,
    /// The next Lamport stamp to assign locally.
    pub next_lamport: Lamport,
    /// The next counter to assign locally.
    pub next_counter: Counter,
    /// Container identifier to runtime index.
    pub arena: ContainerArena,
    /// Materialized state, parallel to the arena.
    pub states: Vec<ContainerState>,
    /// The open transaction's operations, already applied optimistically.
    pub staged: Vec<Op>,
    /// Whether a transaction is open.
    pub txn_active: bool,
    /// The Lamport stamp the open transaction started at.
    pub txn_base_lamport: Lamport,
}

impl LoroDoc {
    /// The canonical operation sequence the state reflects: the log's
    /// operations followed by the staged ones.
    pub open spec fn ops(self) -> Seq<OpView> {
        changes_ops(self.log.deep_view()) + self.staged.deep_view()
    }

    /// The state every container must show.
    pub open spec fn cont_model(self, cid: CidView) -> ContModel {
        if self.detached {
            det_state(self.ops(), self.state_vv, cid)
        } else {
            interp_cont(self.ops(), cid)
        }
    }

    pub open spec fn log_wf(self) -> bool {
        let cs = self.log.deep_view();
        &&& forall|i: int| 0 <= i < cs.len() ==> (#[trigger] cs[i]).wf()
        &&& forall|i: int, j: int|
            0 <= i < j < cs.len() ==> (#[trigger] cs[i]).before(#[trigger] cs[j])
        &&& forall|i: int|
            0 <= i < cs.len() ==> (#[trigger] cs[i]).end() <= self.vv.bound(cs[i].id.peer)
        &&& forall|i: int, j: int|
            0 <= i < j < cs.len() && cs[i].id.peer == cs[j].id.peer ==> (#[trigger] cs[i]).end()
                <= (#[trigger] cs[j]).id.counter
        &&& forall|i: int|
            0 <= i < cs.len() ==> (#[trigger] cs[i]).lamport_end() <= self.next_lamport
        &&& forall|i: int, k: int|
            0 <= i < cs.len() && 0 <= k < cs[i].deps.len() ==> ((#[trigger] cs[i].deps[k]).counter
                as int) < self.vv.bound(cs[i].deps[k].peer)
    }

    pub open spec fn staged_wf(self) -> bool {
        let ss = self.staged.deep_view();
        &&& (!self.txn_active ==> ss.len() == 0)
        &&& (self.txn_active ==> !self.detached)
        &&& forall|i: int| 0 <= i < ss.len() ==> (#[trigger] ss[i]).wf()
        &&& forall|i: int| 0 <= i < ss.len() ==> (#[trigger] ss[i]).id.peer == self.peer
        &&& forall|i: int|
            0 <= i < ss.len() ==> (#[trigger] ss[i]).id.counter as int == self.vv.bound(self.peer)
                + crate::op::ops_total_len(ss.take(i))
        &&& forall|i: int|
            0 <= i < ss.len() ==> (#[trigger] ss[i]).lamport as int == self.txn_base_lamport
                + crate::op::ops_total_len(ss.take(i))
        &&& self.next_counter as int == self.vv.bound(self.peer) + crate::op::ops_total_len(ss)
        &&& (self.txn_active ==> self.next_lamport as int == self.txn_base_lamport
            + crate::op::ops_total_len(ss))
        &&& (self.txn_active ==> forall|i: int|
            0 <= i < self.log.deep_view().len() ==> (#[trigger] self.log.deep_view()[
                i]).lamport_end() <= self.txn_base_lamport)
    }

    pub open spec fn states_wf(self) -> bool {
        &&& self.arena.wf()
        &&& self.states@.len() == self.arena.cids@.len()
        &&& forall|i: int|
            0 <= i < self.states@.len() ==> (#[trigger] self.states@[i]).model()
                == self.cont_model(self.arena.cid_views()[i])
        &&& forall|k: int|
            0 <= k < self.ops().len() ==> find_cid(
                self.arena.cid_views(),
                (#[trigger] self.ops()[k]).container,
            ) >= 0
    }

    /// The log-side invariant: everything except the materialized state's
    /// agreement with the log.
    pub open spec fn core_wf(self) -> bool {
        &&& self.vv.wf()
        &&& self.state_vv.wf()
        &&& self.log_wf()
        &&& self.staged_wf()
        &&& forall|i: int|
            0 <= i < self.state_frontier@.len() ==> 0 <= (#[trigger] self.state_frontier@[
                i]).counter && ((self.state_frontier@[i].counter as int) < self.vv.bound(
                self.state_frontier@[i].peer))
        &&& forall|i: int|
            0 <= i < self.pending@.len() ==> (#[trigger] self.pending@[i]).deep_view().wf()
    }

    /// The whole document invariant.
    pub open spec fn wf(self) -> bool {
        &&& self.core_wf()
        &&& self.states_wf()
        &&& (self.detached ==> forall|p: PeerID|
            #[trigger] self.state_vv.bound(p) <= self.vv.bound(p))
        &&& (!self.detached ==> forall|p: PeerID|
            #[trigger] self.state_vv.bound(p) == self.vv.bound(p))
        &&& forall|p: PeerID|
            get0(spec_frontier_vv(self.log.deep_view(), self.state_frontier@), p)
                == #[trigger] self.state_vv.bound(p)
    }

    /// A fresh, empty document for the given peer.
    pub fn new_with_peer(peer: PeerID) -> (r: Self)
        ensures
            r.wf(),
            r.peer == peer,
            r.log.deep_view() == Seq::<ChangeView>::empty(),
            r.ops() == Seq::<OpView>::empty(),
            forall|p: PeerID| #[trigger] r.vv.bound(p) == 0,
    {
        let r = LoroDoc {
            peer,
            log: Vec::new(),
            pending: Vec::new(),
            vv: VersionVector::new(),
            state_vv: VersionVector::new(),
            state_frontier: Frontiers::new(),
            detached: false,
            next_lamport: 0,
            next_counter: 0,
            arena: ContainerArena::new(),
            states: Vec::new(),
            staged: Vec::new(),
            txn_active: false,
            txn_base_lamport: 0,
        };
        proof {
            assert(r.log.deep_view() =~= Seq::<ChangeView>::empty());
            assert(r.staged.deep_view() =~= Seq::<OpView>::empty());
            assert(r.ops() =~= Seq::<OpView>::empty());
            assert(r.pending@ =~= Seq::<Change>::empty());
            assert(r.states@ =~= Seq::<ContainerState>::empty());
            assert(r.arena.cid_views() =~= Seq::<CidView>::empty());
            assert(frontier_want(r.state_frontier@) =~= Map::<PeerID, int>::empty());
        }
        r
    }

    /// The fold a partially rebuilt state must equal.
    pub open spec fn fold_mode(self, processed: Seq<OpView>, cid: CidView) -> ContModel {
        if self.detached {
            det_interp(processed, self.state_vv, cid)
        } else {
            interp_cont(processed, cid)
        }
    }

    /// Whether an operation takes effect during a rebuild: sequence
    /// operations always extend the element order; register and tree writes
    /// only below the state version's bound.
    fn op_applies(&self, op: &Op) -> (r: bool)
        requires
            self.state_vv.wf(),
            op.deep_view().wf(),
        ensures
            r == (self.detached ==> (op.deep_view().content is MapSet || op.deep_view().content
                is TreeMove) ==> op_incl(op.deep_view(), self.state_vv)),
            !self.detached ==> r,
            (!(op.deep_view().content is MapSet) && !(op.deep_view().content is TreeMove)) ==> r,
    {
        if !self.detached {
            return true;
        }
        match &op.content {
            OpContent::MapSet { .. } => {
                let l = op.len();
                op.id.counter + (l as Counter) <= self.state_vv.get(op.id.peer)
            },
            OpContent::TreeMove { .. } => {
                let l = op.len();
                op.id.counter + (l as Counter) <= self.state_vv.get(op.id.peer)
            },
            _ => true,
        }
    }

    /// Registers the container, applies the operation to its state when it
    /// takes effect, and keeps every other state untouched.
    #[verifier::loop_isolation(false)]
    fn replay_op(&mut self, op: &Op, Ghost(processed): Ghost<Seq<OpView>>)
        requires
            old(self).arena.wf(),
            old(self).state_vv.wf(),
            old(self).states@.len() == old(self).arena.cids@.len(),
            op.deep_view().wf(),
            forall|i: int|
                0 <= i < old(self).states@.len() ==> (#[trigger] old(self).states@[i]).model()
                    == old(self).fold_mode(processed, old(self).arena.cid_views()[i]),
            forall|k: int|
                0 <= k < processed.len() ==> find_cid(
                    old(self).arena.cid_views(),
                    (#[trigger] processed[k]).container,
                ) >= 0,
        ensures
            final(self).arena.wf(),
            final(self).states@.len() == final(self).arena.cids@.len(),
            final(self).arena.cid_views().len() >= old(self).arena.cid_views().len(),
            forall|i: int|
                0 <= i < old(self).arena.cid_views().len() ==> (#[trigger] final(self).arena.cid_views()[i]) == old(self).arena.cid_views()[i],
            forall|i: int|
                0 <= i < final(self).states@.len() ==> (#[trigger] final(self).states@[i]).model()
                    == final(self).fold_mode(processed.push(op.deep_view()), final(self).arena.cid_views()[i]),
            forall|k: int|
                0 <= k < processed.push(op.deep_view()).len() ==> find_cid(
                    final(self).arena.cid_views(),
                    (#[trigger] processed.push(op.deep_view())[k]).container,
                ) >= 0,
            final(self).log == old(self).log,
            final(self).staged == old(self).staged,
            final(self).pending == old(self).pending,
            final(self).vv == old(self).vv,
            final(self).state_vv == old(self).state_vv,
            final(self).state_frontier == old(self).state_frontier,
            final(self).detached == old(self).detached,
            final(self).next_lamport == old(self).next_lamport,
            final(self).next_counter == old(self).next_counter,
            final(self).peer == old(self).peer,
            final(self).txn_active == old(self).txn_active,
            final(self).txn_base_lamport == old(self).txn_base_lamport,
    {
        let ghost pre_arena = self.arena.cid_views();
        let ghost opv = op.deep_view();
        let idx = self.arena.register(&op.container);
        if idx == self.states.len() {
            self.states.push(ContainerState::empty(op.container.container_type()));
            proof {
                assert(find_cid(pre_arena, opv.container) < 0);
                crate::state::lemma_find_cid(pre_arena, opv.container);
                assert forall|k: int|
                    0 <= k < processed.len() implies (#[trigger] processed[k]).container
                    != opv.container by {
                    crate::state::lemma_find_cid(pre_arena, processed[k].container);
                }
                lemma_interp_absent(processed, opv.container);
                lemma_det_absent(processed, self.state_vv, opv.container);
            }
        }
        proof {
            assert(self.arena.cid_views()[idx as int] == opv.container);
            assert forall|i: int|
                0 <= i < self.states@.len() implies (#[trigger] self.states@[i]).model()
                == self.fold_mode(processed, self.arena.cid_views()[i]) by {
                if i < pre_arena.len() {
                    assert(self.arena.cid_views()[i] == pre_arena[i]);
                }
            }
            assert forall|k: int|
                0 <= k < processed.len() implies find_cid(
                self.arena.cid_views(),
                (#[trigger] processed[k]).container,
            ) >= 0 by {
                if self.arena.cid_views().len() > pre_arena.len() {
                    lemma_find_cid_push(pre_arena, opv.container, processed[k].container);
                }
            }
        }
        let ghost mid_arena = self.arena.cid_views();
        let apply_now = self.op_applies(op);
        if apply_now {
            apply_to_states(&mut self.states, idx, op);
        }
        proof {
            assert forall|i: int|
                0 <= i < self.states@.len() implies (#[trigger] self.states@[i]).model()
                == self.fold_mode(processed.push(opv), self.arena.cid_views()[i]) by {
                let cid = self.arena.cid_views()[i];
                lemma_interp_push(processed, opv, cid);
                lemma_det_push(processed, opv, self.state_vv, cid);
                if i != idx {
                    if i < idx {
                        assert(self.arena.cid_views()[i] != self.arena.cid_views()[idx as int]);
                    } else {
                        assert(self.arena.cid_views()[idx as int] != self.arena.cid_views()[i]);
                    }
                }
            }
            assert forall|k: int|
                0 <= k < processed.push(opv).len() implies find_cid(
                self.arena.cid_views(),
                (#[trigger] processed.push(opv)[k]).container,
            ) >= 0 by {
                if k < processed.len() {
                    assert(processed.push(opv)[k] == processed[k]);
                } else {
                    crate::state::lemma_find_cid(self.arena.cid_views(), opv.container);
                    assert(self.arena.cid_views()[idx as int] == opv.container);
                }
            }
        }
    }

    /// Recomputes every container state from the log and staged operations.
    #[verifier::loop_isolation(false)]
    fn rebuild(&mut self)
        requires
            old(self).arena.wf(),
            old(self).state_vv.wf(),
            forall|k: int|
                0 <= k < old(self).ops().len() ==> (#[trigger] old(self).ops()[k]).wf(),
        ensures
            final(self).arena.wf(),
            final(self).states@.len() == final(self).arena.cids@.len(),
            final(self).arena.cid_views().len() >= old(self).arena.cid_views().len(),
            forall|i: int|
                0 <= i < old(self).arena.cid_views().len() ==> (#[trigger] final(self).arena.cid_views()[i]) == old(self).arena.cid_views()[i],
            forall|i: int|
                0 <= i < final(self).states@.len() ==> (#[trigger] final(self).states@[i]).model()
                    == final(self).cont_model(final(self).arena.cid_views()[i]),
            forall|k: int|
                0 <= k < final(self).ops().len() ==> find_cid(
                    final(self).arena.cid_views(),
                    (#[trigger] final(self).ops()[k]).container,
                ) >= 0,
            final(self).log == old(self).log,
            final(self).staged == old(self).staged,
            final(self).pending == old(self).pending,
            final(self).vv == old(self).vv,
            final(self).state_vv == old(self).state_vv,
            final(self).state_frontier == old(self).state_frontier,
            final(self).detached == old(self).detached,
            final(self).next_lamport == old(self).next_lamport,
            final(self).next_counter == old(self).next_counter,
            final(self).peer == old(self).peer,
            final(self).txn_active == old(self).txn_active,
            final(self).txn_base_lamport == old(self).txn_base_lamport,
    {
        let ghost allops = self.ops();
        let ghost cs = self.log.deep_view();
        let an = self.arena.cids.len();
        let mut fresh: Vec<ContainerState> = Vec::new();
        let mut i: usize = 0;
        while i < an
            invariant
                0 <= i <= an,
                an == self.arena.cids@.len(),
                fresh@.len() == i,
                forall|j: int|
                    0 <= j < i ==> (#[trigger] fresh@[j]).model() == empty_model(
                        self.arena.cid_views()[j].ctype(),
                    ),
            decreases an - i,
        {
            fresh.push(ContainerState::empty(self.arena.cids[i].container_type()));
            i = i + 1;
        }
        self.states = fresh;
        proof {
            assert forall|i2: int|
                0 <= i2 < self.states@.len() implies (#[trigger] self.states@[i2]).model()
                == self.fold_mode(Seq::empty(), self.arena.cid_views()[i2]) by {}
        }
        let ghost arena0 = self.arena.cid_views();
        let ln = self.log.len();
        let mut ci: usize = 0;
        while ci < ln
            invariant
                0 <= ci <= ln,
                ln == self.log@.len(),
                self.arena.wf(),
                self.state_vv.wf(),
                self.states@.len() == self.arena.cids@.len(),
                self.arena.cid_views().len() >= arena0.len(),
                forall|j: int|
                    0 <= j < arena0.len() ==> (#[trigger] self.arena.cid_views()[j]) == arena0[j],
                forall|i2: int|
                    0 <= i2 < self.states@.len() ==> (#[trigger] self.states@[i2]).model()
                        == self.fold_mode(
                        changes_ops(cs.take(ci as int)),
                        self.arena.cid_views()[i2],
                    ),
                forall|k: int|
                    0 <= k < changes_ops(cs.take(ci as int)).len() ==> find_cid(
                        self.arena.cid_views(),
                        (#[trigger] changes_ops(cs.take(ci as int))[k]).container,
                    ) >= 0,
                self.log == old(self).log,
                self.staged == old(self).staged,
                self.pending == old(self).pending,
                self.vv == old(self).vv,
                self.state_vv == old(self).state_vv,
                self.state_frontier == old(self).state_frontier,
                self.detached == old(self).detached,
                self.next_lamport == old(self).next_lamport,
                self.next_counter == old(self).next_counter,
                self.peer == old(self).peer,
                self.txn_active == old(self).txn_active,
                self.txn_base_lamport == old(self).txn_base_lamport,
            decreases ln - ci,
        {
            let ghost chops = cs[ci as int].ops;
            let con = self.log[ci].ops.len();
            proof {
                assert(cs[ci as int] == self.log@[ci as int].deep_view());
                assert(chops.len() == con);
                lemma_changes_ops_prefix_wf(allops, cs, self.staged.deep_view(), ci as int);
            }
            let mut oi: usize = 0;
            while oi < con
                invariant
                    0 <= oi <= con,
                    con == self.log@[ci as int].ops@.len(),
                    0 <= ci < ln,
                    ln == self.log@.len(),
                    chops == cs[ci as int].ops,
                    self.arena.wf(),
                    self.state_vv.wf(),
                    self.states@.len() == self.arena.cids@.len(),
                    self.arena.cid_views().len() >= arena0.len(),
                    forall|j: int|
                        0 <= j < arena0.len() ==> (#[trigger] self.arena.cid_views()[j])
                            == arena0[j],
                    forall|i2: int|
                        0 <= i2 < self.states@.len() ==> (#[trigger] self.states@[i2]).model()
                            == self.fold_mode(
                            changes_ops(cs.take(ci as int)) + chops.take(oi as int),
                            self.arena.cid_views()[i2],
                        ),
                    forall|k: int|
                        0 <= k < (changes_ops(cs.take(ci as int)) + chops.take(
                            oi as int,
                        )).len() ==> find_cid(
                            self.arena.cid_views(),
                            (#[trigger] (changes_ops(cs.take(ci as int)) + chops.take(
                                oi as int,
                            ))[k]).container,
                        ) >= 0,
                    self.log == old(self).log,
                    self.staged == old(self).staged,
                    self.pending == old(self).pending,
                    self.vv == old(self).vv,
                    self.state_vv == old(self).state_vv,
                    self.state_frontier == old(self).state_frontier,
                    self.detached == old(self).detached,
                    self.next_lamport == old(self).next_lamport,
                    self.next_counter == old(self).next_counter,
                    self.peer == old(self).peer,
                    self.txn_active == old(self).txn_active,
                    self.txn_base_lamport == old(self).txn_base_lamport,
                decreases con - oi,
            {
                let ghost processed = changes_ops(cs.take(ci as int)) + chops.take(oi as int);
                proof {
                    assert(self.log@[ci as int].ops@[oi as int].deep_view() == chops[oi as int]);
                    lemma_changes_ops_prefix_wf(allops, cs, self.staged.deep_view(), ci as int);
                    assert(chops[oi as int].wf());
                }
                let op = self.log[ci].ops[oi].dup();
                self.replay_op(&op, Ghost(processed));
                proof {
                    assert(processed.push(chops[oi as int]) =~= changes_ops(cs.take(ci as int))
                        + chops.take(oi + 1));
                }
                oi = oi + 1;
            }
            proof {
                lemma_changes_ops_take_step(cs, ci as int);
                assert(chops.take(con as int) =~= chops);
                assert(changes_ops(cs.take(ci as int)) + chops =~= changes_ops(
                    cs.take(ci as int + 1),
                ));
            }
            ci = ci + 1;
        }
        proof {
            assert(cs.take(ln as int) =~= cs);
        }
        let sn = self.staged.len();
        let mut si: usize = 0;
        while si < sn
            invariant
                0 <= si <= sn,
                sn == self.staged@.len(),
                self.arena.wf(),
                self.state_vv.wf(),
                self.states@.len() == self.arena.cids@.len(),
                self.arena.cid_views().len() >= arena0.len(),
                forall|j: int|
                    0 <= j < arena0.len() ==> (#[trigger] self.arena.cid_views()[j]) == arena0[j],
                forall|i2: int|
                    0 <= i2 < self.states@.len() ==> (#[trigger] self.states@[i2]).model()
                        == self.fold_mode(
                        changes_ops(cs) + self.staged.deep_view().take(si as int),
                        self.arena.cid_views()[i2],
                    ),
                forall|k: int|
                    0 <= k < (changes_ops(cs) + self.staged.deep_view().take(
                        si as int,
                    )).len() ==> find_cid(
                        self.arena.cid_views(),
                        (#[trigger] (changes_ops(cs) + self.staged.deep_view().take(
                            si as int,
                        ))[k]).container,
                    ) >= 0,
                self.log == old(self).log,
                self.staged == old(self).staged,
                self.pending == old(self).pending,
                self.vv == old(self).vv,
                self.state_vv == old(self).state_vv,
                self.state_frontier == old(self).state_frontier,
                self.detached == old(self).detached,
                self.next_lamport == old(self).next_lamport,
                self.next_counter == old(self).next_counter,
                self.peer == old(self).peer,
                self.txn_active == old(self).txn_active,
                self.txn_base_lamport == old(self).txn_base_lamport,
            decreases sn - si,
        {
            let ghost processed = changes_ops(cs) + self.staged.deep_view().take(si as int);
            proof {
                assert(self.staged@[si as int].deep_view() == self.staged.deep_view()[si as int]);
                assert(allops[changes_ops(cs).len() + si] == self.staged.deep_view()[si as int]);
            }
            let op = self.staged[si].dup();
            self.replay_op(&op, Ghost(processed));
            proof {
                assert(processed.push(self.staged.deep_view()[si as int]) =~= changes_ops(cs)
                    + self.staged.deep_view().take(si as int + 1));
            }
            si = si + 1;
        }
        proof {
            assert(self.staged.deep_view().take(sn as int) =~= self.staged.deep_view());
            assert(changes_ops(cs) + self.staged.deep_view() =~= allops);
        }
        if self.detached {
            checkout_states(&mut self.states, &self.state_vv);
        }
    }

    /// Whether a handle addresses a registered container of its kind.
    pub open spec fn valid_handle(self, idx: ContainerIdx) -> bool {
        &&& (idx.index as int) < self.arena.cid_views().len()
        &&& self.arena.cid_views()[idx.index as int].ctype() == idx.container_type
    }

    /// Registers a container identifier, creating an empty state on first
    /// sight; the same identifier always yields the same index.
    #[verifier::rlimit(100)]
    #[verifier::spinoff_prover]
    pub fn register_container(&mut self, cid: &ContainerID) -> (r: ContainerIdx)
        requires
            old(self).wf(),
        ensures
            final(self).wf(),
            final(self).valid_handle(r),
            r.container_type == cid@.ctype(),
            final(self).arena.cid_views()[r.index as int] == cid@,
            final(self).ops() == old(self).ops(),
            final(self).log == old(self).log,
            final(self).vv == old(self).vv,
            final(self).state_vv == old(self).state_vv,
            final(self).peer == old(self).peer,
            final(self).detached == old(self).detached,
            final(self).txn_active == old(self).txn_active,
            final(self).staged == old(self).staged,
            final(self).pending == old(self).pending,
            final(self).state_frontier == old(self).state_frontier,
            final(self).arena.cid_views().len() >= old(self).arena.cid_views().len(),
            forall|i: int|
                0 <= i < old(self).arena.cid_views().len() ==> (#[trigger] final(self).arena.cid_views()[i]) == old(self).arena.cid_views()[i],
            forall|i: int|
                0 <= i < final(self).states@.len() ==> (#[trigger] final(self).states@[i]).model()
                    == final(self).cont_model(final(self).arena.cid_views()[i]),
    {
        let ghost pre_arena = self.arena.cid_views();
        let idx = self.arena.register(cid);
        if idx == self.states.len() {
            self.states.push(ContainerState::empty(cid.container_type()));
            proof {
                assert(find_cid(pre_arena, cid@) < 0);
                crate::state::lemma_find_cid(pre_arena, cid@);
                assert forall|k: int|
                    0 <= k < self.ops().len() implies (#[trigger] self.ops()[k]).container
                    != cid@ by {
                    crate::state::lemma_find_cid(pre_arena, self.ops()[k].container);
                }
                lemma_interp_absent(self.ops(), cid@);
                lemma_det_absent(self.ops(), self.state_vv, cid@);
                assert(apply_checkout(Seq::<crate::tracker::ElemV>::empty(), self.state_vv)
                    =~= Seq::<crate::tracker::ElemV>::empty());
            }
        }
        proof {
            assert forall|i: int|
                0 <= i < self.states@.len() implies (#[trigger] self.states@[i]).model()
                == self.cont_model(self.arena.cid_views()[i]) by {
                if i < pre_arena.len() {
                    assert(self.arena.cid_views()[i] == pre_arena[i]);
                }
            }
            assert forall|k: int|
                0 <= k < self.ops().len() implies find_cid(
                self.arena.cid_views(),
                (#[trigger] self.ops()[k]).container,
            ) >= 0 by {
                if self.arena.cid_views().len() > pre_arena.len() {
                    lemma_find_cid_push(pre_arena, cid@, self.ops()[k].container);
                }
            }
        }
        ContainerIdx { index: idx, container_type: cid.container_type() }
    }

    /// Overwrites the parent link of a nested container, recording that
    /// `child` sits inside `parent`.
    pub fn set_container_parent(&mut self, child: ContainerIdx, parent: ContainerIdx)
        requires
            old(self).wf(),
            old(self).valid_handle(child),
            old(self).valid_handle(parent),
        ensures
            final(self).wf(),
            final(self).arena.parents@ == old(self).arena.parents@.update(
                child.index as int,
                Some(parent.index),
            ),
            final(self).arena.cid_views() == old(self).arena.cid_views(),
            final(self).arena.cids == old(self).arena.cids,
            final(self).ops() == old(self).ops(),
            final(self).log == old(self).log,
            final(self).vv == old(self).vv,
            final(self).state_vv == old(self).state_vv,
            final(self).state_frontier == old(self).state_frontier,
            final(self).states == old(self).states,
            final(self).staged == old(self).staged,
            final(self).pending == old(self).pending,
            final(self).peer == old(self).peer,
            final(self).detached == old(self).detached,
            final(self).txn_active == old(self).txn_active,
            final(self).next_counter == old(self).next_counter,
            final(self).next_lamport == old(self).next_lamport,
    {
        self.arena.set_parent(child.index, Some(parent.index));
        proof {
            assert(self.arena.cid_views() =~= old(self).arena.cid_views());
            assert forall|i: int|
                0 <= i < self.states@.len() implies (#[trigger] self.states@[i]).model()
                == self.cont_model(self.arena.cid_views()[i]) by {
                assert(old(self).states@[i].model() == old(self).cont_model(
                    old(self).arena.cid_views()[i],
                ));
            }
        }
    }

    /// Opens a transaction. Local edits require one; editing a detached
    /// document is rejected.
    pub fn txn_begin(&mut self) -> (r: Result<(), LoroError>)
        requires
            old(self).wf(),
        ensures
            final(self).wf(),
            r is Ok <==> !old(self).txn_active && !old(self).detached,
            r is Err ==> *final(self) == *old(self) && (r->Err_0 == LoroError::DetachedEditing
                || r->Err_0 == LoroError::TransactionActive),
            old(self).txn_active ==> r == Err::<(), LoroError>(LoroError::TransactionActive),
            r is Ok ==> final(self).txn_active && final(self).ops() == old(self).ops()
                && final(self).log == old(self).log && final(self).vv == old(self).vv
                && final(self).peer == old(self).peer && final(self).state_vv == old(self).state_vv && final(self).staged == old(self).staged && final(self).states == old(self).states && final(self).arena == old(self).arena,
    {
        if self.txn_active {
            return Err(LoroError::TransactionActive);
        }
        if self.detached {
            return Err(LoroError::DetachedEditing);
        }
        self.txn_active = true;
        self.txn_base_lamport = self.next_lamport;
        proof {
            assert(self.staged.deep_view() =~= Seq::<OpView>::empty());
        }
        Ok(())
    }

    /// Stages one operation of the open transaction: assigns the next
    /// identifiers, applies it optimistically, and records it.
    #[verifier::loop_isolation(false)]
    #[verifier::rlimit(80)]
    fn stage_op(&mut self, container: &ContainerID, content: OpContent) -> (r: Result<
        (),
        LoroError,
    >)
        requires
            old(self).wf(),
            old(self).txn_active,
            ({
                let c = content.deep_view();
                crate::op::oc_len(c) >= 1
            }),
        ensures
            final(self).wf(),
            r is Ok <==> old(self).next_counter + crate::op::oc_len(content.deep_view())
                <= Counter::MAX && old(self).next_lamport + crate::op::oc_len(
                content.deep_view(),
            ) <= Lamport::MAX,
            r is Err ==> r->Err_0 == LoroError::CounterOverflow,
            r is Ok ==> final(self).ops() == old(self).ops().push(
                OpView {
                    id: ID { peer: old(self).peer, counter: old(self).next_counter },
                    lamport: old(self).next_lamport,
                    container: container@,
                    content: content.deep_view(),
                },
            ),
            r is Ok ==> final(self).txn_active && final(self).log == old(self).log && final(self).vv == old(self).vv && final(self).peer == old(self).peer && final(self).state_vv
                == old(self).state_vv && final(self).detached == old(self).detached && final(self).pending == old(self).pending && final(self).state_frontier == old(self).state_frontier,
            r is Err ==> final(self).ops() == old(self).ops() && final(self).log == old(self).log
                && final(self).vv == old(self).vv && final(self).state_vv == old(self).state_vv
                && final(self).peer == old(self).peer && final(self).txn_active && final(self).pending == old(self).pending && final(self).detached == old(self).detached && final(self).state_frontier == old(self).state_frontier,
            forall|i: int|
                0 <= i < old(self).arena.cid_views().len() ==> (#[trigger] final(self).arena.cid_views()[i]) == old(self).arena.cid_views()[i],
            final(self).arena.cid_views().len() >= old(self).arena.cid_views().len(),
    {
        let op = Op {
            id: ID { peer: self.peer, counter: self.next_counter },
            lamport: self.next_lamport,
            container: container.dup(),
            content,
        };
        let len = op.len();
        proof {
            crate::version::lemma_seq_bound_nonneg(self.vv@, self.peer);
            crate::op::lemma_ops_total_len_nonneg(self.staged.deep_view());
            assert forall|i: int|
                0 <= i < self.staged.deep_view().len() implies (#[trigger] self.staged.deep_view()[i]).len() >= 0 by {
                assert(self.staged.deep_view()[i].wf());
            }
        }
        if len > (Counter::MAX - self.next_counter) as usize {
            proof {
                lemma_total_len_take_all(self.staged.deep_view());
            }
            return Err(LoroError::CounterOverflow);
        }
        if (len as u64) > ((Lamport::MAX - self.next_lamport) as u64) {
            proof {
                lemma_total_len_take_all(self.staged.deep_view());
            }
            return Err(LoroError::CounterOverflow);
        }
        let ghost opv = op.deep_view();
        let ghost pre_ops = self.ops();
        let ghost pre_staged = self.staged.deep_view();
        proof {
            assert(opv.wf());
        }
        self.replay_op(&op, Ghost(pre_ops));
        self.staged.push(op);
        self.next_counter = self.next_counter + (len as Counter);
        self.next_lamport = self.next_lamport + (len as Lamport);
        proof {
            assert(pre_staged == old(self).staged.deep_view());
            assert(self.vv == old(self).vv);
            assert(self.staged.deep_view() =~= pre_staged.push(opv));
            assert(self.ops() =~= pre_ops.push(opv));
            lemma_total_len_push(pre_staged, opv);
            assert forall|i: int|
                0 <= i < self.staged.deep_view().len() implies ((#[trigger] self.staged.deep_view()[i]).id.counter as int == self.vv.bound(self.peer)
                + crate::op::ops_total_len(self.staged.deep_view().take(i))
                && self.staged.deep_view()[i].lamport as int == self.txn_base_lamport
                + crate::op::ops_total_len(self.staged.deep_view().take(i))) by {
                if i < pre_staged.len() {
                    assert(self.staged.deep_view().take(i) =~= pre_staged.take(i));
                    assert(self.staged.deep_view()[i] == pre_staged[i]);
                    assert(old(self).staged.deep_view()[i] == pre_staged[i]);
                    assert(pre_staged[i].id.counter as int == old(self).vv.bound(old(self).peer)
                        + crate::op::ops_total_len(pre_staged.take(i)));
                    assert(pre_staged[i].lamport as int == old(self).txn_base_lamport
                        + crate::op::ops_total_len(pre_staged.take(i)));
                    assert(self.txn_base_lamport == old(self).txn_base_lamport);
                    assert(self.peer == old(self).peer);
                } else {
                    assert(i == pre_staged.len());
                    assert(self.staged.deep_view().take(i) =~= pre_staged);
                    assert(self.staged.deep_view()[i] == opv);
                    assert(opv.id.counter == old(self).next_counter);
                    assert(opv.lamport == old(self).next_lamport);
                    assert(old(self).next_counter as int == old(self).vv.bound(old(self).peer)
                        + crate::op::ops_total_len(old(self).staged.deep_view()));
                    assert(old(self).next_lamport as int == old(self).txn_base_lamport
                        + crate::op::ops_total_len(old(self).staged.deep_view()));
                }
            }
        }
        Ok(())
    }

    /// Commits the open transaction: the staged operations become one
    /// change in the log, the document's version and frontier advance, and
    /// the materialized state — already updated optimistically — is kept.
    #[verifier::loop_isolation(false)]
    #[verifier::rlimit(100)]
    pub fn commit(&mut self) -> (r: Result<(), LoroError>)
        requires
            old(self).wf(),
        ensures
            final(self).wf(),
            r is Ok <==> old(self).txn_active,
            r is Err ==> *final(self) == *old(self) && r->Err_0
                == LoroError::TransactionInactive,
            r is Ok ==> !final(self).txn_active && final(self).ops() == old(self).ops() && final(self).peer == old(self).peer && !final(self).detached && final(self).pending == old(self).pending && final(self).states == old(self).states && final(self).arena == old(self).arena && final(self).vv.bound(final(self).peer) == old(self).next_counter && (forall|
                p: PeerID,
            |
                p != final(self).peer ==> final(self).vv.bound(p) == #[trigger] old(self).vv.bound(
                    p,
                )),
    {
        if !self.txn_active {
            return Err(LoroError::TransactionInactive);
        }
        if self.staged.len() == 0 {
            self.txn_active = false;
            proof {
                assert(self.staged.deep_view() =~= Seq::<OpView>::empty());
                assert(crate::op::ops_total_len(self.staged.deep_view()) == 0);
            }
            return Ok(());
        }
        let ghost pre = *self;
        let ghost cs = self.log.deep_view();
        let start = self.vv.get(self.peer);
        let mut ops: Vec<Op> = Vec::new();
        core::mem::swap(&mut ops, &mut self.staged);
        let deps_f = self.state_frontier.dup();
        let change = Change {
            id: ID { peer: self.peer, counter: start },
            lamport: self.txn_base_lamport,
            deps: deps_f.ids,
            ops,
        };
        let ghost cv = change.deep_view();
        proof {
            lemma_total_len_take_all(pre.staged.deep_view());
            crate::op::lemma_ops_total_len_nonneg(pre.staged.deep_view());
            assert forall|i: int|
                0 <= i < pre.staged.deep_view().len() implies (#[trigger] pre.staged.deep_view()[i]).len() >= 0 by {
                assert(pre.staged.deep_view()[i].wf());
            }
            assert(cv.ops == pre.staged.deep_view());
            assert(cv.len() == crate::op::ops_total_len(pre.staged.deep_view()));
            assert(cv.end() == pre.next_counter);
            assert(cv.lamport_end() == pre.next_lamport);
            crate::version::lemma_seq_bound_nonneg(pre.vv@, pre.peer);
            lemma_total_len_lb(pre.staged.deep_view());
            assert forall|k: int|
                0 <= k < cv.ops.len() implies ((#[trigger] cv.ops[k]).id.counter as int
                == cv.id.counter + crate::op::ops_total_len(cv.ops.take(k)) && cv.ops[k].lamport
                as int == cv.lamport + crate::op::ops_total_len(cv.ops.take(k))) by {
                assert(cv.ops[k] == pre.staged.deep_view()[k]);
                assert(cv.ops.take(k) =~= pre.staged.deep_view().take(k));
            }
            assert(cv.wf());
        }
        self.log.push(change);
        self.txn_active = false;
        self.vv.raise(self.peer, self.next_counter);
        self.state_vv.raise(self.peer, self.next_counter);
        self.state_frontier = Frontiers::from_id(
            ID { peer: self.peer, counter: self.next_counter - 1 },
        );
        proof {
            let csn = self.log.deep_view();
            assert(csn =~= cs.push(cv));
            assert(csn.drop_last() =~= cs);
            assert(csn.last() == cv);
            assert(self.staged.deep_view() =~= Seq::<OpView>::empty());
            assert(changes_ops(csn) == changes_ops(csn.drop_last()) + csn.last().ops);
            assert(changes_ops(csn) =~= changes_ops(cs) + cv.ops);
            assert(self.ops() =~= pre.ops());
            lemma_log_push_wf(cs, cv, pre.vv, self.vv, pre.txn_base_lamport as int);
            // states still match: the operation sequence is unchanged
            assert forall|i: int|
                0 <= i < self.states@.len() implies (#[trigger] self.states@[i]).model()
                == self.cont_model(self.arena.cid_views()[i]) by {
                assert(pre.states@[i].model() == pre.cont_model(pre.arena.cid_views()[i]));
            }
            // the new frontier denotes exactly the new version
            lemma_commit_frontier(pre, *self, cv);
        }
        Ok(())
    }

    /// Aborts the open transaction: the staged operations are discarded and
    /// the materialized state rolls back to the pre-transaction version.
    pub fn abort(&mut self)
        requires
            old(self).wf(),
        ensures
            final(self).wf(),
            !final(self).txn_active,
            final(self).log == old(self).log,
            final(self).vv == old(self).vv,
            final(self).pending == old(self).pending,
            final(self).peer == old(self).peer,
            final(self).detached == old(self).detached,
            final(self).ops() == changes_ops(old(self).log.deep_view()),
    {
        if !self.txn_active {
            self.staged = Vec::new();
            proof {
                assert(self.staged.deep_view() =~= Seq::<OpView>::empty());
                assert(old(self).staged.deep_view().len() == 0);
                assert(self.ops() =~= old(self).ops());
                assert(self.ops() =~= changes_ops(old(self).log.deep_view()));
                assert forall|i: int|
                    0 <= i < self.states@.len() implies (#[trigger] self.states@[i]).model()
                    == self.cont_model(self.arena.cid_views()[i]) by {
                    assert(old(self).states@[i].model() == old(self).cont_model(
                        old(self).arena.cid_views()[i],
                    ));
                }
            }
            return;
        }
        self.staged = Vec::new();
        self.txn_active = false;
        self.next_counter = self.vv.get(self.peer);
        self.next_lamport = self.txn_base_lamport;
        proof {
            assert(self.staged.deep_view() =~= Seq::<OpView>::empty());
            assert(self.ops() =~= changes_ops(self.log.deep_view()));
            lemma_changes_ops_all_wf(self.log.deep_view());
        }
        self.rebuild();
        proof {
            assert(self.ops() =~= changes_ops(old(self).log.deep_view()));
        }
    }

    /// Borrow of the sequence tracker behind a text or list handle.
    fn tracker_ref(&self, idx: ContainerIdx) -> (r: &crate::tracker::Tracker)
        requires
            self.wf(),
            self.valid_handle(idx),
            idx.container_type == ContainerType::Text || idx.container_type
                == ContainerType::List,
        ensures
            self.cont_model(self.arena.cid_views()[idx.index as int]) == ContModel::Sequence(
                r.model(),
            ),
    {
        proof {
            let cid = self.arena.cid_views()[idx.index as int];
            lemma_interp_kind(self.ops(), cid);
            lemma_det_kind(self.ops(), self.state_vv, cid);
            assert(self.states@[idx.index as int].model() == self.cont_model(cid));
        }
        match &self.states[idx.index] {
            ContainerState::Sequence(t) => t,
            _ => unreached(),
        }
    }

    /// Inserts text at a visible character position, freezing the anchors of
    /// the new run at creation time.
    pub fn text_insert(&mut self, idx: ContainerIdx, pos: usize, s: &str) -> (r: Result<
        (),
        LoroError,
    >)
        requires
            old(self).wf(),
            old(self).valid_handle(idx),
            idx.container_type == ContainerType::Text,
        ensures
            final(self).wf(),
            final(self).valid_handle(idx),
            final(self).peer == old(self).peer,
            !old(self).txn_active ==> r == Err::<(), LoroError>(LoroError::TransactionInactive)
                && final(self).ops() == old(self).ops(),
            old(self).txn_active && s@.len() == 0 ==> r is Ok && final(self).ops() == old(self).ops(),
            old(self).txn_active && s@.len() > 0 && pos > crate::tracker::sel_count(
                old(self).cont_model(old(self).arena.cid_views()[idx.index as int])->Sequence_0,
                true,
            ) ==> r == Err::<(), LoroError>(LoroError::OutOfBound) && final(self).ops() == old(self).ops(),
            r is Ok <==> old(self).txn_active && (s@.len() == 0 || (pos
                <= crate::tracker::sel_count(
                old(self).cont_model(old(self).arena.cid_views()[idx.index as int])->Sequence_0,
                true,
            ) && old(self).next_counter + s@.len() <= Counter::MAX && old(self).next_lamport
                + s@.len() <= Lamport::MAX)),
            r is Err ==> final(self).ops() == old(self).ops() && (r->Err_0
                == LoroError::TransactionInactive || r->Err_0 == LoroError::OutOfBound || r->Err_0
                == LoroError::CounterOverflow),
            r is Ok && s@.len() > 0 ==> final(self).ops() == old(self).ops().push(
                OpView {
                    id: ID { peer: old(self).peer, counter: old(self).next_counter },
                    lamport: old(self).next_lamport,
                    container: old(self).arena.cid_views()[idx.index as int],
                    content: OcView::TextInsert {
                        origin_left: spec_left_anchor(
                            old(self).cont_model(
                                old(self).arena.cid_views()[idx.index as int],
                            )->Sequence_0,
                            pos as int,
                            true,
                        ),
                        origin_right: spec_right_anchor(
                            old(self).cont_model(
                                old(self).arena.cid_views()[idx.index as int],
                            )->Sequence_0,
                            pos as int,
                            true,
                        ),
                        chars: s@,
                    },
                },
            ),
            final(self).txn_active == old(self).txn_active,
            final(self).vv == old(self).vv,
            final(self).log == old(self).log,
            final(self).detached == old(self).detached,
    {
        if !self.txn_active {
            return Err(LoroError::TransactionInactive);
        }
        let chars = crate::strutil::str_chars(s);
        if chars.len() == 0 {
            return Ok(());
        }
        let ghost m = self.cont_model(self.arena.cid_views()[idx.index as int])->Sequence_0;
        let (ol, or) = {
            let t = self.tracker_ref(idx);
            let vis = t.visible_len(true);
            if pos > vis {
                return Err(LoroError::OutOfBound);
            }
            proof {
                assert(m == t.model());
            }
            let (ol, next_arr): (Option<ID>, usize) = if pos == 0 {
                (None, 0)
            } else {
                match t.nth_visible(pos - 1, true) {
                    Some(a) => {
                        proof {
                            lemma_nth_sel_unique(t.model(), pos - 1, true, a as int);
                            assert(t.model().len() == t.elems@.len());
                        }
                        let n_el = t.elems.len();
                        assert(a < n_el);
                        (Some(t.elem_id(a)), a + 1)
                    },
                    None => {
                        return Err(LoroError::OutOfBound);
                    },
                }
            };
            let or: Option<ID> = if next_arr < t.elems.len() {
                Some(t.elem_id(next_arr))
            } else {
                None
            };
            proof {
                assert(spec_left_arr(m, pos as int, true) + 1 == next_arr);
                assert(ol == spec_left_anchor(m, pos as int, true));
                assert(or == spec_right_anchor(m, pos as int, true));
            }
            (ol, or)
        };
        let content = OpContent::TextInsert { origin_left: ol, origin_right: or, chars };
        proof {
            assert(content.deep_view()->TextInsert_chars == s@);
            assert(crate::op::oc_len(content.deep_view()) == s@.len());
        }
        let cid = self.arena.cids[idx.index].dup();
        let res = self.stage_op(&cid, content);
        match res {
            Ok(()) => Ok(()),
            Err(e) => Err(e),
        }
    }

    /// Deletes `len` visible characters starting at `pos`, tombstoning the
    /// elements they occupy.
    pub fn text_delete(&mut self, idx: ContainerIdx, pos: usize, len: usize) -> (r: Result<
        (),
        LoroError,
    >)
        requires
            old(self).wf(),
            old(self).valid_handle(idx),
            idx.container_type == ContainerType::Text,
        ensures
            final(self).wf(),
            final(self).valid_handle(idx),
            final(self).peer == old(self).peer,
            !old(self).txn_active ==> r == Err::<(), LoroError>(LoroError::TransactionInactive)
                && final(self).ops() == old(self).ops(),
            old(self).txn_active && len == 0 ==> r is Ok && final(self).ops() == old(self).ops(),
            old(self).txn_active && len > 0 && pos + len > crate::tracker::sel_count(
                old(self).cont_model(old(self).arena.cid_views()[idx.index as int])->Sequence_0,
                true,
            ) ==> r == Err::<(), LoroError>(LoroError::OutOfBound) && final(self).ops() == old(self).ops(),
            r is Ok <==> old(self).txn_active && (len == 0 || (pos + len
                <= crate::tracker::sel_count(
                old(self).cont_model(old(self).arena.cid_views()[idx.index as int])->Sequence_0,
                true,
            ) && old(self).next_counter + len <= Counter::MAX && old(self).next_lamport + len
                <= Lamport::MAX)),
            r is Err ==> final(self).ops() == old(self).ops() && (r->Err_0
                == LoroError::TransactionInactive || r->Err_0 == LoroError::OutOfBound || r->Err_0
                == LoroError::CounterOverflow),
            r is Ok && len > 0 ==> final(self).ops() == old(self).ops().push(
                OpView {
                    id: ID { peer: old(self).peer, counter: old(self).next_counter },
                    lamport: old(self).next_lamport,
                    container: old(self).arena.cid_views()[idx.index as int],
                    content: OcView::SeqDelete {
                        targets: crate::tracker::sel_ids(
                            old(self).cont_model(
                                old(self).arena.cid_views()[idx.index as int],
                            )->Sequence_0,
                            true,
                        ).subrange(pos as int, pos + len),
                    },
                },
            ),
            final(self).txn_active == old(self).txn_active,
            final(self).vv == old(self).vv,
            final(self).log == old(self).log,
            final(self).detached == old(self).detached,
    {
        if !self.txn_active {
            return Err(LoroError::TransactionInactive);
        }
        if len == 0 {
            return Ok(());
        }
        let ghost m = self.cont_model(self.arena.cid_views()[idx.index as int])->Sequence_0;
        let targets = {
            let t = self.tracker_ref(idx);
            proof {
                assert(m == t.model());
                crate::tracker::lemma_sel_ids_len(m, true);
            }
            match t.range_ids(pos, len, true) {
                None => {
                    return Err(LoroError::OutOfBound);
                },
                Some(v) => v,
            }
        };
        proof {
            assert(targets@.len() == len);
        }
        let content = OpContent::SeqDelete { targets };
        let cid = self.arena.cids[idx.index].dup();
        let res = self.stage_op(&cid, content);
        match res {
            Ok(()) => Ok(()),
            Err(e) => Err(e),
        }
    }

    /// Inserts values into a list container at a visible position.
    pub fn list_insert(&mut self, idx: ContainerIdx, pos: usize, v: LoroValue) -> (r: Result<
        (),
        LoroError,
    >)
        requires
            old(self).wf(),
            old(self).valid_handle(idx),
            idx.container_type == ContainerType::List,
        ensures
            final(self).wf(),
            final(self).valid_handle(idx),
            final(self).peer == old(self).peer,
            !old(self).txn_active ==> r == Err::<(), LoroError>(LoroError::TransactionInactive)
                && final(self).ops() == old(self).ops(),
            old(self).txn_active && pos > crate::tracker::sel_count(
                old(self).cont_model(old(self).arena.cid_views()[idx.index as int])->Sequence_0,
                false,
            ) ==> r == Err::<(), LoroError>(LoroError::OutOfBound) && final(self).ops() == old(self).ops(),
            r is Ok <==> old(self).txn_active && pos <= crate::tracker::sel_count(
                old(self).cont_model(old(self).arena.cid_views()[idx.index as int])->Sequence_0,
                false,
            ) && old(self).next_counter + 1 <= Counter::MAX && old(self).next_lamport + 1
                <= Lamport::MAX,
            r is Err ==> final(self).ops() == old(self).ops() && (r->Err_0
                == LoroError::TransactionInactive || r->Err_0 == LoroError::OutOfBound || r->Err_0
                == LoroError::CounterOverflow),
            r is Ok ==> final(self).ops() == old(self).ops().push(
                OpView {
                    id: ID { peer: old(self).peer, counter: old(self).next_counter },
                    lamport: old(self).next_lamport,
                    container: old(self).arena.cid_views()[idx.index as int],
                    content: OcView::ListInsert {
                        origin_left: spec_left_anchor(
                            old(self).cont_model(
                                old(self).arena.cid_views()[idx.index as int],
                            )->Sequence_0,
                            pos as int,
                            false,
                        ),
                        origin_right: spec_right_anchor(
                            old(self).cont_model(
                                old(self).arena.cid_views()[idx.index as int],
                            )->Sequence_0,
                            pos as int,
                            false,
                        ),
                        values: seq![crate::value::lv_view(v)],
                    },
                },
            ),
            final(self).txn_active == old(self).txn_active,
            final(self).vv == old(self).vv,
            final(self).log == old(self).log,
            final(self).detached == old(self).detached,
    {
        if !self.txn_active {
            return Err(LoroError::TransactionInactive);
        }
        let ghost m = self.cont_model(self.arena.cid_views()[idx.index as int])->Sequence_0;
        let (ol, or) = {
            let t = self.tracker_ref(idx);
            let vis = t.visible_len(false);
            if pos > vis {
                return Err(LoroError::OutOfBound);
            }
            proof {
                assert(m == t.model());
            }
            let (ol, next_arr): (Option<ID>, usize) = if pos == 0 {
                (None, 0)
            } else {
                match t.nth_visible(pos - 1, false) {
                    Some(a) => {
                        proof {
                            lemma_nth_sel_unique(t.model(), pos - 1, false, a as int);
                            assert(t.model().len() == t.elems@.len());
                        }
                        let n_el = t.elems.len();
                        assert(a < n_el);
                        (Some(t.elem_id(a)), a + 1)
                    },
                    None => {
                        return Err(LoroError::OutOfBound);
                    },
                }
            };
            let or: Option<ID> = if next_arr < t.elems.len() {
                Some(t.elem_id(next_arr))
            } else {
                None
            };
            proof {
                assert(spec_left_arr(m, pos as int, false) + 1 == next_arr);
                assert(ol == spec_left_anchor(m, pos as int, false));
                assert(or == spec_right_anchor(m, pos as int, false));
            }
            (ol, or)
        };
        let mut values: Vec<LoroValue> = Vec::new();
        values.push(v);
        let content = OpContent::ListInsert { origin_left: ol, origin_right: or, values };
        proof {
            crate::value::lemma_lv_seq_view(content->ListInsert_values@);
            assert(content.deep_view()->ListInsert_values =~= seq![
                crate::value::lv_view(content->ListInsert_values@[0]),
            ]);
        }
        let cid = self.arena.cids[idx.index].dup();
        let res = self.stage_op(&cid, content);
        match res {
            Ok(()) => Ok(()),
            Err(e) => Err(e),
        }
    }

    /// Deletes `len` visible list entries starting at `pos`.
    pub fn list_delete(&mut self, idx: ContainerIdx, pos: usize, len: usize) -> (r: Result<
        (),
        LoroError,
    >)
        requires
            old(self).wf(),
            old(self).valid_handle(idx),
            idx.container_type == ContainerType::List,
        ensures
            final(self).wf(),
            final(self).valid_handle(idx),
            final(self).peer == old(self).peer,
            !old(self).txn_active ==> r == Err::<(), LoroError>(LoroError::TransactionInactive)
                && final(self).ops() == old(self).ops(),
            old(self).txn_active && len == 0 ==> r is Ok && final(self).ops() == old(self).ops(),
            old(self).txn_active && len > 0 && pos + len > crate::tracker::sel_count(
                old(self).cont_model(old(self).arena.cid_views()[idx.index as int])->Sequence_0,
                false,
            ) ==> r == Err::<(), LoroError>(LoroError::OutOfBound) && final(self).ops() == old(self).ops(),
            r is Ok <==> old(self).txn_active && (len == 0 || (pos + len
                <= crate::tracker::sel_count(
                old(self).cont_model(old(self).arena.cid_views()[idx.index as int])->Sequence_0,
                false,
            ) && old(self).next_counter + len <= Counter::MAX && old(self).next_lamport + len
                <= Lamport::MAX)),
            r is Err ==> final(self).ops() == old(self).ops() && (r->Err_0
                == LoroError::TransactionInactive || r->Err_0 == LoroError::OutOfBound || r->Err_0
                == LoroError::CounterOverflow),
            r is Ok && len > 0 ==> final(self).ops() == old(self).ops().push(
                OpView {
                    id: ID { peer: old(self).peer, counter: old(self).next_counter },
                    lamport: old(self).next_lamport,
                    container: old(self).arena.cid_views()[idx.index as int],
                    content: OcView::SeqDelete {
                        targets: crate::tracker::sel_ids(
                            old(self).cont_model(
                                old(self).arena.cid_views()[idx.index as int],
                            )->Sequence_0,
                            false,
                        ).subrange(pos as int, pos + len),
                    },
                },
            ),
            final(self).txn_active == old(self).txn_active,
            final(self).vv == old(self).vv,
            final(self).log == old(self).log,
            final(self).detached == old(self).detached,
    {
        if !self.txn_active {
            return Err(LoroError::TransactionInactive);
        }
        if len == 0 {
            return Ok(());
        }
        let ghost m = self.cont_model(self.arena.cid_views()[idx.index as int])->Sequence_0;
        let targets = {
            let t = self.tracker_ref(idx);
            proof {
                assert(m == t.model());
                crate::tracker::lemma_sel_ids_len(m, false);
            }
            match t.range_ids(pos, len, false) {
                None => {
                    return Err(LoroError::OutOfBound);
                },
                Some(v) => v,
            }
        };
        proof {
            assert(targets@.len() == len);
        }
        let content = OpContent::SeqDelete { targets };
        let cid = self.arena.cids[idx.index].dup();
        let res = self.stage_op(&cid, content);
        match res {
            Ok(()) => Ok(()),
            Err(e) => Err(e),
        }
    }

    /// Writes a key of a map container; `None` deletes the key.
    pub fn map_set(&mut self, idx: ContainerIdx, key: &str, value: Option<LoroValue>) -> (r:
        Result<(), LoroError>)
        requires
            old(self).wf(),
            old(self).valid_handle(idx),
            idx.container_type == ContainerType::Dict,
        ensures
            final(self).wf(),
            final(self).valid_handle(idx),
            final(self).peer == old(self).peer,
            !old(self).txn_active ==> r == Err::<(), LoroError>(LoroError::TransactionInactive)
                && final(self).ops() == old(self).ops(),
            r is Ok <==> old(self).txn_active && old(self).next_counter + 1 <= Counter::MAX
                && old(self).next_lamport + 1 <= Lamport::MAX,
            r is Err ==> final(self).ops() == old(self).ops() && (r->Err_0
                == LoroError::TransactionInactive || r->Err_0 == LoroError::CounterOverflow),
            r is Ok ==> final(self).ops() == old(self).ops().push(
                OpView {
                    id: ID { peer: old(self).peer, counter: old(self).next_counter },
                    lamport: old(self).next_lamport,
                    container: old(self).arena.cid_views()[idx.index as int],
                    content: OcView::MapSet {
                        key: key@,
                        value: match value {
                            None => None,
                            Some(v) => Some(crate::value::lv_view(v)),
                        },
                    },
                },
            ),
            final(self).txn_active == old(self).txn_active,
            final(self).vv == old(self).vv,
            final(self).log == old(self).log,
            final(self).detached == old(self).detached,
    {
        if !self.txn_active {
            return Err(LoroError::TransactionInactive);
        }
        let content = OpContent::MapSet { key: key.to_owned(), value };
        let cid = self.arena.cids[idx.index].dup();
        let res = self.stage_op(&cid, content);
        match res {
            Ok(()) => Ok(()),
            Err(e) => Err(e),
        }
    }

    /// Moves a tree node under a new parent; creates the node on first
    /// sight. `None` moves it to the root; the deleted-root sentinel deletes
    /// its subtree.
    pub fn tree_mov(&mut self, idx: ContainerIdx, target: crate::container::TreeID, parent:
        Option<crate::container::TreeID>) -> (r: Result<(), LoroError>)
        requires
            old(self).wf(),
            old(self).valid_handle(idx),
            idx.container_type == ContainerType::Tree,
        ensures
            final(self).wf(),
            final(self).valid_handle(idx),
            final(self).peer == old(self).peer,
            !old(self).txn_active ==> r == Err::<(), LoroError>(LoroError::TransactionInactive)
                && final(self).ops() == old(self).ops(),
            r is Ok <==> old(self).txn_active && old(self).next_counter + 1 <= Counter::MAX
                && old(self).next_lamport + 1 <= Lamport::MAX,
            r is Err ==> final(self).ops() == old(self).ops() && (r->Err_0
                == LoroError::TransactionInactive || r->Err_0 == LoroError::CounterOverflow),
            r is Ok ==> final(self).ops() == old(self).ops().push(
                OpView {
                    id: ID { peer: old(self).peer, counter: old(self).next_counter },
                    lamport: old(self).next_lamport,
                    container: old(self).arena.cid_views()[idx.index as int],
                    content: OcView::TreeMove { target, parent },
                },
            ),
            final(self).txn_active == old(self).txn_active,
            final(self).vv == old(self).vv,
            final(self).log == old(self).log,
            final(self).detached == old(self).detached,
    {
        if !self.txn_active {
            return Err(LoroError::TransactionInactive);
        }
        let content = OpContent::TreeMove { target, parent };
        let cid = self.arena.cids[idx.index].dup();
        let res = self.stage_op(&cid, content);
        match res {
            Ok(()) => Ok(()),
            Err(e) => Err(e),
        }
    }

    /// Creates a fresh tree node at the root and returns its address.
    pub fn tree_create(&mut self, idx: ContainerIdx) -> (r: Result<
        crate::container::TreeID,
        LoroError,
    >)
        requires
            old(self).wf(),
            old(self).valid_handle(idx),
            idx.container_type == ContainerType::Tree,
        ensures
            final(self).wf(),
            final(self).valid_handle(idx),
            final(self).peer == old(self).peer,
            r is Ok <==> old(self).txn_active && old(self).next_counter + 1 <= Counter::MAX
                && old(self).next_lamport + 1 <= Lamport::MAX,
            r is Err ==> final(self).ops() == old(self).ops() && (r->Err_0
                == LoroError::TransactionInactive || r->Err_0 == LoroError::CounterOverflow),
            r is Ok ==> r->Ok_0 == (crate::container::TreeID {
                peer: old(self).peer,
                counter: old(self).next_counter,
            }) && final(self).ops() == old(self).ops().push(
                OpView {
                    id: ID { peer: old(self).peer, counter: old(self).next_counter },
                    lamport: old(self).next_lamport,
                    container: old(self).arena.cid_views()[idx.index as int],
                    content: OcView::TreeMove { target: r->Ok_0, parent: None },
                },
            ),
            final(self).vv == old(self).vv,
            final(self).log == old(self).log,
            final(self).detached == old(self).detached,
    {
        let target = crate::container::TreeID { peer: self.peer, counter: self.next_counter };
        let res = self.tree_mov(idx, target, None);
        match res {
            Ok(()) => Ok(target),
            Err(e) => Err(e),
        }
    }

    /// The number of visible entries of a text or list container.
    pub fn seq_len(&self, idx: ContainerIdx) -> (r: usize)
        requires
            self.wf(),
            self.valid_handle(idx),
            idx.container_type == ContainerType::Text || idx.container_type
                == ContainerType::List,
        ensures
            r == crate::tracker::sel_count(
                self.cont_model(self.arena.cid_views()[idx.index as int])->Sequence_0,
                idx.container_type == ContainerType::Text,
            ),
    {
        let t = self.tracker_ref(idx);
        match idx.container_type {
            ContainerType::Text => t.visible_len(true),
            _ => t.visible_len(false),
        }
    }

    /// The visible text of a text container.
    pub fn text_value(&self, idx: ContainerIdx) -> (r: String)
        requires
            self.wf(),
            self.valid_handle(idx),
            idx.container_type == ContainerType::Text,
        ensures
            crate::tracker::str_points(r@) == crate::tracker::visible_points(
                self.cont_model(self.arena.cid_views()[idx.index as int])->Sequence_0,
            ),
    {
        let t = self.tracker_ref(idx);
        t.text_value()
    }

    /// The visible values of a list container.
    pub fn list_value(&self, idx: ContainerIdx) -> (r: Vec<LoroValue>)
        requires
            self.wf(),
            self.valid_handle(idx),
            idx.container_type == ContainerType::List,
        ensures
            crate::value::lv_seq_view(r@) == crate::tracker::visible_values(
                self.cont_model(self.arena.cid_views()[idx.index as int])->Sequence_0,
            ),
    {
        let t = self.tracker_ref(idx);
        t.list_values()
    }

    /// Borrow of the register table behind a map handle.
    fn map_ref(&self, idx: ContainerIdx) -> (r: &crate::state::MapState)
        requires
            self.wf(),
            self.valid_handle(idx),
            idx.container_type == ContainerType::Dict,
        ensures
            self.cont_model(self.arena.cid_views()[idx.index as int]) == ContModel::Registers(
                r.entries.deep_view(),
            ),
    {
        proof {
            let cid = self.arena.cid_views()[idx.index as int];
            lemma_interp_kind(self.ops(), cid);
            lemma_det_kind(self.ops(), self.state_vv, cid);
            assert(self.states@[idx.index as int].model() == self.cont_model(cid));
        }
        match &self.states[idx.index] {
            ContainerState::Registers(m) => m,
            _ => unreached(),
        }
    }

    /// The winning value of a key of a map container, if the key holds one.
    pub fn map_get(&self, idx: ContainerIdx, key: &str) -> (r: Option<LoroValue>)
        requires
            self.wf(),
            self.valid_handle(idx),
            idx.container_type == ContainerType::Dict,
        ensures
            ({
                let es = self.cont_model(
                    self.arena.cid_views()[idx.index as int],
                )->Registers_0;
                let k = crate::state::find_key(es, key@);
                match r {
                    None => k < 0 || es[k].value is None,
                    Some(v) => k >= 0 && es[k].value == Some(crate::value::lv_view(v)),
                }
            }),
    {
        let m = self.map_ref(idx);
        m.get(key)
    }

    /// The number of keys a map container currently binds to a value.
    pub fn map_len(&self, idx: ContainerIdx) -> (r: usize)
        requires
            self.wf(),
            self.valid_handle(idx),
            idx.container_type == ContainerType::Dict,
        ensures
            r == live_entries(
                self.cont_model(self.arena.cid_views()[idx.index as int])->Registers_0,
            ).len(),
    {
        let m = self.map_ref(idx);
        let ghost es = m.entries.deep_view();
        let n = m.entries.len();
        let mut cnt: usize = 0;
        let mut i: usize = 0;
        while i < n
            invariant
                0 <= i <= n,
                n == m.entries@.len(),
                es == m.entries.deep_view(),
                cnt == live_entries(es.take(i as int)).len(),
                cnt <= i,
            decreases n - i,
        {
            proof {
                assert(es.take(i + 1).drop_last() =~= es.take(i as int));
                assert(es[i as int] == m.entries@[i as int].deep_view());
            }
            match &m.entries[i].value {
                Some(_) => {
                    cnt = cnt + 1;
                },
                None => {
                },
            }
            i = i + 1;
        }
        proof {
            assert(es.take(n as int) =~= es);
        }
        cnt
    }

    /// The entries of a map container that currently hold a value, as a
    /// materialized map value, in first-write order.
    pub fn map_value(&self, idx: ContainerIdx) -> (r: LoroValue)
        requires
            self.wf(),
            self.valid_handle(idx),
            idx.container_type == ContainerType::Dict,
        ensures
            crate::value::lv_view(r) == LvView::Dict(
                live_entries(
                    self.cont_model(self.arena.cid_views()[idx.index as int])->Registers_0,
                ),
            ),
    {
        let m = self.map_ref(idx);
        let ghost es = m.entries.deep_view();
        let n = m.entries.len();
        let mut out: Vec<(String, LoroValue)> = Vec::new();
        let mut i: usize = 0;
        while i < n
            invariant
                0 <= i <= n,
                n == m.entries@.len(),
                es == m.entries.deep_view(),
                crate::value::lv_entries_view(out@) =~= live_entries(es.take(i as int)),
            decreases n - i,
        {
            proof {
                assert(es.take(i + 1).drop_last() =~= es.take(i as int));
                assert(es[i as int] == m.entries@[i as int].deep_view());
            }
            match &m.entries[i].value {
                Some(v) => {
                    let ghost pre = out@;
                    let k = m.entries[i].key.clone();
                    out.push((k, v.dup()));
                    proof {
                        assert(out@.drop_last() =~= pre);
                    }
                },
                None => {
                },
            }
            i = i + 1;
        }
        proof {
            assert(es.take(n as int) =~= es);
        }
        LoroValue::Dict(out)
    }

    /// Borrow of the forest behind a tree handle.
    fn tree_ref(&self, idx: ContainerIdx) -> (r: &crate::state::TreeState)
        requires
            self.wf(),
            self.valid_handle(idx),
            idx.container_type == ContainerType::Tree,
        ensures
            self.cont_model(self.arena.cid_views()[idx.index as int]) == ContModel::Forest(
                r.nodes@,
            ),
    {
        proof {
            let cid = self.arena.cid_views()[idx.index as int];
            lemma_interp_kind(self.ops(), cid);
            lemma_det_kind(self.ops(), self.state_vv, cid);
            assert(self.states@[idx.index as int].model() == self.cont_model(cid));
        }
        match &self.states[idx.index] {
            ContainerState::Forest(t) => t,
            _ => unreached(),
        }
    }

    /// The current parent pointer of a tree node: `None` when the node is
    /// unknown.
    pub fn tree_parent(&self, idx: ContainerIdx, target: crate::container::TreeID) -> (r: Option<
        Option<crate::container::TreeID>,
    >)
        requires
            self.wf(),
            self.valid_handle(idx),
            idx.container_type == ContainerType::Tree,
        ensures
            ({
                let ns = self.cont_model(self.arena.cid_views()[idx.index as int])->Forest_0;
                let k = crate::state::find_node(ns, target);
                match r {
                    None => k < 0,
                    Some(p) => k >= 0 && p == ns[k].parent,
                }
            }),
    {
        let t = self.tree_ref(idx);
        t.parent_of(target)
    }

    /// Checks a change's internal well-formedness: non-empty, counters and
    /// Lamport stamps contiguous on one peer, within range, dependencies
    /// with non-negative counters.
    #[verifier::loop_isolation(false)]
    #[verifier::rlimit(100)]
    fn change_wf_check(c: &Change) -> (r: bool)
        ensures
            r == c.deep_view().wf(),
    {
        let ghost cv = c.deep_view();
        let n = c.ops.len();
        if n == 0 {
            return false;
        }
        if c.id.counter < 0 {
            return false;
        }
        if !Self::change_ops_check(c) {
            return false;
        }
        let dn = c.deps.len();
        let mut j: usize = 0;
        while j < dn
            invariant
                0 <= j <= dn,
                dn == c.deps@.len(),
                forall|k: int| 0 <= k < j ==> 0 <= (#[trigger] c.deps@[k]).counter,
            decreases dn - j,
        {
            if c.deps[j].counter < 0 {
                proof {
                    assert(cv.deps[j as int].counter < 0);
                }
                return false;
            }
            j = j + 1;
        }
        proof {
            assert(cv.deps == c.deps@);
            assert(cv.wf());
        }
        true
    }

    /// The operation-chain part of a change's well-formedness.
    #[verifier::loop_isolation(false)]
    #[verifier::rlimit(100)]
    #[verifier::spinoff_prover]
    fn change_ops_check(c: &Change) -> (r: bool)
        requires
            c.ops@.len() > 0,
            0 <= c.id.counter,
        ensures
            r == ({
                let cv = c.deep_view();
                &&& cv.end() <= Counter::MAX
                &&& cv.lamport_end() <= Lamport::MAX
                &&& forall|k: int| 0 <= k < cv.ops.len() ==> (#[trigger] cv.ops[k]).wf()
                &&& forall|k: int|
                    0 <= k < cv.ops.len() ==> (#[trigger] cv.ops[k]).id.peer == cv.id.peer
                &&& forall|k: int|
                    0 <= k < cv.ops.len() ==> (#[trigger] cv.ops[k]).id.counter as int
                        == cv.id.counter + crate::op::ops_total_len(cv.ops.take(k))
                &&& forall|k: int|
                    0 <= k < cv.ops.len() ==> (#[trigger] cv.ops[k]).lamport as int == cv.lamport
                        + crate::op::ops_total_len(cv.ops.take(k))
            }),
    {
        let ghost cv = c.deep_view();
        let n = c.ops.len();
        let mut cur_c: Counter = c.id.counter;
        let mut cur_l: Lamport = c.lamport;
        let mut i: usize = 0;
        while i < n
            invariant
                0 <= i <= n,
                n == c.ops@.len(),
                cur_c as int == cv.id.counter + crate::op::ops_total_len(cv.ops.take(i as int)),
                cur_l as int == cv.lamport + crate::op::ops_total_len(cv.ops.take(i as int)),
                cur_c >= c.id.counter >= 0,
                forall|k: int| 0 <= k < i ==> (#[trigger] cv.ops[k]).wf(),
                forall|k: int| 0 <= k < i ==> (#[trigger] cv.ops[k]).id.peer == cv.id.peer,
                forall|k: int|
                    0 <= k < i ==> (#[trigger] cv.ops[k]).id.counter as int == cv.id.counter
                        + crate::op::ops_total_len(cv.ops.take(k)),
                forall|k: int|
                    0 <= k < i ==> (#[trigger] cv.ops[k]).lamport as int == cv.lamport
                        + crate::op::ops_total_len(cv.ops.take(k)),
            decreases n - i,
        {
            proof {
                assert(cv.ops[i as int] == c.ops@[i as int].deep_view());
                assert(cv.ops.take(i + 1).drop_last() =~= cv.ops.take(i as int));
                lemma_total_len_prefix_mono(cv.ops, i + 1);
            }
            let op = &c.ops[i];
            let l = op.len();
            if l == 0 || op.id.peer != c.id.peer || op.id.counter != cur_c || op.lamport
                != cur_l {
                return false;
            }
            if l > ((Counter::MAX - cur_c) as usize) {
                proof {
                    assert(crate::op::ops_total_len(cv.ops.take(i + 1)) > Counter::MAX
                        - cv.id.counter);
                    assert(cv.end() > Counter::MAX);
                }
                return false;
            }
            if (l as u64) > ((Lamport::MAX - cur_l) as u64) {
                proof {
                    assert(crate::op::ops_total_len(cv.ops.take(i + 1)) > Lamport::MAX
                        - cv.lamport);
                    assert(cv.lamport_end() > Lamport::MAX);
                }
                return false;
            }
            cur_c = cur_c + (l as Counter);
            cur_l = cur_l + (l as Lamport);
            i = i + 1;
        }
        proof {
            assert(cv.ops.take(n as int) =~= cv.ops);
        }
        true
    }

    /// Whether a change can enter the log now: it starts exactly at its
    /// peer's bound, every dependency is known, and no logged change of the
    /// same peer sorts after it.
    pub open spec fn ready_change(self, cv: ChangeView) -> bool {
        let cs = self.log.deep_view();
        &&& cv.id.counter as int == self.vv.bound(cv.id.peer)
        &&& forall|k: int|
            0 <= k < cv.deps.len() ==> ((#[trigger] cv.deps[k]).counter as int) < self.vv.bound(
                cv.deps[k].peer,
            )
        &&& forall|i: int|
            0 <= i < cs.len() && (#[trigger] cs[i]).id.peer == cv.id.peer ==> cs[i].before(cv)
    }

    /// Admits one ready change: inserts it at its canonical position and
    /// advances the version. Returns false, changing nothing, when the
    /// change is not ready.
    #[verifier::loop_isolation(false)]
    #[verifier::rlimit(100)]
    fn admit_change(&mut self, c: Change) -> (r: bool)
        requires
            old(self).core_wf(),
            !old(self).txn_active,
            c.deep_view().wf(),
        ensures
            final(self).core_wf(),
            !final(self).txn_active,
            r == old(self).ready_change(c.deep_view()),
            !r ==> *final(self) == *old(self),
            r ==> final(self).log.deep_view().to_multiset() == old(self).log.deep_view().to_multiset().insert(c.deep_view()),
            r ==> (forall|p: PeerID|
                #[trigger] final(self).vv.bound(p) == if p == c.id.peer {
                    c.deep_view().end()
                } else {
                    old(self).vv.bound(p)
                }),
            r ==> covered(c.deep_view(), final(self).vv),
            forall|p: PeerID| #[trigger] final(self).vv.bound(p) >= old(self).vv.bound(p),
            final(self).pending == old(self).pending,
            final(self).staged == old(self).staged,
            final(self).peer == old(self).peer,
            final(self).state_vv == old(self).state_vv,
            final(self).state_frontier == old(self).state_frontier,
            final(self).detached == old(self).detached,
            final(self).states == old(self).states,
            final(self).arena == old(self).arena,
            final(self).txn_base_lamport == old(self).txn_base_lamport,
            r ==> forall|j: int|
                0 <= j < old(self).log.deep_view().len() ==> final(self).log.deep_view().contains(
                    #[trigger] old(self).log.deep_view()[j],
                ),
            r ==> forall|j: int|
                0 <= j < final(self).log.deep_view().len() ==> (#[trigger] final(self).log.deep_view()[j]) == c.deep_view() || old(self).log.deep_view().contains(
                    final(self).log.deep_view()[j],
                ),
        decreases 0int,
    {
        let ghost cv = c.deep_view();
        let ghost cs = self.log.deep_view();
        let start = self.vv.get(c.id.peer);
        if c.id.counter != start {
            return false;
        }
        let dn = c.deps.len();
        let mut k: usize = 0;
        while k < dn
            invariant
                0 <= k <= dn,
                dn == c.deps@.len(),
                forall|j: int|
                    0 <= j < k ==> ((#[trigger] cv.deps[j]).counter as int) < self.vv.bound(
                        cv.deps[j].peer,
                    ),
            decreases dn - k,
        {
            if !self.vv.includes_id(c.deps[k]) {
                proof {
                    assert(cv.deps[k as int] == c.deps@[k as int]);
                }
                return false;
            }
            k = k + 1;
        }
        let n = self.log.len();
        let mut i: usize = 0;
        while i < n
            invariant
                0 <= i <= n,
                n == self.log@.len(),
                forall|j: int|
                    0 <= j < i && (#[trigger] cs[j]).id.peer == cv.id.peer ==> cs[j].before(cv),
            decreases n - i,
        {
            if self.log[i].id.peer == c.id.peer {
                proof {
                    assert(cs[i as int] == self.log@[i as int].deep_view());
                }
                if !self.log[i].is_before(&c) {
                    return false;
                }
            }
            i = i + 1;
        }
        // locate the canonical position
        let mut pos: usize = n;
        let mut stopped = false;
        while pos > 0 && !stopped
            invariant
                0 <= pos <= n,
                n == self.log@.len(),
                forall|j: int| pos <= j < n ==> cv.before(#[trigger] cs[j]),
                stopped ==> pos > 0 && !cv.before(cs[pos as int - 1]),
            decreases pos + (if stopped { 0int } else { 1int }),
        {
            proof {
                assert(cs[pos - 1] == self.log@[pos - 1].deep_view());
            }
            if c.is_before(&self.log[pos - 1]) {
                pos = pos - 1;
            } else {
                stopped = true;
            }
        }
        proof {
            assert forall|j: int| 0 <= j < pos implies (#[trigger] cs[j]).before(cv) by {
                assert(cs[pos - 1] == self.log@[pos - 1].deep_view());
                if !cs[pos - 1].before(cv) {
                    lemma_before_order(cs[pos - 1], cv, self.vv);
                    assert(cs[pos - 1].end() <= self.vv.bound(cs[pos - 1].id.peer));
                    lemma_total_len_lb(cs[pos - 1].ops);
                    assert(false);
                }
                if j < pos - 1 {
                    lemma_before_trans(cs[j], cs[pos - 1], cv);
                }
            }
        }
        let last_i = c.ops.len() - 1;
        let cnt_end = c.ops[last_i].id.counter + (c.ops[last_i].len() as Counter);
        let lam_end = c.ops[last_i].lamport + (c.ops[last_i].len() as Lamport);
        proof {
            assert(cv.ops[last_i as int] == c.ops@[last_i as int].deep_view());
            assert(cv.ops.take(cv.ops.len() as int) =~= cv.ops);
            assert(cv.ops.take(last_i as int) =~= cv.ops.drop_last());
            assert(cnt_end == cv.end());
            assert(lam_end == cv.lamport_end());
        }
        let ghost pre_log = self.log@;
        let cpeer = c.id.peer;
        proof {
            lemma_total_len_lb(cv.ops);
            assert(cv.end() > cv.id.counter);
            assert(cnt_end > 0);
        }
        self.log.insert(pos, c);
        self.vv.raise(cpeer, cnt_end);
        if self.next_lamport < lam_end {
            self.next_lamport = lam_end;
        }
        self.next_counter = self.vv.get(self.peer);
        proof {
            lemma_total_len_lb(cv.ops);
            let csn = self.log.deep_view();
            assert(csn =~= cs.take(pos as int) + seq![cv] + cs.skip(pos as int));
            lemma_admit_log(cs, cv, pos as int, old(self).vv);
            assert(self.staged.deep_view() =~= Seq::<OpView>::empty());
            assert forall|j: int| 0 <= j < cs.len() implies csn.contains(#[trigger] cs[j]) by {
                if j < pos {
                    assert(csn[j] == cs[j]);
                } else {
                    assert(csn[j + 1] == cs[j]);
                }
            }
            assert forall|j: int|
                0 <= j < csn.len() implies (#[trigger] csn[j]) == cv || cs.contains(csn[j]) by {
                if j < pos {
                    assert(csn[j] == cs[j]);
                } else if j > pos {
                    assert(csn[j] == cs[j - 1]);
                }
            }
        }
        true
    }

    /// The exclusive counter bound after a change, read off its last
    /// operation.
    fn change_end(c: &Change) -> (r: Counter)
        requires
            c.deep_view().wf(),
        ensures
            r as int == c.deep_view().end(),
    {
        let ghost cv = c.deep_view();
        let last_i = c.ops.len() - 1;
        proof {
            assert(cv.ops[last_i as int] == c.ops@[last_i as int].deep_view());
            assert(cv.ops.take(cv.ops.len() as int) =~= cv.ops);
            assert(cv.ops.take(last_i as int) =~= cv.ops.drop_last());
        }
        c.ops[last_i].id.counter + (c.ops[last_i].len() as Counter)
    }

    /// The exclusive Lamport bound after a change.
    fn change_lamport_end(c: &Change) -> (r: Lamport)
        requires
            c.deep_view().wf(),
        ensures
            r as int == c.deep_view().lamport_end(),
    {
        let ghost cv = c.deep_view();
        let last_i = c.ops.len() - 1;
        proof {
            assert(cv.ops[last_i as int] == c.ops@[last_i as int].deep_view());
            assert(cv.ops.take(cv.ops.len() as int) =~= cv.ops);
            assert(cv.ops.take(last_i as int) =~= cv.ops.drop_last());
        }
        c.ops[last_i].lamport + (c.ops[last_i].len() as Lamport)
    }

    /// Produces the batch of changes not covered by `from`: exactly the
    /// changes whose span exceeds the vector's bound, in log order.
    #[verifier::loop_isolation(false)]
    pub fn export_from(&self, from: &VersionVector) -> (r: Vec<Change>)
        requires
            self.wf(),
            from.wf(),
        ensures
            r.deep_view() == export_sel(self.log.deep_view(), *from),
    {
        let ghost cs = self.log.deep_view();
        let n = self.log.len();
        let mut out: Vec<Change> = Vec::new();
        let mut i: usize = 0;
        while i < n
            invariant
                0 <= i <= n,
                n == self.log@.len(),
                out.deep_view() =~= export_sel(cs.take(i as int), *from),
            decreases n - i,
        {
            proof {
                assert(cs.take(i + 1).drop_last() =~= cs.take(i as int));
                assert(cs[i as int] == self.log@[i as int].deep_view());
                assert(cs[i as int].wf());
            }
            let cnt_end = Self::change_end(&self.log[i]);
            if cnt_end > from.get(self.log[i].id.peer) {
                let ghost pre = out.deep_view();
                out.push(self.log[i].dup());
                proof {
                    assert(out.deep_view() =~= pre.push(cs[i as int]));
                }
            }
            i = i + 1;
        }
        proof {
            assert(cs.take(n as int) =~= cs);
        }
        out
    }

    /// Applies the merge protocol to a batch of changes: covered changes
    /// are discarded, causally ready ones enter the log at their canonical
    /// position, and the rest are buffered until their dependencies arrive.
    /// The materialized state then advances to everything known.
    #[verifier::loop_isolation(false)]
    #[verifier::rlimit(100)]
    pub fn import(&mut self, batch: &Vec<Change>) -> (r: Result<(), LoroError>)
        requires
            old(self).wf(),
        ensures
            final(self).wf(),
            r is Err ==> *final(self) == *old(self),
            r is Err ==> (r->Err_0 == LoroError::TransactionActive || r->Err_0
                == LoroError::DetachedEditing || r->Err_0 == LoroError::DecodeError),
            old(self).txn_active ==> r == Err::<(), LoroError>(LoroError::TransactionActive),
            !old(self).txn_active && old(self).detached ==> r == Err::<(), LoroError>(
                LoroError::DetachedEditing,
            ),
            r is Ok <==> !old(self).txn_active && !old(self).detached && (forall|k: int|
                0 <= k < batch.deep_view().len() ==> (#[trigger] batch.deep_view()[k]).wf()),
            forall|p: PeerID| #[trigger] final(self).vv.bound(p) >= old(self).vv.bound(p),
            r is Ok ==> forall|k: int|
                0 <= k < batch.deep_view().len() ==> batch_settled(
                    #[trigger] batch.deep_view()[k],
                    final(self).vv,
                    final(self).pending.deep_view(),
                ),
            r is Ok ==> forall|j: int|
                0 <= j < final(self).pending.deep_view().len() ==> !covered(
                    #[trigger] final(self).pending.deep_view()[j],
                    final(self).vv,
                ) && !final(self).ready_change(final(self).pending.deep_view()[j]),
            r is Ok ==> forall|j: int|
                0 <= j < old(self).log.deep_view().len() ==> final(self).log.deep_view().contains(
                    #[trigger] old(self).log.deep_view()[j],
                ),
            r is Ok ==> forall|j: int|
                0 <= j < final(self).log.deep_view().len() ==> old(self).log.deep_view().contains(
                    #[trigger] final(self).log.deep_view()[j],
                ) || from_sources(
                    final(self).log.deep_view()[j],
                    batch.deep_view(),
                    old(self).pending.deep_view(),
                ),
            r is Ok ==> forall|j: int|
                0 <= j < final(self).pending.deep_view().len() ==> from_sources(
                    #[trigger] final(self).pending.deep_view()[j],
                    batch.deep_view(),
                    old(self).pending.deep_view(),
                ),
            r is Ok && noop_premise(*old(self), batch.deep_view()) ==> *final(self) == *old(self),
            final(self).peer == old(self).peer,
            final(self).txn_active == old(self).txn_active,
            final(self).detached == old(self).detached,
    {
        if self.txn_active {
            return Err(LoroError::TransactionActive);
        }
        if self.detached {
            return Err(LoroError::DetachedEditing);
        }
        let bn = batch.len();
        let mut v: usize = 0;
        while v < bn
            invariant
                0 <= v <= bn,
                bn == batch@.len(),
                forall|k: int| 0 <= k < v ==> (#[trigger] batch.deep_view()[k]).wf(),
            decreases bn - v,
        {
            proof {
                assert(batch.deep_view()[v as int] == batch@[v as int].deep_view());
            }
            if !Self::change_wf_check(&batch[v]) {
                return Err(LoroError::DecodeError);
            }
            v = v + 1;
        }
        self.import_core(batch);
        Ok(())
    }

    /// Builds the admission queue: the buffered changes plus the batch
    /// entries that are neither covered nor already buffered with the same
    /// span. Leaves the document's pending buffer empty.
    #[verifier::loop_isolation(false)]
    #[verifier::rlimit(100)]
    fn gather_queue(&mut self, batch: &Vec<Change>) -> (queue: Vec<Change>)
        requires
            old(self).wf(),
            !old(self).txn_active,
            !old(self).detached,
            forall|k: int|
                0 <= k < batch.deep_view().len() ==> (#[trigger] batch.deep_view()[k]).wf(),
        ensures
            final(self).log == old(self).log,
            final(self).vv == old(self).vv,
            final(self).state_vv == old(self).state_vv,
            final(self).state_frontier == old(self).state_frontier,
            final(self).states == old(self).states,
            final(self).arena == old(self).arena,
            final(self).staged == old(self).staged,
            final(self).peer == old(self).peer,
            final(self).detached == old(self).detached,
            final(self).txn_active == old(self).txn_active,
            final(self).txn_base_lamport == old(self).txn_base_lamport,
            final(self).next_counter == old(self).next_counter,
            final(self).next_lamport == old(self).next_lamport,
            final(self).pending@.len() == 0,
            final(self).core_wf(),
            forall|j: int|
                0 <= j < queue.deep_view().len() ==> (#[trigger] queue.deep_view()[j]).wf(),
            forall|j: int|
                0 <= j < queue.deep_view().len() ==> from_sources(
                    #[trigger] queue.deep_view()[j],
                    batch.deep_view(),
                    old(self).pending.deep_view(),
                ),
            forall|k: int|
                0 <= k < batch.deep_view().len() ==> batch_settled(
                    #[trigger] batch.deep_view()[k],
                    final(self).vv,
                    queue.deep_view(),
                ),
            noop_premise(*old(self), batch.deep_view()) ==> queue == old(self).pending,
    {
        let bn = batch.len();
        let ghost pre = *self;
        let ghost np = noop_premise(pre, batch.deep_view());
        let mut queue: Vec<Change> = Vec::new();
        core::mem::swap(&mut queue, &mut self.pending);

        let ghost q0 = queue.deep_view();
        proof {
            assert(q0 =~= pre.pending.deep_view());
            assert forall|j: int|
                0 <= j < q0.len() implies from_sources(
                #[trigger] q0[j],
                batch.deep_view(),
                q0,
            ) by {
                assert(q0.contains(q0[j]));
            }
        }
        let mut b: usize = 0;
        while b < bn
            invariant
                0 <= b <= bn,
                bn == batch@.len(),
                forall|k: int| 0 <= k < bn ==> (#[trigger] batch.deep_view()[k]).wf(),
                forall|j: int|
                    0 <= j < queue.deep_view().len() ==> (#[trigger] queue.deep_view()[j]).wf(),
                forall|j: int|
                    0 <= j < queue.deep_view().len() ==> from_sources(
                        #[trigger] queue.deep_view()[j],
                        batch.deep_view(),
                        q0,
                    ),
                forall|k: int|
                    0 <= k < b ==> batch_settled(
                        #[trigger] batch.deep_view()[k],
                        self.vv,
                        queue.deep_view(),
                    ),
                np ==> queue == pre.pending,
                self.vv == pre.vv,
                self.log == pre.log,
                self.staged == pre.staged,
                self.states == pre.states,
                self.arena == pre.arena,
                self.state_vv == pre.state_vv,
                self.state_frontier == pre.state_frontier,
                self.detached == pre.detached,
                self.peer == pre.peer,
                self.next_lamport == pre.next_lamport,
                self.next_counter == pre.next_counter,
                self.txn_active == pre.txn_active,
                self.txn_base_lamport == pre.txn_base_lamport,
                self.pending@.len() == 0,
            decreases bn - b,
        {
            proof {
                assert(batch.deep_view()[b as int] == batch@[b as int].deep_view());
                assert(batch.deep_view()[b as int].wf());
            }
            let cnt_end = Self::change_end(&batch[b]);
            if cnt_end <= self.vv.get(batch[b].id.peer) {
                proof {
                    assert(covered(batch.deep_view()[b as int], self.vv));
                }
                b = b + 1;
                continue;
            }
            let qn = queue.len();
            let mut dup = false;
            let mut q: usize = 0;
            while q < qn
                invariant
                    0 <= q <= qn,
                    qn == queue@.len(),
                    forall|j: int|
                        0 <= j < queue.deep_view().len() ==> (#[trigger] queue.deep_view()[
                        j]).wf(),
                    bn == batch@.len(),
                    forall|k: int| 0 <= k < bn ==> (#[trigger] batch.deep_view()[k]).wf(),
                    0 <= b < bn,
                    dup ==> exists|j: int|
                        0 <= j < queue.deep_view().len() && (#[trigger] queue.deep_view()[j]).id
                            == batch.deep_view()[b as int].id && queue.deep_view()[j].end()
                            == batch.deep_view()[b as int].end(),
                    !dup ==> forall|j: int|
                        0 <= j < q ==> !((#[trigger] queue.deep_view()[j]).id
                            == batch.deep_view()[b as int].id && queue.deep_view()[j].end()
                            == batch.deep_view()[b as int].end()),
                decreases qn - q,
            {
                proof {
                    assert(queue.deep_view()[q as int] == queue@[q as int].deep_view());
                }
                let qe = Self::change_end(&queue[q]);
                if queue[q].id == batch[b].id && qe == cnt_end {
                    dup = true;
                }
                q = q + 1;
            }
            proof {
                if dup {
                    assert(batch_settled(batch.deep_view()[b as int], self.vv,
                        queue.deep_view()));
                }
            }
            if !dup {
                let ghost qpre = queue.deep_view();
                queue.push(batch[b].dup());
                proof {
                    assert(queue.deep_view() =~= qpre.push(batch.deep_view()[b as int]));
                    assert forall|j: int|
                        0 <= j < queue.deep_view().len() implies from_sources(
                        #[trigger] queue.deep_view()[j],
                        batch.deep_view(),
                        q0,
                    ) by {
                        if j < qpre.len() {
                            assert(queue.deep_view()[j] == qpre[j]);
                        } else {
                            assert(queue.deep_view()[j] == batch.deep_view()[b as int]);
                            assert(batch.deep_view().contains(batch.deep_view()[b as int]));
                        }
                    }
                    assert forall|k: int|
                        0 <= k < b + 1 implies batch_settled(
                        #[trigger] batch.deep_view()[k],
                        self.vv,
                        queue.deep_view(),
                    ) by {
                        if k < b {
                            lemma_settled_push(batch.deep_view()[k], self.vv, qpre,
                                batch.deep_view()[b as int]);
                        } else {
                            assert(queue.deep_view()[qpre.len() as int] == batch.deep_view()[
                                b as int]);
                        }
                    }
                    if np {
                        assert(covered(batch.deep_view()[b as int], pre.vv) || exists|j: int|
                            0 <= j < q0.len() && (#[trigger] q0[j]).id == batch.deep_view()[
                            b as int].id && q0[j].end() == batch.deep_view()[b as int].end());
                        assert(false);
                    }
                }
            }
            b = b + 1;
        }
        queue
    }

    /// One pass of the admission fixpoint.
    #[verifier::loop_isolation(false)]
    #[verifier::rlimit(100)]
    fn absorb_pass(&mut self, batch: &Vec<Change>, q: Vec<Change>, Ghost(pre): Ghost<LoroDoc>, Ghost(admitted_in): Ghost<bool>) -> (r: (
        Vec<Change>,
        bool,
        bool,
    ))
        requires
            old(self).core_wf(),
            !old(self).txn_active,
            pre.core_wf(),
            forall|k: int|
                0 <= k < batch.deep_view().len() ==> (#[trigger] batch.deep_view()[k]).wf(),
            forall|j: int|
                0 <= j < q.deep_view().len() ==> (#[trigger] q.deep_view()[j]).wf(),
            forall|j: int|
                0 <= j < q.deep_view().len() ==> from_sources(
                    #[trigger] q.deep_view()[j],
                    batch.deep_view(),
                    pre.pending.deep_view(),
                ),
            forall|j: int|
                0 <= j < pre.log.deep_view().len() ==> old(self).log.deep_view().contains(
                    #[trigger] pre.log.deep_view()[j],
                ),
            forall|j: int|
                0 <= j < old(self).log.deep_view().len() ==> pre.log.deep_view().contains(
                    #[trigger] old(self).log.deep_view()[j],
                ) || from_sources(
                    old(self).log.deep_view()[j],
                    batch.deep_view(),
                    pre.pending.deep_view(),
                ),
            forall|k: int|
                0 <= k < batch.deep_view().len() ==> batch_settled(
                    #[trigger] batch.deep_view()[k],
                    old(self).vv,
                    q.deep_view(),
                ),
            forall|p: PeerID| #[trigger] old(self).vv.bound(p) >= pre.vv.bound(p),
            !admitted_in ==> (old(self).vv == pre.vv && old(self).log == pre.log && old(self).next_lamport == pre.next_lamport && old(self).next_counter == pre.next_counter),
            noop_premise(pre, batch.deep_view()) ==> (q == pre.pending && !admitted_in && old(self).vv == pre.vv),
            old(self).staged == pre.staged,
            old(self).states == pre.states,
            old(self).arena == pre.arena,
            old(self).state_vv == pre.state_vv,
            old(self).state_frontier == pre.state_frontier,
            old(self).detached == pre.detached,
            old(self).peer == pre.peer,
            old(self).txn_active == pre.txn_active,
            old(self).txn_base_lamport == pre.txn_base_lamport,
            old(self).pending@.len() == 0,
        ensures
            final(self).core_wf(),
            !final(self).txn_active,
            forall|j: int|
                0 <= j < r.0.deep_view().len() ==> (#[trigger] r.0.deep_view()[j]).wf(),
            forall|j: int|
                0 <= j < r.0.deep_view().len() ==> from_sources(
                    #[trigger] r.0.deep_view()[j],
                    batch.deep_view(),
                    pre.pending.deep_view(),
                ),
            forall|j: int|
                0 <= j < pre.log.deep_view().len() ==> final(self).log.deep_view().contains(
                    #[trigger] pre.log.deep_view()[j],
                ),
            forall|j: int|
                0 <= j < final(self).log.deep_view().len() ==> pre.log.deep_view().contains(
                    #[trigger] final(self).log.deep_view()[j],
                ) || from_sources(
                    final(self).log.deep_view()[j],
                    batch.deep_view(),
                    pre.pending.deep_view(),
                ),
            forall|k: int|
                0 <= k < batch.deep_view().len() ==> batch_settled(
                    #[trigger] batch.deep_view()[k],
                    final(self).vv,
                    r.0.deep_view(),
                ),
            forall|p: PeerID| #[trigger] final(self).vv.bound(p) >= pre.vv.bound(p),
            !(admitted_in || r.2) ==> (final(self).vv == pre.vv && final(self).log == pre.log
                && final(self).next_lamport == pre.next_lamport && final(self).next_counter
                == pre.next_counter),
            noop_premise(pre, batch.deep_view()) ==> (r.0 == pre.pending && !r.2 && final(self).vv == pre.vv),
            r.0.deep_view().len() <= q.deep_view().len(),
            !r.1 ==> forall|j: int|
                0 <= j < r.0.deep_view().len() ==> !covered(
                    #[trigger] r.0.deep_view()[j],
                    final(self).vv,
                ) && !final(self).ready_change(r.0.deep_view()[j]),
            r.1 ==> r.0.deep_view().len() < q.deep_view().len(),
            final(self).staged == pre.staged,
            final(self).states == pre.states,
            final(self).arena == pre.arena,
            final(self).state_vv == pre.state_vv,
            final(self).state_frontier == pre.state_frontier,
            final(self).detached == pre.detached,
            final(self).peer == pre.peer,
            final(self).txn_active == pre.txn_active,
            final(self).txn_base_lamport == pre.txn_base_lamport,
            final(self).pending@.len() == 0,
    {
        let bn = batch.len();
        let ghost np = noop_premise(pre, batch.deep_view());
        let ghost q0 = pre.pending.deep_view();
        let mut queue = q;
        let mut admitted_new = false;
            let before_len = queue.len();
            let mut i: usize = 0;
            let mut progressed = false;
            while i < queue.len()
                invariant
                    self.core_wf(),
                    !self.txn_active,
                    0 <= i <= queue@.len(),
                    queue@.len() <= before_len,
                    progressed ==> queue@.len() < before_len,
                    bn == batch@.len(),
                    forall|k: int| 0 <= k < bn ==> (#[trigger] batch.deep_view()[k]).wf(),
                    forall|j: int|
                        0 <= j < queue.deep_view().len() ==> (#[trigger] queue.deep_view()[
                        j]).wf(),
                    forall|j: int|
                        0 <= j < queue.deep_view().len() ==> from_sources(
                            #[trigger] queue.deep_view()[j],
                            batch.deep_view(),
                            q0,
                        ),
                    forall|j: int|
                        0 <= j < pre.log.deep_view().len() ==> self.log.deep_view().contains(
                            #[trigger] pre.log.deep_view()[j],
                        ),
                    forall|j: int|
                        0 <= j < self.log.deep_view().len() ==> pre.log.deep_view().contains(
                            #[trigger] self.log.deep_view()[j],
                        ) || from_sources(self.log.deep_view()[j], batch.deep_view(), q0),
                    forall|k: int|
                        0 <= k < bn ==> batch_settled(
                            #[trigger] batch.deep_view()[k],
                            self.vv,
                            queue.deep_view(),
                        ),
                    forall|p: PeerID| #[trigger] self.vv.bound(p) >= pre.vv.bound(p),
                    !(admitted_in || admitted_new) ==> (self.vv == pre.vv && self.log == pre.log
                        && self.next_lamport == pre.next_lamport && self.next_counter
                        == pre.next_counter),
                    np ==> (queue == pre.pending && !admitted_in && !admitted_new && !progressed && self.vv == pre.vv),
                    np ==> self.vv == pre.vv,
                    !progressed ==> forall|j: int|
                        0 <= j < i ==> !covered(#[trigger] queue.deep_view()[j], self.vv)
                            && !self.ready_change(queue.deep_view()[j]),
                    self.staged == pre.staged,
                    self.states == pre.states,
                    self.arena == pre.arena,
                    self.state_vv == pre.state_vv,
                    self.state_frontier == pre.state_frontier,
                    self.detached == pre.detached,
                    self.peer == pre.peer,
                    self.txn_active == pre.txn_active,
                    self.txn_base_lamport == pre.txn_base_lamport,
                    self.pending@.len() == 0,
                decreases queue@.len() - i,
            {
                proof {
                    assert(queue.deep_view()[i as int] == queue@[i as int].deep_view());
                    assert(queue.deep_view()[i as int].wf());
                }
                let cnt_end = Self::change_end(&queue[i]);
                if cnt_end <= self.vv.get(queue[i].id.peer) {
                    proof {
                        if np {
                            assert(!covered(q0[i as int], pre.vv));
                            assert(false);
                        }
                    }
                    let ghost qpre = queue.deep_view();
                    let _ = queue.remove(i);
                    progressed = true;
                    proof {
                        assert(queue.deep_view() =~= qpre.remove(i as int));
                        lemma_queue_remove_facts(qpre, i as int, batch.deep_view(), q0);
                        assert forall|k: int|
                            0 <= k < bn implies batch_settled(
                            #[trigger] batch.deep_view()[k],
                            self.vv,
                            queue.deep_view(),
                        ) by {
                            lemma_settled_remove(batch.deep_view()[k], self.vv, self.vv, qpre,
                                i as int);
                        }
                    }
                } else {
                    let cc = queue[i].dup();
                    let ghost qpre = queue.deep_view();
                    let ghost prevv = self.vv;
                    let ghost log_mid = self.log.deep_view();
                    let was_ready = self.admit_change(cc);
                    if was_ready {
                        proof {
                            if np {
                                assert(!pre.ready_change(q0[i as int]));
                                assert(false);
                            }
                        }
                        let _ = queue.remove(i);
                        admitted_new = true;
                        progressed = true;
                        proof {
                            assert(queue.deep_view() =~= qpre.remove(i as int));
                            lemma_queue_remove_facts(qpre, i as int, batch.deep_view(), q0);
                            assert(covered(qpre[i as int], self.vv));
                            assert forall|k: int|
                                0 <= k < bn implies batch_settled(
                                #[trigger] batch.deep_view()[k],
                                self.vv,
                                queue.deep_view(),
                            ) by {
                                lemma_settled_remove(batch.deep_view()[k], prevv, self.vv, qpre,
                                    i as int);
                            }
                            assert(cc.deep_view() == qpre[i as int]);
                            assert(from_sources(cc.deep_view(), batch.deep_view(), q0));
                            lemma_log_tie_step(
                                pre.log.deep_view(),
                                log_mid,
                                self.log.deep_view(),
                                cc.deep_view(),
                                batch.deep_view(),
                                q0,
                            );
                        }
                    } else {
                        i = i + 1;
                    }
                }
            }
            (queue, progressed, admitted_new)
    }

    /// The admission fixpoint: admits ready queue entries and drops covered
    /// ones until a full pass changes nothing.
    #[verifier::loop_isolation(false)]
    #[verifier::rlimit(100)]
    fn absorb(&mut self, batch: &Vec<Change>, q: Vec<Change>, Ghost(pre): Ghost<LoroDoc>) -> (r: (
        Vec<Change>,
        bool,
    ))
        requires
            old(self).core_wf(),
            !old(self).txn_active,
            old(self).log == pre.log,
            old(self).vv == pre.vv,
            old(self).state_vv == pre.state_vv,
            old(self).state_frontier == pre.state_frontier,
            old(self).states == pre.states,
            old(self).arena == pre.arena,
            old(self).staged == pre.staged,
            old(self).peer == pre.peer,
            old(self).detached == pre.detached,
            old(self).txn_active == pre.txn_active,
            old(self).txn_base_lamport == pre.txn_base_lamport,
            old(self).next_counter == pre.next_counter,
            old(self).next_lamport == pre.next_lamport,
            old(self).pending@.len() == 0,
            pre.core_wf(),
            forall|k: int|
                0 <= k < batch.deep_view().len() ==> (#[trigger] batch.deep_view()[k]).wf(),
            forall|j: int|
                0 <= j < q.deep_view().len() ==> (#[trigger] q.deep_view()[j]).wf(),
            forall|j: int|
                0 <= j < q.deep_view().len() ==> from_sources(
                    #[trigger] q.deep_view()[j],
                    batch.deep_view(),
                    pre.pending.deep_view(),
                ),
            forall|k: int|
                0 <= k < batch.deep_view().len() ==> batch_settled(
                    #[trigger] batch.deep_view()[k],
                    old(self).vv,
                    q.deep_view(),
                ),
            noop_premise(pre, batch.deep_view()) ==> q == pre.pending,
        ensures
            final(self).core_wf(),
            !final(self).txn_active,
            forall|j: int|
                0 <= j < r.0.deep_view().len() ==> (#[trigger] r.0.deep_view()[j]).wf(),
            forall|j: int|
                0 <= j < r.0.deep_view().len() ==> from_sources(
                    #[trigger] r.0.deep_view()[j],
                    batch.deep_view(),
                    pre.pending.deep_view(),
                ),
            forall|j: int|
                0 <= j < pre.log.deep_view().len() ==> final(self).log.deep_view().contains(
                    #[trigger] pre.log.deep_view()[j],
                ),
            forall|j: int|
                0 <= j < final(self).log.deep_view().len() ==> pre.log.deep_view().contains(
                    #[trigger] final(self).log.deep_view()[j],
                ) || from_sources(
                    final(self).log.deep_view()[j],
                    batch.deep_view(),
                    pre.pending.deep_view(),
                ),
            forall|k: int|
                0 <= k < batch.deep_view().len() ==> batch_settled(
                    #[trigger] batch.deep_view()[k],
                    final(self).vv,
                    r.0.deep_view(),
                ),
            forall|j: int|
                0 <= j < r.0.deep_view().len() ==> !covered(
                    #[trigger] r.0.deep_view()[j],
                    final(self).vv,
                ) && !final(self).ready_change(r.0.deep_view()[j]),
            forall|p: PeerID| #[trigger] final(self).vv.bound(p) >= pre.vv.bound(p),
            !r.1 ==> (final(self).vv == pre.vv && final(self).log == pre.log && final(self).next_lamport == pre.next_lamport && final(self).next_counter == pre.next_counter),
            noop_premise(pre, batch.deep_view()) ==> (r.0 == pre.pending && !r.1),
            final(self).staged == pre.staged,
            final(self).states == pre.states,
            final(self).arena == pre.arena,
            final(self).state_vv == pre.state_vv,
            final(self).state_frontier == pre.state_frontier,
            final(self).detached == pre.detached,
            final(self).peer == pre.peer,
            final(self).txn_active == pre.txn_active,
            final(self).txn_base_lamport == pre.txn_base_lamport,
            final(self).pending@.len() == 0,
    {
        let ghost np = noop_premise(pre, batch.deep_view());
        let ghost q0 = pre.pending.deep_view();
        let mut queue = q;
        let mut done = false;
        let mut admitted_any = false;
        while !done
            invariant
                self.core_wf(),
                !self.txn_active,
                pre.core_wf(),
                forall|k: int|
                    0 <= k < batch.deep_view().len() ==> (#[trigger] batch.deep_view()[k]).wf(),
                forall|j: int|
                    0 <= j < queue.deep_view().len() ==> (#[trigger] queue.deep_view()[j]).wf(),
                forall|j: int|
                    0 <= j < queue.deep_view().len() ==> from_sources(
                        #[trigger] queue.deep_view()[j],
                        batch.deep_view(),
                        q0,
                    ),
                forall|j: int|
                    0 <= j < pre.log.deep_view().len() ==> self.log.deep_view().contains(
                        #[trigger] pre.log.deep_view()[j],
                    ),
                forall|j: int|
                    0 <= j < self.log.deep_view().len() ==> pre.log.deep_view().contains(
                        #[trigger] self.log.deep_view()[j],
                    ) || from_sources(self.log.deep_view()[j], batch.deep_view(), q0),
                forall|k: int|
                    0 <= k < batch.deep_view().len() ==> batch_settled(
                        #[trigger] batch.deep_view()[k],
                        self.vv,
                        queue.deep_view(),
                    ),
                forall|p: PeerID| #[trigger] self.vv.bound(p) >= pre.vv.bound(p),
                !admitted_any ==> (self.vv == pre.vv && self.log == pre.log && self.next_lamport
                    == pre.next_lamport && self.next_counter == pre.next_counter),
                np ==> (queue == pre.pending && !admitted_any && self.vv == pre.vv),
                done ==> forall|j: int|
                    0 <= j < queue.deep_view().len() ==> !covered(
                        #[trigger] queue.deep_view()[j],
                        self.vv,
                    ) && !self.ready_change(queue.deep_view()[j]),
                self.staged == pre.staged,
                self.states == pre.states,
                self.arena == pre.arena,
                self.state_vv == pre.state_vv,
                self.state_frontier == pre.state_frontier,
                self.detached == pre.detached,
                self.peer == pre.peer,
                self.txn_active == pre.txn_active,
                self.txn_base_lamport == pre.txn_base_lamport,
                self.pending@.len() == 0,
            decreases queue@.len() + (if done { 0int } else { 1int }),
        {
            let ghost qlen = queue.deep_view().len();
            let res = self.absorb_pass(batch, queue, Ghost(pre), Ghost(admitted_any));
            queue = res.0;
            if res.2 {
                admitted_any = true;
            }
            if !res.1 {
                done = true;
            }
        }
        (queue, admitted_any)
    }

    /// The admission loops of [`LoroDoc::import`].
    #[verifier::loop_isolation(false)]
    #[verifier::rlimit(100)]
    #[verifier::spinoff_prover]
    fn import_core(&mut self, batch: &Vec<Change>)
        requires
            old(self).wf(),
            !old(self).txn_active,
            !old(self).detached,
            forall|k: int|
                0 <= k < batch.deep_view().len() ==> (#[trigger] batch.deep_view()[k]).wf(),
        ensures
            final(self).wf(),
            forall|p: PeerID| #[trigger] final(self).vv.bound(p) >= old(self).vv.bound(p),
            forall|k: int|
                0 <= k < batch.deep_view().len() ==> batch_settled(
                    #[trigger] batch.deep_view()[k],
                    final(self).vv,
                    final(self).pending.deep_view(),
                ),
            forall|j: int|
                0 <= j < final(self).pending.deep_view().len() ==> !covered(
                    #[trigger] final(self).pending.deep_view()[j],
                    final(self).vv,
                ) && !final(self).ready_change(final(self).pending.deep_view()[j]),
            forall|j: int|
                0 <= j < old(self).log.deep_view().len() ==> final(self).log.deep_view().contains(
                    #[trigger] old(self).log.deep_view()[j],
                ),
            forall|j: int|
                0 <= j < final(self).log.deep_view().len() ==> old(self).log.deep_view().contains(
                    #[trigger] final(self).log.deep_view()[j],
                ) || from_sources(
                    final(self).log.deep_view()[j],
                    batch.deep_view(),
                    old(self).pending.deep_view(),
                ),
            forall|j: int|
                0 <= j < final(self).pending.deep_view().len() ==> from_sources(
                    #[trigger] final(self).pending.deep_view()[j],
                    batch.deep_view(),
                    old(self).pending.deep_view(),
                ),
            noop_premise(*old(self), batch.deep_view()) ==> *final(self) == *old(self),
            final(self).peer == old(self).peer,
            final(self).txn_active == old(self).txn_active,
            final(self).detached == old(self).detached,
    {
        let bn = batch.len();
        let ghost pre = *self;
        let ghost np = noop_premise(pre, batch.deep_view());
        let queue = self.gather_queue(batch);
        let mut queue = queue;
        let ghost q0 = pre.pending.deep_view();
        let res = self.absorb(batch, queue, Ghost(pre));
        let queue = res.0;
        let admitted_any = res.1;
        self.finish_import(batch, queue, admitted_any, Ghost(pre));
    }

    /// Stores the leftover queue as the pending buffer and, when anything
    /// was admitted, advances the materialized state to everything known.
    #[verifier::loop_isolation(false)]
    #[verifier::rlimit(100)]
    #[verifier::spinoff_prover]
    fn finish_import(
        &mut self,
        batch: &Vec<Change>,
        queue: Vec<Change>,
        admitted_any: bool,
        Ghost(pre): Ghost<LoroDoc>,
    )
        requires
            old(self).core_wf(),
            !old(self).txn_active,
            pre.wf(),
            !pre.txn_active,
            !pre.detached,
            old(self).staged == pre.staged,
            old(self).states == pre.states,
            old(self).arena == pre.arena,
            old(self).state_vv == pre.state_vv,
            old(self).state_frontier == pre.state_frontier,
            old(self).detached == pre.detached,
            old(self).peer == pre.peer,
            old(self).txn_active == pre.txn_active,
            old(self).txn_base_lamport == pre.txn_base_lamport,
            old(self).pending@.len() == 0,
            forall|p: PeerID| #[trigger] old(self).vv.bound(p) >= pre.vv.bound(p),
            !admitted_any ==> (old(self).vv == pre.vv && old(self).log == pre.log && old(
                self,
            ).next_lamport == pre.next_lamport && old(self).next_counter == pre.next_counter),
            forall|j: int|
                0 <= j < queue.deep_view().len() ==> (#[trigger] queue.deep_view()[j]).wf(),
            forall|k: int|
                0 <= k < batch.deep_view().len() ==> batch_settled(
                    #[trigger] batch.deep_view()[k],
                    old(self).vv,
                    queue.deep_view(),
                ),
            forall|j: int|
                0 <= j < queue.deep_view().len() ==> !covered(
                    #[trigger] queue.deep_view()[j],
                    old(self).vv,
                ) && !old(self).ready_change(queue.deep_view()[j]),
            forall|j: int|
                0 <= j < queue.deep_view().len() ==> from_sources(
                    #[trigger] queue.deep_view()[j],
                    batch.deep_view(),
                    pre.pending.deep_view(),
                ),
            noop_premise(pre, batch.deep_view()) ==> (queue == pre.pending && !admitted_any),
        ensures
            final(self).log == old(self).log,
            forall|j: int|
                0 <= j < final(self).pending.deep_view().len() ==> from_sources(
                    #[trigger] final(self).pending.deep_view()[j],
                    batch.deep_view(),
                    pre.pending.deep_view(),
                ),
            final(self).wf(),
            forall|p: PeerID| #[trigger] final(self).vv.bound(p) >= pre.vv.bound(p),
            forall|k: int|
                0 <= k < batch.deep_view().len() ==> batch_settled(
                    #[trigger] batch.deep_view()[k],
                    final(self).vv,
                    final(self).pending.deep_view(),
                ),
            forall|j: int|
                0 <= j < final(self).pending.deep_view().len() ==> !covered(
                    #[trigger] final(self).pending.deep_view()[j],
                    final(self).vv,
                ) && !final(self).ready_change(final(self).pending.deep_view()[j]),
            noop_premise(pre, batch.deep_view()) ==> *final(self) == pre,
            final(self).peer == pre.peer,
            final(self).txn_active == pre.txn_active,
            final(self).detached == pre.detached,
    {
        let ghost np = noop_premise(pre, batch.deep_view());
        let bn = batch.len();
        self.pending = queue;
        proof {
            assert(self.pending.deep_view() =~= queue.deep_view());
            assert forall|i2: int|
                0 <= i2 < self.pending@.len() implies (#[trigger] self.pending@[
            i2]).deep_view().wf() by {
                assert(self.pending.deep_view()[i2] == self.pending@[i2].deep_view());
            }
        }
        if admitted_any {
            let vvd = self.vv.dup();
            self.state_vv = vvd;
            let cands = self.vv_candidates();
            self.state_frontier = cands;
            proof {
                lemma_changes_ops_all_wf(self.log.deep_view());
                assert(self.ops() =~= changes_ops(self.log.deep_view()));
            }
            self.rebuild();
            proof {
                lemma_import_frontier(*self);
            }
        } else {
            proof {
                if np {
                    assert(self.pending == pre.pending);
                    assert(*self == pre);
                }
                assert forall|i2: int|
                    0 <= i2 < self.states@.len() implies (#[trigger] self.states@[i2]).model()
                    == self.cont_model(self.arena.cid_views()[i2]) by {
                    assert(pre.states@[i2].model() == pre.cont_model(pre.arena.cid_views()[i2]));
                }
                assert forall|p: PeerID|
                    get0(spec_frontier_vv(self.log.deep_view(), self.state_frontier@), p)
                    == #[trigger] self.state_vv.bound(p) by {
                    assert(get0(spec_frontier_vv(pre.log.deep_view(), pre.state_frontier@), p)
                        == pre.state_vv.bound(p));
                }
            }
        }
    }


    /// The per-peer maximal identifiers    /// The per-peer maximal identifiers of the current version: one frontier
    /// entry per known peer.
    #[verifier::loop_isolation(false)]
    fn vv_candidates(&self) -> (r: Frontiers)
        requires
            self.vv.wf(),
        ensures
            forall|k: int|
                0 <= k < r@.len() ==> 0 <= (#[trigger] r@[k]).counter && ((r@[k].counter
                    as int) < self.vv.bound(r@[k].peer)),
            forall|p: PeerID| #[trigger] fmax(r@, p) == self.vv.bound(p),
    {
        let n = self.vv.entries.len();
        let mut ids: Vec<ID> = Vec::new();
        let mut i: usize = 0;
        while i < n
            invariant
                0 <= i <= n,
                n == self.vv@.len(),
                ids@.len() == i,
                forall|k: int|
                    0 <= k < i ==> #[trigger] ids@[k] == (ID {
                        peer: self.vv@[k].0,
                        counter: (self.vv@[k].1 - 1) as Counter,
                    }),
            decreases n - i,
        {
            let (p, c) = self.vv.entries[i];
            proof {
                assert(self.vv@[i as int].1 > 0);
            }
            ids.push(ID { peer: p, counter: c - 1 });
            i = i + 1;
        }
        proof {
            assert forall|p: PeerID| #[trigger] fmax(ids@, p) == self.vv.bound(p) by {
                lemma_candidates_fmax(self.vv@, ids@, p);
            }
            assert forall|k: int|
                0 <= k < ids@.len() implies 0 <= (#[trigger] ids@[k]).counter && ((
            ids@[k].counter as int) < self.vv.bound(ids@[k].peer)) by {
                crate::version::lemma_seq_bound_found(self.vv@, self.vv@[k].0, k);
                assert forall|j: int| 0 <= j < k implies (#[trigger] self.vv@[j]).0
                    != self.vv@[k].0 by {
                    assert(self.vv@[j].0 < self.vv@[k].0);
                }
            }
        }
        Frontiers { ids }
    }

    /// The version a frontier denotes: the identifiers' own spans plus
    /// their causal past, by one descending dependency walk over the log.
    /// `None` exactly when some identifier is not yet known.
    #[verifier::loop_isolation(false)]
    #[verifier::rlimit(100)]
    #[verifier::spinoff_prover]
    fn frontier_to_vv(&self, f: &Frontiers) -> (r: Option<VersionVector>)
        requires
            self.wf(),
        ensures
            r is Some <==> (forall|k: int|
                0 <= k < f@.len() ==> 0 <= (#[trigger] f@[k]).counter && ((f@[k].counter
                    as int) < self.vv.bound(f@[k].peer))),
            r is Some ==> r->0.wf(),
            r is Some ==> forall|p: PeerID|
                #[trigger] r->0.bound(p) == get0(
                    spec_frontier_vv(self.log.deep_view(), f@),
                    p,
                ),
            r is Some ==> forall|p: PeerID| #[trigger] r->0.bound(p) <= self.vv.bound(p),
    {
        let ghost cs = self.log.deep_view();
        let fn_ = f.ids.len();
        let mut k: usize = 0;
        while k < fn_
            invariant
                0 <= k <= fn_,
                fn_ == f@.len(),
                forall|j: int|
                    0 <= j < k ==> 0 <= (#[trigger] f@[j]).counter && ((f@[j].counter as int)
                        < self.vv.bound(f@[j].peer)),
            decreases fn_ - k,
        {
            if f.ids[k].counter < 0 || !self.vv.includes_id(f.ids[k]) {
                return None;
            }
            k = k + 1;
        }
        let mut w = VersionVector::new();
        let ghost w0 = frontier_want(f@);
        proof {
            assert(f@.take(0) =~= Seq::<ID>::empty());
        }
        let mut k: usize = 0;
        while k < fn_
            invariant
                0 <= k <= fn_,
                fn_ == f@.len(),
                forall|j: int|
                    0 <= j < fn_ ==> 0 <= (#[trigger] f@[j]).counter && ((f@[j].counter as int)
                        < self.vv.bound(f@[j].peer)),
                w.wf(),
                forall|p: PeerID|
                    #[trigger] w.bound(p) == get0(bump_all(Map::empty(), f@.take(k as int)), p),
            decreases fn_ - k,
        {
            let id = f.ids[k];
            proof {
                crate::version::lemma_seq_bound_nonneg(self.vv@, id.peer);
                assert(f@.take(k + 1).drop_last() =~= f@.take(k as int));
                assert(f@.take(k + 1).last() == f@[k as int]);
            }
            w.raise(id.peer, id.counter + 1);
            proof {
                assert forall|p: PeerID|
                    #[trigger] w.bound(p) == get0(
                    bump_all(Map::empty(), f@.take(k + 1)),
                    p,
                ) by {
                    assert(bump_all(Map::empty(), f@.take(k + 1)) == bump(
                        bump_all(Map::empty(), f@.take(k as int)),
                        f@[k as int],
                    ));
                }
            }
            k = k + 1;
        }
        proof {
            assert(f@.take(fn_ as int) =~= f@);
            assert forall|p: PeerID| #[trigger] w.bound(p) == get0(w0, p) by {
                assert(w.bound(p) == get0(bump_all(Map::empty(), f@.take(fn_ as int)), p));
            }
            assert forall|p: PeerID| #[trigger] get0(w0, p) >= 0 by {
                crate::version::lemma_seq_bound_nonneg(w@, p);
                assert(w.bound(p) == get0(w0, p));
            }
        }
        let ghost wm = w0;
        let mut ci = self.log.len();
        proof {
            assert(walk(cs, cs.len() as int, w0) == walk(cs, ci as int, wm));
        }
        while ci > 0
            invariant
                0 <= ci <= self.log@.len(),
                cs == self.log.deep_view(),
                w.wf(),
                forall|p: PeerID| #[trigger] w.bound(p) == get0(wm, p),
                walk(cs, cs.len() as int, w0) == walk(cs, ci as int, wm),
            decreases ci,
        {
            ci = ci - 1;
            let ghost wm_pre = wm;
            proof {
                assert(cs[ci as int] == self.log@[ci as int].deep_view());
                assert(cs[ci as int].wf());
            }
            let wanted = w.get(self.log[ci].id.peer) > self.log[ci].id.counter;
            if wanted {
                let dn = self.log[ci].deps.len();
                let ghost deps = cs[ci as int].deps;
                let mut dk: usize = 0;
                while dk < dn
                    invariant
                        0 <= dk <= dn,
                        dn == deps.len(),
                        deps == cs[ci as int].deps,
                        0 <= ci < self.log@.len(),
                        cs == self.log.deep_view(),
                        cs[ci as int] == self.log@[ci as int].deep_view(),
                        w.wf(),
                        forall|p: PeerID|
                            #[trigger] w.bound(p) == get0(
                                bump_all(wm_pre, deps.take(dk as int)),
                                p,
                            ),
                    decreases dn - dk,
                {
                    let d = self.log[ci].deps[dk];
                    proof {
                        assert(deps[dk as int] == d);
                        assert(0 <= d.counter);
                        assert((d.counter as int) < self.vv.bound(d.peer));
                        crate::version::lemma_seq_bound_nonneg(self.vv@, d.peer);
                        assert(deps.take(dk + 1).drop_last() =~= deps.take(dk as int));
                        assert(deps.take(dk + 1).last() == deps[dk as int]);
                    }
                    w.raise(d.peer, d.counter + 1);
                    proof {
                        assert forall|p: PeerID|
                            #[trigger] w.bound(p) == get0(
                            bump_all(wm_pre, deps.take(dk + 1)),
                            p,
                        ) by {
                            assert(bump_all(wm_pre, deps.take(dk + 1)) == bump(
                                bump_all(wm_pre, deps.take(dk as int)),
                                deps[dk as int],
                            ));
                        }
                    }
                    dk = dk + 1;
                }
                proof {
                    assert(deps.take(dn as int) =~= deps);
                    wm = bump_all(wm_pre, deps);
                    assert(get0(wm_pre, cs[ci as int].id.peer) > cs[ci as int].id.counter);
                    assert(wm == walk_step(wm_pre, cs[ci as int]));
                }
            } else {
                proof {
                    assert(get0(wm_pre, cs[ci as int].id.peer) <= cs[ci as int].id.counter);
                    assert(wm == walk_step(wm_pre, cs[ci as int]));
                }
            }
            proof {
                assert(walk(cs, ci + 1, wm_pre) == walk(cs, ci as int, wm));
            }
        }
        proof {
            assert(walk(cs, 0, wm) == wm);
            assert forall|p: PeerID| #[trigger] w.bound(p) <= self.vv.bound(p) by {
                lemma_walk_bounded(cs, cs.len() as int, w0, self.vv);
                assert(get0(wm, p) == get0(walk(cs, cs.len() as int, w0), p));
                assert(get0(walk(cs, cs.len() as int, w0), p) <= max_int(
                    get0(w0, p),
                    self.vv.bound(p),
                ));
                assert forall|q: PeerID| #[trigger] get0(Map::<PeerID, int>::empty(), q)
                    >= 0 by {}
                lemma_bump_all_q(Map::empty(), f@, p);
                lemma_fmax_bounded(f@, self.vv, p);
                crate::version::lemma_seq_bound_nonneg(self.vv@, p);
            }
            assert forall|p: PeerID|
                #[trigger] w.bound(p) == get0(spec_frontier_vv(cs, f@), p) by {
                assert(get0(wm, p) == get0(walk(cs, cs.len() as int, w0), p));
            }
        }
        Some(w)
    }

    /// Moves the materialized state to the value it has at an arbitrary
    /// known frontier. The log is untouched; only the materialized
    /// projection, the state version and the state frontier move. A
    /// frontier naming an unknown identifier is rejected; so is a checkout
    /// while a transaction is open.
    #[verifier::loop_isolation(false)]
    #[verifier::rlimit(100)]
    #[verifier::spinoff_prover]
    pub fn checkout(&mut self, f: &Frontiers) -> (r: Result<(), LoroError>)
        requires
            old(self).wf(),
        ensures
            final(self).wf(),
            r is Err ==> *final(self) == *old(self) && (r->Err_0 == LoroError::TransactionActive
                || r->Err_0 == LoroError::FrontierNotFound),
            old(self).txn_active ==> r == Err::<(), LoroError>(LoroError::TransactionActive),
            r is Ok <==> !old(self).txn_active && (forall|k: int|
                0 <= k < f@.len() ==> 0 <= (#[trigger] f@[k]).counter && ((f@[k].counter as int)
                    < old(self).vv.bound(f@[k].peer))),
            r is Ok ==> final(self).log == old(self).log && final(self).vv == old(self).vv
                && final(self).pending == old(self).pending && final(self).state_frontier@ == f@
                && final(self).peer == old(self).peer && !final(self).txn_active,
            r is Ok ==> forall|p: PeerID|
                #[trigger] final(self).state_vv.bound(p) == get0(
                    spec_frontier_vv(old(self).log.deep_view(), f@),
                    p,
                ),
            r is Ok ==> (final(self).detached <==> !(forall|p: PeerID|
                #[trigger] final(self).state_vv.bound(p) == old(self).vv.bound(p))),
    {
        if self.txn_active {
            return Err(LoroError::TransactionActive);
        }
        let w = match self.frontier_to_vv(f) {
            None => {
                return Err(LoroError::FrontierNotFound);
            },
            Some(w) => w,
        };
        let same = w.same_bounds(&self.vv);
        self.state_vv = w;
        self.state_frontier = f.dup();
        self.detached = !same;
        proof {
            assert(self.staged.deep_view() =~= Seq::<OpView>::empty());
            assert(self.ops() =~= changes_ops(self.log.deep_view()));
            lemma_changes_ops_all_wf(self.log.deep_view());
        }
        self.rebuild();
        Ok(())
    }

    /// The version vector of everything this document knows.    /// The version vector of everything this document knows.
    pub fn oplog_vv(&self) -> (r: VersionVector)
        ensures
            r@ == self.vv@,
    {
        self.vv.dup()
    }

    /// The frontier the materialized state currently shows.
    pub fn frontier(&self) -> (r: Frontiers)
        ensures
            r@ == self.state_frontier@,
    {
        self.state_frontier.dup()
    }
}

} // verus!
