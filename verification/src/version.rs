//! Version vectors and frontiers.
//!
//! A version vector maps each peer to the next-expected counter: the
//! exclusive upper bound of that peer's known operations. Absent peers have
//! bound zero. A frontier is a set of identifiers that summarizes a position
//! in causal history.

use vstd::prelude::*;

use crate::id::Counter;
use crate::id::ID;
use crate::id::PeerID;

verus! {

/// The bound of `p` in an entry sequence: the counter paired with the first
/// entry for `p`, or zero when there is none.
pub open spec fn seq_bound(s: Seq<(PeerID, Counter)>, p: PeerID) -> int
    decreases s.len(),
{
    if s.len() == 0 {
        0
    } else if s[0].0 == p {
        s[0].1 as int
    } else {
        seq_bound(s.skip(1), p)
    }
}

/// Entries sorted strictly by peer, every bound positive: the canonical shape
/// of a version vector.
pub open spec fn entries_wf(s: Seq<(PeerID, Counter)>) -> bool {
    (forall|i: int, j: int| 0 <= i < j < s.len() ==> (#[trigger] s[i]).0 < (#[trigger] s[j]).0)
        && (forall|i: int| 0 <= i < s.len() ==> (#[trigger] s[i]).1 > 0)
}

pub proof fn lemma_seq_bound_absent(s: Seq<(PeerID, Counter)>, p: PeerID)
    requires
        forall|i: int| 0 <= i < s.len() ==> (#[trigger] s[i]).0 != p,
    ensures
        seq_bound(s, p) == 0,
    decreases s.len(),
{
    if s.len() > 0 {
        assert(forall|i: int| 0 <= i < s.skip(1).len() ==> s.skip(1)[i] == s[i + 1]);
        lemma_seq_bound_absent(s.skip(1), p);
    }
}

pub proof fn lemma_seq_bound_found(s: Seq<(PeerID, Counter)>, p: PeerID, i: int)
    requires
        0 <= i < s.len(),
        s[i].0 == p,
        forall|j: int| 0 <= j < i ==> (#[trigger] s[j]).0 != p,
    ensures
        seq_bound(s, p) == s[i].1,
    decreases i,
{
    if i > 0 {
        assert(forall|j: int| 0 <= j < s.skip(1).len() ==> s.skip(1)[j] == s[j + 1]);
        lemma_seq_bound_found(s.skip(1), p, i - 1);
    }
}

/// Every bound of a well-formed entry sequence is non-negative.
pub proof fn lemma_seq_bound_nonneg(s: Seq<(PeerID, Counter)>, p: PeerID)
    requires
        entries_wf(s),
    ensures
        seq_bound(s, p) >= 0,
        seq_bound(s, p) <= Counter::MAX,
    decreases s.len(),
{
    if s.len() > 0 {
        assert(forall|i: int| 0 <= i < s.skip(1).len() ==> s.skip(1)[i] == s[i + 1]);
        if s[0].0 != p {
            lemma_seq_bound_nonneg(s.skip(1), p);
        }
    }
}

/// A per-peer exclusive upper bound of known operations.
#[derive(Debug)]
pub struct VersionVector {
    pub entries: Vec<(PeerID, Counter)>,
}

impl View for VersionVector {
    type V = Seq<(PeerID, Counter)>;

    open spec fn view(&self) -> Seq<(PeerID, Counter)> {
        self.entries@
    }
}

impl VersionVector {
    pub open spec fn wf(self) -> bool {
        entries_wf(self@)
    }

    /// The next-expected counter for `p`; zero for unknown peers.
    pub open spec fn bound(self, p: PeerID) -> int {
        seq_bound(self@, p)
    }

    /// Whether the identifier's counter lies below its peer's bound.
    pub open spec fn spec_includes(self, id: ID) -> bool {
        (id.counter as int) < self.bound(id.peer)
    }

    /// Pointwise order: `self` at or above `other` on every peer.
    pub open spec fn spec_geq(self, other: VersionVector) -> bool {
        forall|p: PeerID| self.bound(p) >= #[trigger] other.bound(p)
    }

    pub fn new() -> (r: Self)
        ensures
            r.wf(),
            forall|p: PeerID| #[trigger] r.bound(p) == 0,
    {
        let r = VersionVector { entries: Vec::new() };
        proof {
            assert forall|p: PeerID| #[trigger] r.bound(p) == 0 by {
                lemma_seq_bound_absent(r@, p);
            }
        }
        r
    }

    /// A structural copy with the same bounds.
    pub fn dup(&self) -> (r: Self)
        ensures
            r@ == self@,
    {
        let n = self.entries.len();
        let mut out: Vec<(PeerID, Counter)> = Vec::new();
        let mut i: usize = 0;
        while i < n
            invariant
                n == self.entries@.len(),
                0 <= i <= n,
                out@ =~= self.entries@.take(i as int),
            decreases n - i,
        {
            out.push(self.entries[i]);
            proof {
                assert(out@ =~= self.entries@.take(i + 1));
            }
            i = i + 1;
        }
        proof {
            assert(self.entries@.take(n as int) =~= self.entries@);
        }
        VersionVector { entries: out }
    }

    /// The first index whose peer is `>= p`, under sortedness.
    fn lower_bound(&self, p: PeerID) -> (r: usize)
        requires
            self.wf(),
        ensures
            0 <= r <= self@.len(),
            forall|j: int| 0 <= j < r ==> (#[trigger] self@[j]).0 < p,
            forall|j: int| r <= j < self@.len() ==> (#[trigger] self@[j]).0 >= p,
    {
        let n = self.entries.len();
        let mut i: usize = 0;
        while i < n
            invariant
                self.wf(),
                n == self@.len(),
                0 <= i <= n,
                forall|j: int| 0 <= j < i ==> (#[trigger] self@[j]).0 < p,
            decreases n - i,
        {
            if self.entries[i].0 >= p {
                proof {
                    assert forall|j: int| i <= j < self@.len() implies (#[trigger] self@[j]).0
                        >= p by {
                        if j > i {
                            assert(self@[i as int].0 < self@[j].0);
                        }
                    }
                }
                return i;
            }
            i = i + 1;
        }
        i
    }

    /// The next-expected counter for `p`; zero for unknown peers.
    pub fn get(&self, p: PeerID) -> (r: Counter)
        requires
            self.wf(),
        ensures
            r == self.bound(p),
    {
        let i = self.lower_bound(p);
        if i < self.entries.len() && self.entries[i].0 == p {
            proof {
                lemma_seq_bound_found(self@, p, i as int);
            }
            self.entries[i].1
        } else {
            proof {
                assert forall|j: int| 0 <= j < self@.len() implies (#[trigger] self@[j]).0
                    != p by {}
                lemma_seq_bound_absent(self@, p);
            }
            0
        }
    }

    /// Raises the bound of `p` to `c` if it is below; all other peers keep
    /// their bounds.
    pub fn raise(&mut self, p: PeerID, c: Counter)
        requires
            old(self).wf(),
            c > 0,
        ensures
            final(self).wf(),
            final(self).bound(p) == if old(self).bound(p) >= c {
                old(self).bound(p)
            } else {
                c as int
            },
            forall|q: PeerID| q != p ==> #[trigger] final(self).bound(q) == old(self).bound(q),
    {
        let ghost pre = self@;
        let i = self.lower_bound(p);
        if i < self.entries.len() && self.entries[i].0 == p {
            proof {
                lemma_seq_bound_found(pre, p, i as int);
            }
            if self.entries[i].1 < c {
                let ghost prev = self.entries@;
                self.entries[i] = (p, c);
                proof {
                    lemma_seq_bound_found(self@, p, i as int);
                    assert forall|q: PeerID| q != p implies #[trigger] seq_bound(self@, q)
                        == seq_bound(pre, q) by {
                        lemma_bound_update_other(prev, self@, i as int, q);
                    }
                }
            }
        } else {
            proof {
                assert forall|j: int| 0 <= j < pre.len() implies (#[trigger] pre[j]).0 != p by {}
                lemma_seq_bound_absent(pre, p);
            }
            let ghost prev = self.entries@;
            self.entries.insert(i, (p, c));
            proof {
                assert(forall|j: int|
                    0 <= j < i ==> (#[trigger] self@[j]) == prev[j]);
                assert(self@[i as int] == (p, c));
                assert(forall|j: int|
                    i < j < self@.len() ==> (#[trigger] self@[j]) == prev[j - 1]);
                lemma_seq_bound_found(self@, p, i as int);
                assert forall|q: PeerID| q != p implies #[trigger] seq_bound(self@, q)
                    == seq_bound(prev, q) by {
                    lemma_bound_insert_other(prev, self@, i as int, q);
                }
            }
        }
    }

    /// Whether the identifier is already covered: `id.counter` below the
    /// peer's bound.
    pub fn includes_id(&self, id: ID) -> (r: bool)
        requires
            self.wf(),
        ensures
            r == self.spec_includes(id),
    {
        id.counter < self.get(id.peer)
    }

    /// Pointwise dominance test.
    pub fn geq(&self, other: &VersionVector) -> (r: bool)
        requires
            self.wf(),
            other.wf(),
        ensures
            r == self.spec_geq(*other),
    {
        let n = other.entries.len();
        let mut i: usize = 0;
        while i < n
            invariant
                self.wf(),
                other.wf(),
                n == other@.len(),
                0 <= i <= n,
                forall|j: int|
                    0 <= j < i ==> self.bound((#[trigger] other@[j]).0) >= other@[j].1,
            decreases n - i,
        {
            let (p, c) = other.entries[i];
            if self.get(p) < c {
                proof {
                    assert forall|j: int| 0 <= j < i implies (#[trigger] other@[j]).0 != p by {
                        assert(other@[j].0 < other@[i as int].0);
                    }
                    lemma_seq_bound_found(other@, p, i as int);
                    assert(self.bound(p) < other.bound(p));
                    assert(!self.spec_geq(*other));
                }
                return false;
            }
            i = i + 1;
        }
        proof {
            assert forall|p: PeerID| self.bound(p) >= #[trigger] other.bound(p) by {
                lemma_bound_cases(other@, p);
                if exists|j: int| 0 <= j < other@.len() && (#[trigger] other@[j]).0 == p {
                    let j = choose|j: int|
                        0 <= j < other@.len() && (#[trigger] other@[j]).0 == p;
                    assert(self.bound(other@[j].0) >= other@[j].1);
                } else {
                    lemma_seq_bound_absent(other@, p);
                    lemma_seq_bound_nonneg(self@, p);
                }
            }
        }
        true
    }

    /// Raises every bound to at least the corresponding bound of `other`.
    pub fn merge(&mut self, other: &VersionVector)
        requires
            old(self).wf(),
            other.wf(),
        ensures
            final(self).wf(),
            forall|p: PeerID|
                #[trigger] final(self).bound(p) == if old(self).bound(p) >= other.bound(p) {
                    old(self).bound(p)
                } else {
                    other.bound(p)
                },
    {
        let ghost pre = *self;
        proof {
            assert forall|p: PeerID|
                #[trigger] self.bound(p) == (if pre.bound(p) >= seq_bound(other@.take(0), p) {
                    pre.bound(p)
                } else {
                    seq_bound(other@.take(0), p)
                }) by {
                lemma_seq_bound_absent(other@.take(0), p);
                lemma_seq_bound_nonneg(pre@, p);
            }
        }
        let n = other.entries.len();
        let mut i: usize = 0;
        while i < n
            invariant
                self.wf(),
                other.wf(),
                pre.wf(),
                n == other@.len(),
                0 <= i <= n,
                forall|p: PeerID|
                    #[trigger] self.bound(p) == if pre.bound(p) >= seq_bound(
                        other@.take(i as int),
                        p,
                    ) {
                        pre.bound(p)
                    } else {
                        seq_bound(other@.take(i as int), p)
                    },
            decreases n - i,
        {
            let (p, c) = other.entries[i];
            proof {
                lemma_seq_bound_nonneg(pre@, p);
                assert forall|j: int|
                    0 <= j < i implies (#[trigger] other@.take(i as int)[j]).0 != p by {
                    assert(other@[j].0 < other@[i as int].0);
                }
                lemma_seq_bound_absent(other@.take(i as int), p);
            }
            self.raise(p, c);
            proof {
                assert forall|q: PeerID|
                    #[trigger] self.bound(q) == (if pre.bound(q) >= seq_bound(
                        other@.take(i + 1),
                        q,
                    ) {
                        pre.bound(q)
                    } else {
                        seq_bound(other@.take(i + 1), q)
                    }) by {
                    lemma_bound_take_step(other@, i as int, q);
                }
            }
            i = i + 1;
        }
        proof {
            assert(other@.take(n as int) =~= other@);
        }
    }

    /// Bound-wise equality.
    pub fn same_bounds(&self, other: &VersionVector) -> (r: bool)
        requires
            self.wf(),
            other.wf(),
        ensures
            r == (forall|p: PeerID| self.bound(p) == #[trigger] other.bound(p)),
    {
        let a = self.geq(other);
        let b = other.geq(self);
        proof {
            if a && b {
                assert forall|p: PeerID| self.bound(p) == #[trigger] other.bound(p) by {
                    assert(self.bound(p) >= other.bound(p));
                    assert(other.bound(p) >= self.bound(p));
                }
            }
        }
        a && b
    }

    /// The entries as pairs, for external observation.
    pub fn to_pairs(&self) -> (r: Vec<(PeerID, Counter)>)
        ensures
            r@ == self@,
    {
        let copy = self.dup();
        let VersionVector { entries } = copy;
        entries
    }
}

/// In a well-formed sequence, any peer occurs at most once; a match at `i`
/// determines the bound.
pub proof fn lemma_bound_cases(s: Seq<(PeerID, Counter)>, p: PeerID)
    requires
        entries_wf(s),
    ensures
        (exists|j: int| 0 <= j < s.len() && (#[trigger] s[j]).0 == p) ==> seq_bound(s, p)
            == s[choose|j: int| 0 <= j < s.len() && (#[trigger] s[j]).0 == p].1,
        !(exists|j: int| 0 <= j < s.len() && (#[trigger] s[j]).0 == p) ==> seq_bound(s, p) == 0,
{
    if exists|j: int| 0 <= j < s.len() && (#[trigger] s[j]).0 == p {
        let j = choose|j: int| 0 <= j < s.len() && (#[trigger] s[j]).0 == p;
        assert forall|k: int| 0 <= k < j implies (#[trigger] s[k]).0 != p by {
            assert(s[k].0 < s[j].0);
        }
        lemma_seq_bound_found(s, p, j);
    } else {
        lemma_seq_bound_absent(s, p);
    }
}

/// Updating entry `i` does not change the bound of other peers.
proof fn lemma_bound_update_other(
    prev: Seq<(PeerID, Counter)>,
    cur: Seq<(PeerID, Counter)>,
    i: int,
    q: PeerID,
)
    requires
        prev.len() == cur.len(),
        0 <= i < prev.len(),
        forall|j: int| 0 <= j < prev.len() && j != i ==> #[trigger] cur[j] == prev[j],
        cur[i].0 == prev[i].0,
        prev[i].0 != q,
    ensures
        seq_bound(cur, q) == seq_bound(prev, q),
    decreases prev.len(),
{
    if prev.len() > 0 {
        assert(forall|j: int|
            0 <= j < prev.skip(1).len() ==> prev.skip(1)[j] == prev[j + 1]);
        assert(forall|j: int| 0 <= j < cur.skip(1).len() ==> cur.skip(1)[j] == cur[j + 1]);
        if i == 0 {
            assert(cur.skip(1) =~= prev.skip(1));
        } else {
            assert(cur[0] == prev[0]);
            lemma_bound_update_other(prev.skip(1), cur.skip(1), i - 1, q);
        }
    }
}

/// Inserting an entry for a different peer does not change the bound of `q`.
proof fn lemma_bound_insert_other(
    prev: Seq<(PeerID, Counter)>,
    cur: Seq<(PeerID, Counter)>,
    i: int,
    q: PeerID,
)
    requires
        cur.len() == prev.len() + 1,
        0 <= i < cur.len(),
        forall|j: int| 0 <= j < i ==> #[trigger] cur[j] == prev[j],
        forall|j: int| i < j < cur.len() ==> #[trigger] cur[j] == prev[j - 1],
        cur[i].0 != q,
    ensures
        seq_bound(cur, q) == seq_bound(prev, q),
    decreases i,
{
    if i == 0 {
        assert(cur.skip(1) =~= prev);
    } else {
        assert(cur[0] == prev[0]);
        if prev[0].0 == q {
        } else {
            assert(forall|j: int|
                0 <= j < prev.skip(1).len() ==> prev.skip(1)[j] == prev[j + 1]);
            assert(forall|j: int|
                0 <= j < cur.skip(1).len() ==> cur.skip(1)[j] == cur[j + 1]);
            lemma_bound_insert_other(prev.skip(1), cur.skip(1), i - 1, q);
        }
    }
}

/// Extending a prefix by one entry moves the bound of exactly that peer.
proof fn lemma_bound_take_step(s: Seq<(PeerID, Counter)>, i: int, q: PeerID)
    requires
        entries_wf(s),
        0 <= i < s.len(),
    ensures
        q == s[i].0 ==> seq_bound(s.take(i + 1), q) == s[i].1,
        q != s[i].0 ==> seq_bound(s.take(i + 1), q) == seq_bound(s.take(i), q),
{
    let pre = s.take(i);
    let cur = s.take(i + 1);
    assert(forall|j: int| 0 <= j < i ==> #[trigger] cur[j] == s[j]);
    assert(cur[i] == s[i]);
    if q == s[i].0 {
        assert forall|j: int| 0 <= j < i implies (#[trigger] cur[j]).0 != q by {
            assert(s[j].0 < s[i].0);
        }
        lemma_seq_bound_found(cur, q, i);
    } else {
        lemma_bound_insert_other(pre, cur, i, q);
    }
}

/// A compact representation of a causal position: a set of identifiers.
#[derive(Debug)]
pub struct Frontiers {
    pub ids: Vec<ID>,
}

impl View for Frontiers {
    type V = Seq<ID>;

    open spec fn view(&self) -> Seq<ID> {
        self.ids@
    }
}

impl Frontiers {
    /// The empty frontier: the position before any operation.
    pub fn new() -> (r: Self)
        ensures
            r@ == Seq::<ID>::empty(),
    {
        Frontiers { ids: Vec::new() }
    }

    /// The frontier holding exactly one identifier.
    pub fn from_id(id: ID) -> (r: Self)
        ensures
            r@ == seq![id],
    {
        let mut ids: Vec<ID> = Vec::new();
        ids.push(id);
        proof {
            assert(ids@ =~= seq![id]);
        }
        Frontiers { ids }
    }

    pub fn dup(&self) -> (r: Self)
        ensures
            r@ == self@,
    {
        let n = self.ids.len();
        let mut out: Vec<ID> = Vec::new();
        let mut i: usize = 0;
        while i < n
            invariant
                n == self.ids@.len(),
                0 <= i <= n,
                out@ =~= self.ids@.take(i as int),
            decreases n - i,
        {
            out.push(self.ids[i]);
            proof {
                assert(out@ =~= self.ids@.take(i + 1));
            }
            i = i + 1;
        }
        proof {
            assert(self.ids@.take(n as int) =~= self.ids@);
        }
        Frontiers { ids: out }
    }
}

} // verus!
