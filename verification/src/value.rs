//! The materialized value model: a tagged union of scalars, lists,
//! string-keyed maps and unresolved container references.

use vstd::prelude::*;

use crate::container::CidView;
use crate::container::ContainerID;
use crate::container::ContainerType;
use crate::strutil::push_char;

verus! {

/// The state of a container (or a scalar inside one) at a given version.
///
/// `Container` is an unresolved reference: a scalar that points at a nested
/// container without resolving it eagerly. The map kind is named `Dict` here;
/// it is the string-keyed map whose entry order carries no meaning.
///
/// Copies are made with [`LoroValue::dup`], whose contract states that the
/// copy's view equals the original's.
pub enum LoroValue {
    Null,
    Bool(bool),
    I32(i32),
    Str(String),
    List(Vec<LoroValue>),
    Dict(Vec<(String, LoroValue)>),
    Container(ContainerID),
}

/// The mathematical shape of a value.
pub enum LvView {
    Null,
    Bool(bool),
    I32(i32),
    Str(Seq<char>),
    List(Seq<LvView>),
    Dict(Seq<(Seq<char>, LvView)>),
    Container(CidView),
}

/// The shape of a value, recursively.
pub open spec fn lv_view(v: LoroValue) -> LvView
    decreases v,
{
    match v {
        LoroValue::Null => LvView::Null,
        LoroValue::Bool(b) => LvView::Bool(b),
        LoroValue::I32(i) => LvView::I32(i),
        LoroValue::Str(s) => LvView::Str(s@),
        LoroValue::List(xs) => LvView::List(lv_seq_view(xs@)),
        LoroValue::Dict(es) => LvView::Dict(lv_entries_view(es@)),
        LoroValue::Container(c) => LvView::Container(c@),
    }
}

pub open spec fn lv_seq_view(s: Seq<LoroValue>) -> Seq<LvView>
    decreases s,
{
    if s.len() == 0 {
        Seq::empty()
    } else {
        lv_seq_view(s.drop_last()).push(lv_view(s.last()))
    }
}

pub open spec fn lv_entries_view(s: Seq<(String, LoroValue)>) -> Seq<(Seq<char>, LvView)>
    decreases s,
{
    if s.len() == 0 {
        Seq::empty()
    } else {
        lv_entries_view(s.drop_last()).push((s.last().0@, lv_view(s.last().1)))
    }
}

impl DeepView for LoroValue {
    type V = LvView;

    open spec fn deep_view(&self) -> LvView {
        lv_view(*self)
    }
}

/// Indexing facts for the sequence views.
pub proof fn lemma_lv_seq_view(s: Seq<LoroValue>)
    ensures
        lv_seq_view(s).len() == s.len(),
        forall|i: int| 0 <= i < s.len() ==> lv_seq_view(s)[i] == lv_view(#[trigger] s[i]),
    decreases s.len(),
{
    if s.len() > 0 {
        lemma_lv_seq_view(s.drop_last());
        assert forall|i: int| 0 <= i < s.len() implies lv_seq_view(s)[i] == lv_view(s[i]) by {
            if i < s.len() - 1 {
                assert(s.drop_last()[i] == s[i]);
                assert(lv_seq_view(s)[i] == lv_seq_view(s.drop_last())[i]);
            }
        }
    }
}

pub proof fn lemma_lv_entries_view(s: Seq<(String, LoroValue)>)
    ensures
        lv_entries_view(s).len() == s.len(),
        forall|i: int|
            0 <= i < s.len() ==> lv_entries_view(s)[i] == ((#[trigger] s[i]).0@, lv_view(
                s[i].1,
            )),
    decreases s.len(),
{
    if s.len() > 0 {
        lemma_lv_entries_view(s.drop_last());
        assert forall|i: int|
            0 <= i < s.len() implies lv_entries_view(s)[i] == (s[i].0@, lv_view(s[i].1)) by {
            if i < s.len() - 1 {
                assert(s.drop_last()[i] == s[i]);
                assert(lv_entries_view(s)[i] == lv_entries_view(s.drop_last())[i]);
            }
        }
    }
}

/// Sequences of values with pointwise equal views have equal views.
pub proof fn lemma_lv_seq_view_eq(a: Seq<LoroValue>, b: Seq<LoroValue>)
    requires
        a.len() == b.len(),
        forall|k: int| 0 <= k < a.len() ==> lv_view(#[trigger] a[k]) == lv_view(b[k]),
    ensures
        lv_seq_view(a) == lv_seq_view(b),
{
    lemma_lv_seq_view(a);
    lemma_lv_seq_view(b);
    assert forall|k: int| 0 <= k < a.len() implies lv_seq_view(a)[k] == lv_seq_view(b)[k] by {
        assert(lv_view(a[k]) == lv_view(b[k]));
    }
    assert(lv_seq_view(a) =~= lv_seq_view(b));
}

/// Entry sequences with pointwise equal key and value views have equal views.
pub proof fn lemma_lv_entries_view_eq(a: Seq<(String, LoroValue)>, b: Seq<(String, LoroValue)>)
    requires
        a.len() == b.len(),
        forall|k: int|
            0 <= k < a.len() ==> (#[trigger] a[k]).0@ == b[k].0@ && lv_view(a[k].1) == lv_view(
                b[k].1,
            ),
    ensures
        lv_entries_view(a) == lv_entries_view(b),
{
    lemma_lv_entries_view(a);
    lemma_lv_entries_view(b);
    assert forall|k: int|
        0 <= k < a.len() implies lv_entries_view(a)[k] == lv_entries_view(b)[k] by {
        assert(a[k].0@ == b[k].0@ && lv_view(a[k].1) == lv_view(b[k].1));
    }
    assert(lv_entries_view(a) =~= lv_entries_view(b));
}

impl LoroValue {
    /// A structural copy whose view equals this one's.
    #[verifier::loop_isolation(false)]
    pub fn dup(&self) -> (r: Self)
        ensures
            r.deep_view() == self.deep_view(),
        decreases *self,
    {
        broadcast use vstd::std_specs::vec::group_vec_axioms;

        match self {
            LoroValue::Null => LoroValue::Null,
            LoroValue::Bool(b) => LoroValue::Bool(*b),
            LoroValue::I32(i) => LoroValue::I32(*i),
            LoroValue::Str(s) => LoroValue::Str(s.clone()),
            LoroValue::List(xs) => {
                let n = xs.len();
                let mut out: Vec<LoroValue> = Vec::new();
                let mut i: usize = 0;
                while i < n
                    invariant
                        n == xs@.len(),
                        0 <= i <= n,
                        out@.len() == i,
                        forall|k: int| 0 <= k < i ==> lv_view(#[trigger] out@[k]) == lv_view(xs@[k]),
                    decreases n - i,
                {
                    proof {
                        assert(decreases_to!(*self => self->List_0));
                        assert(decreases_to!(*xs => xs@));
                        assert(decreases_to!(xs@ => xs@[i as int]));
                    }
                    out.push(xs[i].dup());
                    i = i + 1;
                }
                proof {
                    lemma_lv_seq_view_eq(out@, xs@);
                }
                LoroValue::List(out)
            },
            LoroValue::Dict(es) => {
                let n = es.len();
                let mut out: Vec<(String, LoroValue)> = Vec::new();
                let mut i: usize = 0;
                while i < n
                    invariant
                        n == es@.len(),
                        0 <= i <= n,
                        out@.len() == i,
                        forall|k: int|
                            0 <= k < i ==> (#[trigger] out@[k]).0@ == es@[k].0@ && lv_view(
                                out@[k].1,
                            ) == lv_view(es@[k].1),
                    decreases n - i,
                {
                    proof {
                        assert(decreases_to!(*self => self->Dict_0));
                        assert(decreases_to!(*es => es@));
                        assert(decreases_to!(es@ => es@[i as int]));
                        assert(decreases_to!(es@[i as int] => es@[i as int].1));
                    }
                    let v = es[i].1.dup();
                    let k = es[i].0.clone();
                    out.push((k, v));
                    i = i + 1;
                }
                proof {
                    lemma_lv_entries_view_eq(out@, es@);
                }
                LoroValue::Dict(out)
            },
            LoroValue::Container(c) => LoroValue::Container(c.dup()),
        }
    }

    /// View-level equality of two values.
    #[verifier::loop_isolation(false)]
    pub fn same_as(&self, other: &Self) -> (r: bool)
        ensures
            r == (self.deep_view() == other.deep_view()),
        decreases *self,
    {
        broadcast use vstd::std_specs::vec::group_vec_axioms;

        match (self, other) {
            (LoroValue::Null, LoroValue::Null) => true,
            (LoroValue::Bool(x), LoroValue::Bool(y)) => x == y,
            (LoroValue::I32(x), LoroValue::I32(y)) => x == y,
            (LoroValue::Str(x), LoroValue::Str(y)) => *x == *y,
            (LoroValue::List(xs), LoroValue::List(ys)) => {
                let n = xs.len();
                proof {
                    lemma_lv_seq_view(xs@);
                    lemma_lv_seq_view(ys@);
                }
                if n != ys.len() {
                    return false;
                }
                let mut i: usize = 0;
                while i < n
                    invariant
                        n == xs@.len() == ys@.len(),
                        0 <= i <= n,
                        forall|k: int| 0 <= k < i ==> lv_view(#[trigger] xs@[k]) == lv_view(ys@[k]),
                    decreases n - i,
                {
                    proof {
                        assert(decreases_to!(*self => self->List_0));
                        assert(decreases_to!(*xs => xs@));
                        assert(decreases_to!(xs@ => xs@[i as int]));
                    }
                    if !xs[i].same_as(&ys[i]) {
                        proof {
                            lemma_lv_seq_view(xs@);
                            lemma_lv_seq_view(ys@);
                            assert(lv_seq_view(xs@)[i as int] != lv_seq_view(ys@)[i as int]);
                        }
                        return false;
                    }
                    i = i + 1;
                }
                proof {
                    lemma_lv_seq_view_eq(xs@, ys@);
                }
                true
            },
            (LoroValue::Dict(xs), LoroValue::Dict(ys)) => {
                let n = xs.len();
                proof {
                    lemma_lv_entries_view(xs@);
                    lemma_lv_entries_view(ys@);
                }
                if n != ys.len() {
                    return false;
                }
                let mut i: usize = 0;
                while i < n
                    invariant
                        n == xs@.len() == ys@.len(),
                        0 <= i <= n,
                        forall|k: int|
                            0 <= k < i ==> (#[trigger] xs@[k]).0@ == ys@[k].0@ && lv_view(
                                xs@[k].1,
                            ) == lv_view(ys@[k].1),
                    decreases n - i,
                {
                    proof {
                        assert(decreases_to!(*self => self->Dict_0));
                        assert(decreases_to!(*xs => xs@));
                        assert(decreases_to!(xs@ => xs@[i as int]));
                        assert(decreases_to!(xs@[i as int] => xs@[i as int].1));
                    }
                    let keys_eq = xs[i].0 == ys[i].0;
                    if !keys_eq {
                        proof {
                            lemma_lv_entries_view(xs@);
                            lemma_lv_entries_view(ys@);
                            assert(lv_entries_view(xs@)[i as int] != lv_entries_view(
                                ys@,
                            )[i as int]);
                        }
                        return false;
                    }
                    if !xs[i].1.same_as(&ys[i].1) {
                        proof {
                            lemma_lv_entries_view(xs@);
                            lemma_lv_entries_view(ys@);
                            assert(lv_entries_view(xs@)[i as int] != lv_entries_view(
                                ys@,
                            )[i as int]);
                        }
                        return false;
                    }
                    i = i + 1;
                }
                proof {
                    lemma_lv_entries_view_eq(xs@, ys@);
                }
                true
            },
            (LoroValue::Container(x), LoroValue::Container(y)) => x.same_as(y),
            _ => false,
        }
    }

    /// Whether this value is an unresolved container reference.
    pub fn as_container(&self) -> (r: Option<&ContainerID>)
        ensures
            r is Some <==> self.deep_view() is Container,
            r is Some ==> r->0@ == self.deep_view()->Container_0,
    {
        match self {
            LoroValue::Container(c) => Some(c),
            _ => None,
        }
    }
}

impl ContainerType {
    /// The empty value a fresh container of this kind materializes to:
    /// empty text, empty map, empty list, or a tree with no roots.
    pub fn default_value(&self) -> (r: LoroValue)
        ensures
            r.deep_view() == spec_default_value(*self),
    {
        match self {
            ContainerType::Text => LoroValue::Str(String::new()),
            ContainerType::Dict => LoroValue::Dict(Vec::new()),
            ContainerType::List => LoroValue::List(Vec::new()),
            ContainerType::Tree => {
                let mut key = String::new();
                push_char(&mut key, 'r');
                push_char(&mut key, 'o');
                push_char(&mut key, 'o');
                push_char(&mut key, 't');
                push_char(&mut key, 's');
                let mut entries: Vec<(String, LoroValue)> = Vec::new();
                entries.push((key, LoroValue::List(Vec::new())));
                let r = LoroValue::Dict(entries);
                proof {
                    lemma_lv_entries_view(entries@);
                    assert(key@ =~= seq!['r', 'o', 'o', 't', 's']);
                    assert(r.deep_view()->Dict_0 =~~= spec_default_value(*self)->Dict_0);
                }
                r
            },
        }
    }
}

/// The default materialization of each container kind.
pub open spec fn spec_default_value(t: ContainerType) -> LvView {
    match t {
        ContainerType::Text => LvView::Str(Seq::empty()),
        ContainerType::Dict => LvView::Dict(Seq::empty()),
        ContainerType::List => LvView::List(Seq::empty()),
        ContainerType::Tree => LvView::Dict(
            seq![(seq!['r', 'o', 'o', 't', 's'], LvView::List(Seq::empty()))],
        ),
    }
}

/// A value accepted by map- and list-insertion: the scalar subset of
/// [`LoroValue`] plus container references.
#[derive(Clone, Debug)]
pub enum InsertValue {
    Null,
    Bool(bool),
    Int32(i32),
    Str(String),
    Container(ContainerID),
}

/// The mathematical shape of an insertable value.
pub enum IvView {
    Null,
    Bool(bool),
    Int32(i32),
    Str(Seq<char>),
    Container(CidView),
}

impl DeepView for InsertValue {
    type V = IvView;

    open spec fn deep_view(&self) -> IvView {
        match self {
            InsertValue::Null => IvView::Null,
            InsertValue::Bool(b) => IvView::Bool(*b),
            InsertValue::Int32(i) => IvView::Int32(*i),
            InsertValue::Str(s) => IvView::Str(s@),
            InsertValue::Container(c) => IvView::Container(c@),
        }
    }
}

/// The value an insertable value materializes to.
pub open spec fn iv_to_lv(v: IvView) -> LvView {
    match v {
        IvView::Null => LvView::Null,
        IvView::Bool(b) => LvView::Bool(b),
        IvView::Int32(i) => LvView::I32(i),
        IvView::Str(s) => LvView::Str(s),
        IvView::Container(c) => LvView::Container(c),
    }
}

impl InsertValue {
    /// Converts into the materialized value model.
    pub fn into_value(self) -> (r: LoroValue)
        ensures
            r.deep_view() == iv_to_lv(self.deep_view()),
    {
        match self {
            InsertValue::Null => LoroValue::Null,
            InsertValue::Bool(b) => LoroValue::Bool(b),
            InsertValue::Int32(i) => LoroValue::I32(i),
            InsertValue::Str(s) => LoroValue::Str(s),
            InsertValue::Container(c) => LoroValue::Container(c),
        }
    }

    /// Converts a scalar materialized value back; lists and maps are not
    /// insertable.
    pub fn from_value(v: LoroValue) -> (r: Option<InsertValue>)
        ensures
            r is Some <==> !(v.deep_view() is List || v.deep_view() is Dict),
            r is Some ==> iv_to_lv(r->0.deep_view()) == v.deep_view(),
    {
        match v {
            LoroValue::Null => Some(InsertValue::Null),
            LoroValue::Bool(b) => Some(InsertValue::Bool(b)),
            LoroValue::I32(i) => Some(InsertValue::Int32(i)),
            LoroValue::Str(s) => Some(InsertValue::Str(s)),
            LoroValue::Container(c) => Some(InsertValue::Container(c)),
            LoroValue::List(_) => None,
            LoroValue::Dict(_) => None,
        }
    }
}

} // verus!
