//! Container identity: container kinds, stable container identifiers, and
//! tree-node identifiers.

use vstd::prelude::*;
use vstd::string::StrSliceExecFns;
use vstd::string::StringExecFns;

use crate::error::LoroError;
use crate::id::Counter;
use crate::id::ID;
use crate::id::PeerID;
use crate::id::id_text;
use crate::id::spec_parse_id;
use crate::strutil::find_char;
use crate::strutil::push_char;
use crate::strutil::u64_to_string;

verus! {

/// The closed set of container kinds. Every container behaves as exactly one
/// of these; merge logic handles each kind exhaustively.
#[derive(Clone, Copy, PartialEq, Eq, Structural, Hash, Debug)]
pub enum ContainerType {
    Text,
    Dict,
    List,
    Tree,
}

impl ContainerType {
    pub fn to_u8(self) -> (r: u8)
        ensures
            r == spec_ct_to_u8(self),
    {
        match self {
            ContainerType::Text => 0,
            ContainerType::Dict => 1,
            ContainerType::List => 2,
            ContainerType::Tree => 3,
        }
    }

    pub fn from_u8(v: u8) -> (r: Self)
        requires
            v <= 3,
        ensures
            spec_ct_to_u8(r) == v,
    {
        match v {
            0 => ContainerType::Text,
            1 => ContainerType::Dict,
            2 => ContainerType::List,
            _ => ContainerType::Tree,
        }
    }

    /// The kind's name as text.
    pub fn to_text(&self) -> (r: String)
        ensures
            r@ == ct_text(*self),
    {
        let mut out = String::new();
        match self {
            ContainerType::Text => {
                push_char(&mut out, 'T');
                push_char(&mut out, 'e');
                push_char(&mut out, 'x');
                push_char(&mut out, 't');
            },
            ContainerType::Dict => {
                push_char(&mut out, 'M');
                push_char(&mut out, 'a');
                push_char(&mut out, 'p');
            },
            ContainerType::List => {
                push_char(&mut out, 'L');
                push_char(&mut out, 'i');
                push_char(&mut out, 's');
                push_char(&mut out, 't');
            },
            ContainerType::Tree => {
                push_char(&mut out, 'T');
                push_char(&mut out, 'r');
                push_char(&mut out, 'e');
                push_char(&mut out, 'e');
            },
        }
        proof {
            assert(out@ =~= ct_text(*self));
        }
        out
    }

    /// Decodes a kind name; any other text is a decode error.
    pub fn try_from_str(s: &str) -> (r: Result<Self, LoroError>)
        ensures
            r is Ok <==> spec_parse_ct(s@) is Some,
            r is Ok ==> r->Ok_0 == spec_parse_ct(s@)->0,
            r is Err ==> r->Err_0 == LoroError::DecodeError,
    {
        let n = s.unicode_len();
        if n == 4 && s.get_char(0) == 'T' && s.get_char(1) == 'e' && s.get_char(2) == 'x'
            && s.get_char(3) == 't' {
            proof {
                assert(s@ =~= ct_text(ContainerType::Text));
            }
            Ok(ContainerType::Text)
        } else if n == 3 && s.get_char(0) == 'M' && s.get_char(1) == 'a' && s.get_char(2)
            == 'p' {
            proof {
                assert(s@ =~= ct_text(ContainerType::Dict));
            }
            Ok(ContainerType::Dict)
        } else if n == 4 && s.get_char(0) == 'L' && s.get_char(1) == 'i' && s.get_char(2)
            == 's' && s.get_char(3) == 't' {
            proof {
                assert(s@ =~= ct_text(ContainerType::List));
            }
            Ok(ContainerType::List)
        } else if n == 4 && s.get_char(0) == 'T' && s.get_char(1) == 'r' && s.get_char(2)
            == 'e' && s.get_char(3) == 'e' {
            proof {
                assert(s@ =~= ct_text(ContainerType::Tree));
            }
            Ok(ContainerType::Tree)
        } else {
            proof {
                assert(s@ != ct_text(ContainerType::Text));
                assert(s@ != ct_text(ContainerType::Dict));
                assert(s@ != ct_text(ContainerType::List));
                assert(s@ != ct_text(ContainerType::Tree));
            }
            Err(LoroError::DecodeError)
        }
    }
}

pub open spec fn spec_ct_to_u8(t: ContainerType) -> u8 {
    match t {
        ContainerType::Text => 0,
        ContainerType::Dict => 1,
        ContainerType::List => 2,
        ContainerType::Tree => 3,
    }
}

pub open spec fn ct_text(t: ContainerType) -> Seq<char> {
    match t {
        ContainerType::Text => seq!['T', 'e', 'x', 't'],
        ContainerType::Dict => seq!['M', 'a', 'p'],
        ContainerType::List => seq!['L', 'i', 's', 't'],
        ContainerType::Tree => seq!['T', 'r', 'e', 'e'],
    }
}

pub open spec fn spec_parse_ct(s: Seq<char>) -> Option<ContainerType> {
    if s == ct_text(ContainerType::Text) {
        Some(ContainerType::Text)
    } else if s == ct_text(ContainerType::Dict) {
        Some(ContainerType::Dict)
    } else if s == ct_text(ContainerType::List) {
        Some(ContainerType::List)
    } else if s == ct_text(ContainerType::Tree) {
        Some(ContainerType::Tree)
    } else {
        None
    }
}

/// A stable container address: either a named root container, which exists
/// implicitly, or a normal container created by the operation at
/// (peer, counter). Equality implies identical creation provenance.
#[derive(Clone, PartialEq, Eq, Hash, Debug)]
pub enum ContainerID {
    Root { name: String, container_type: ContainerType },
    Normal { peer: PeerID, counter: Counter, container_type: ContainerType },
}

/// The mathematical shape of a container identifier.
pub enum CidView {
    Root { name: Seq<char>, container_type: ContainerType },
    Normal { peer: PeerID, counter: Counter, container_type: ContainerType },
}

impl View for ContainerID {
    type V = CidView;

    open spec fn view(&self) -> CidView {
        match self {
            ContainerID::Root { name, container_type } => CidView::Root {
                name: name@,
                container_type: *container_type,
            },
            ContainerID::Normal { peer, counter, container_type } => CidView::Normal {
                peer: *peer,
                counter: *counter,
                container_type: *container_type,
            },
        }
    }
}

impl DeepView for ContainerID {
    type V = CidView;

    open spec fn deep_view(&self) -> CidView {
        self.view()
    }
}

impl CidView {
    pub open spec fn ctype(self) -> ContainerType {
        match self {
            CidView::Root { container_type, .. } => container_type,
            CidView::Normal { container_type, .. } => container_type,
        }
    }
}

/// The textual form: `/<name>:<type>` for roots, `<counter>@<peer>:<type>`
/// for normal containers.
pub open spec fn cid_text(c: CidView) -> Seq<char> {
    match c {
        CidView::Root { name, container_type } => seq!['/'] + name + seq![':'] + ct_text(
            container_type,
        ),
        CidView::Normal { peer, counter, container_type } => id_text(
            ID { peer, counter },
        ) + seq![':'] + ct_text(container_type),
    }
}

/// The decoder splits at the first `:`; the kind is the text between the
/// first and (if any) second `:`. A leading `/` marks a root container.
pub open spec fn spec_parse_cid(s: Seq<char>) -> Option<CidView> {
    let k = find_char(s, ':');
    if k < 0 {
        None
    } else {
        let idp = s.take(k);
        let rest = s.skip(k + 1);
        let t2 = find_char(rest, ':');
        let tp = if t2 < 0 {
            rest
        } else {
            rest.take(t2)
        };
        match spec_parse_ct(tp) {
            None => None,
            Some(ct) => {
                if idp.len() > 0 && idp[0] == '/' {
                    Some(CidView::Root { name: idp.skip(1), container_type: ct })
                } else {
                    match spec_parse_id(idp) {
                        None => None,
                        Some(id) => Some(
                            CidView::Normal {
                                peer: id.peer,
                                counter: id.counter,
                                container_type: ct,
                            },
                        ),
                    }
                }
            },
        }
    }
}

impl ContainerID {
    pub fn new_normal(id: ID, container_type: ContainerType) -> (r: Self)
        ensures
            r@ == (CidView::Normal { peer: id.peer, counter: id.counter, container_type }),
    {
        ContainerID::Normal { peer: id.peer, counter: id.counter, container_type }
    }

    pub fn new_root(name: &str, container_type: ContainerType) -> (r: Self)
        ensures
            r@ == (CidView::Root { name: name@, container_type }),
    {
        ContainerID::Root { name: name.to_owned(), container_type }
    }

    /// The root container's name; only root containers carry one.
    pub fn name(&self) -> (r: &String)
        requires
            self@ is Root,
        ensures
            r@ == self@->Root_name,
    {
        match self {
            ContainerID::Root { name, .. } => name,
            ContainerID::Normal { .. } => unreached(),
        }
    }

    pub fn container_type(&self) -> (r: ContainerType)
        ensures
            r == self@.ctype(),
    {
        match self {
            ContainerID::Root { container_type, .. } => *container_type,
            ContainerID::Normal { container_type, .. } => *container_type,
        }
    }

    /// A structural copy whose view equals this one's.
    pub fn dup(&self) -> (r: Self)
        ensures
            r@ == self@,
    {
        match self {
            ContainerID::Root { name, container_type } => ContainerID::Root {
                name: name.clone(),
                container_type: *container_type,
            },
            ContainerID::Normal { peer, counter, container_type } => ContainerID::Normal {
                peer: *peer,
                counter: *counter,
                container_type: *container_type,
            },
        }
    }

    /// View-level equality of two container identifiers.
    pub fn same_as(&self, other: &Self) -> (r: bool)
        ensures
            r == (self@ == other@),
    {
        match (self, other) {
            (
                ContainerID::Root { name: n1, container_type: t1 },
                ContainerID::Root { name: n2, container_type: t2 },
            ) => *n1 == *n2 && t1 == t2,
            (
                ContainerID::Normal { peer: p1, counter: c1, container_type: t1 },
                ContainerID::Normal { peer: p2, counter: c2, container_type: t2 },
            ) => p1 == p2 && c1 == c2 && t1 == t2,
            _ => false,
        }
    }

    /// Renders the identifier in its textual form.
    pub fn to_text(&self) -> (r: String)
        requires
            self@ is Normal ==> 0 <= self@->Normal_counter,
        ensures
            r@ == cid_text(self@),
    {
        match self {
            ContainerID::Root { name, container_type } => {
                let mut out = String::new();
                push_char(&mut out, '/');
                out.append(name.as_str());
                push_char(&mut out, ':');
                let t = container_type.to_text();
                out.append(t.as_str());
                proof {
                    assert(out@ =~= cid_text(self@));
                }
                out
            },
            ContainerID::Normal { peer, counter, container_type } => {
                let id = ID::new(*peer, *counter);
                let mut out = id.to_text();
                push_char(&mut out, ':');
                let t = container_type.to_text();
                out.append(t.as_str());
                proof {
                    assert(out@ =~= cid_text(self@));
                }
                out
            },
        }
    }

    /// Decodes the textual form; malformed input is a decode error.
    pub fn try_from_str(s: &str) -> (r: Result<Self, LoroError>)
        ensures
            r is Ok <==> spec_parse_cid(s@) is Some,
            r is Ok ==> r->Ok_0@ == spec_parse_cid(s@)->0,
            r is Err ==> r->Err_0 == LoroError::DecodeError,
    {
        let n = s.unicode_len();
        let k = match crate::strutil::str_find(s, ':') {
            None => {
                return Err(LoroError::DecodeError);
            },
            Some(k) => k,
        };
        proof {
            crate::strutil::lemma_find_char(s@, ':');
        }
        let idp = s.substring_char(0, k);
        let rest = s.substring_char(k + 1, n);
        proof {
            assert(idp@ =~= s@.take(k as int));
            assert(rest@ =~= s@.skip(k + 1));
        }
        let rest_len = s.unicode_len() - k - 1;
        proof {
            crate::strutil::lemma_find_char(rest@, ':');
        }
        let tp = match crate::strutil::str_find(rest, ':') {
            None => rest,
            Some(t2) => rest.substring_char(0, t2),
        };
        let ct = match ContainerType::try_from_str(tp) {
            Err(e) => {
                return Err(LoroError::DecodeError);
            },
            Ok(ct) => ct,
        };
        if idp.unicode_len() > 0 && idp.get_char(0) == '/' {
            let name = idp.substring_char(1, idp.unicode_len());
            proof {
                assert(name@ =~= s@.take(k as int).skip(1));
            }
            Ok(ContainerID::Root { name: name.to_owned(), container_type: ct })
        } else {
            let id = match ID::try_from_str(idp) {
                Err(e) => {
                    return Err(LoroError::DecodeError);
                },
                Ok(id) => id,
            };
            Ok(ContainerID::Normal { peer: id.peer, counter: id.counter, container_type: ct })
        }
    }
}

/// A tree node address: the identifier of the operation that created the
/// node.
#[derive(Clone, Copy, PartialEq, Eq, Structural, Hash, Debug)]
pub struct TreeID {
    pub peer: PeerID,
    pub counter: Counter,
}

/// The reserved parent value under which deleted subtrees are kept.
pub open spec fn deleted_tree_root() -> TreeID {
    TreeID { peer: PeerID::MAX, counter: Counter::MAX }
}

impl TreeID {
    /// The sentinel parent of logically deleted nodes.
    pub fn delete_root() -> (r: Option<Self>)
        ensures
            r == Some(deleted_tree_root()),
    {
        Some(TreeID { peer: PeerID::MAX, counter: Counter::MAX })
    }

    /// Whether a parent value is the deleted-subtree sentinel.
    pub fn is_deleted(target: Option<TreeID>) -> (r: bool)
        ensures
            r == (target == Some(deleted_tree_root())),
    {
        match target {
            None => false,
            Some(t) => t.peer == PeerID::MAX && t.counter == Counter::MAX,
        }
    }

    pub fn from_id(id: ID) -> (r: Self)
        ensures
            r.peer == id.peer,
            r.counter == id.counter,
    {
        TreeID { peer: id.peer, counter: id.counter }
    }

    pub fn id(&self) -> (r: ID)
        ensures
            r.peer == self.peer,
            r.counter == self.counter,
    {
        ID { peer: self.peer, counter: self.counter }
    }
}

} // verus!
