//! Logical identifiers: a peer identifier paired with a per-peer counter.

use vstd::prelude::*;
use vstd::string::StrSliceExecFns;
use vstd::string::StringExecFns;

use crate::error::LoroError;
use crate::strutil::dec_digits;
use crate::strutil::dec_val;
use crate::strutil::find_char;
use crate::strutil::is_digits;
use crate::strutil::parse_u64;
use crate::strutil::push_char;
use crate::strutil::str_find;
use crate::strutil::u64_to_string;

verus! {

/// Opaque replica identifier.
pub type PeerID = u64;

/// Per-peer, monotonically increasing operation counter.
pub type Counter = i32;

/// Logical timestamp used for causal tie-breaking across peers.
pub type Lamport = u32;

/// Reserved peer value standing for "unknown": used for placeholder anchors.
pub const UNKNOWN_PEER: PeerID = 404;

/// A globally unique operation identifier: (peer, counter).
///
/// Within one peer the counter increases strictly; across peers uniqueness
/// follows from unique peer identifiers. The reserved (max peer, max counter)
/// value is the root/null sentinel.
#[derive(Clone, Copy, PartialEq, Eq, Structural, Hash, Debug, PartialOrd, Ord)]
pub struct ID {
    pub peer: PeerID,
    pub counter: Counter,
}

/// A half-open counter range [start, end) within one peer.
#[derive(Clone, Copy, PartialEq, Eq, Structural, Debug)]
pub struct CounterSpan {
    pub start: Counter,
    pub end: Counter,
}

impl CounterSpan {
    pub fn new(start: Counter, end: Counter) -> (r: CounterSpan)
        ensures
            r.start == start,
            r.end == end,
    {
        CounterSpan { start, end }
    }
}

/// A run of consecutive identifiers of one peer.
#[derive(Clone, Copy, PartialEq, Eq, Structural, Debug)]
pub struct IdSpan {
    pub client_id: PeerID,
    pub counter: CounterSpan,
}

/// The root/null sentinel identifier.
pub open spec fn root_id() -> ID {
    ID { peer: PeerID::MAX, counter: Counter::MAX }
}

impl ID {
    pub fn new(peer: PeerID, counter: Counter) -> (r: Self)
        ensures
            r == (ID { peer, counter }),
    {
        ID { peer, counter }
    }

    /// The root sentinel: (max peer, max counter).
    pub fn new_root() -> (r: Self)
        ensures
            r == root_id(),
    {
        ID { peer: PeerID::MAX, counter: Counter::MAX }
    }

    /// An identifier with the reserved max peer is the null/root sentinel.
    pub fn is_null(&self) -> (r: bool)
        ensures
            r == (self.peer == PeerID::MAX),
    {
        self.peer == PeerID::MAX
    }

    /// The run of `len` identifiers starting here.
    pub fn to_span(&self, len: usize) -> (r: IdSpan)
        requires
            0 <= self.counter,
            self.counter + len <= Counter::MAX,
        ensures
            r.client_id == self.peer,
            r.counter.start == self.counter,
            r.counter.end == self.counter + len,
    {
        IdSpan {
            client_id: self.peer,
            counter: CounterSpan::new(self.counter, self.counter + len as Counter),
        }
    }

    /// A placeholder identifier under the reserved "unknown" peer.
    pub fn unknown(counter: Counter) -> (r: Self)
        ensures
            r == (ID { peer: UNKNOWN_PEER, counter }),
    {
        ID { peer: UNKNOWN_PEER, counter }
    }

    pub fn is_unknown(&self) -> (r: bool)
        ensures
            r == (self.peer == UNKNOWN_PEER),
    {
        self.peer == UNKNOWN_PEER
    }

    /// Whether `other` starts exactly where a run of `self_len` identifiers
    /// beginning at `self` ends, on the same peer.
    pub fn is_connected_id(&self, other: &Self, self_len: usize) -> (r: bool)
        requires
            0 <= self.counter,
            self.counter + self_len <= Counter::MAX,
        ensures
            r == (self.peer == other.peer && self.counter + self_len == other.counter),
    {
        self.peer == other.peer && self.counter + (self_len as Counter) == other.counter
    }

    /// The identifier `inc` steps later on the same peer.
    pub fn inc(&self, inc: i32) -> (r: Self)
        requires
            Counter::MIN <= self.counter + inc <= Counter::MAX,
        ensures
            r.peer == self.peer,
            r.counter == self.counter + inc,
    {
        ID { peer: self.peer, counter: self.counter + inc }
    }

    /// Whether `target` lies in the run of `len` identifiers starting here.
    pub fn contains(&self, len: Counter, target: ID) -> (r: bool)
        requires
            0 <= len,
            self.counter + len <= Counter::MAX,
        ensures
            r == (self.peer == target.peer && self.counter <= target.counter
                < self.counter + len),
    {
        self.peer == target.peer && self.counter <= target.counter && target.counter
            < self.counter + len
    }
}

/// The textual form of an identifier: `<counter>@<peer>`.
pub open spec fn id_text(id: ID) -> Seq<char> {
    dec_digits(id.counter as int) + seq!['@'] + dec_digits(id.peer as int)
}

/// The identifier denoted by a text of the form `<counter>@<peer>`, with
/// exactly one `@`, both fields non-empty decimal numerals in range.
pub open spec fn spec_parse_id(s: Seq<char>) -> Option<ID> {
    let k = find_char(s, '@');
    if k < 0 {
        None
    } else {
        let a = s.take(k);
        let b = s.skip(k + 1);
        if find_char(b, '@') >= 0 {
            None
        } else if !is_digits(a) || !is_digits(b) {
            None
        } else if dec_val(a) > Counter::MAX || dec_val(b) > PeerID::MAX {
            None
        } else {
            Some(ID { peer: dec_val(b) as PeerID, counter: dec_val(a) as Counter })
        }
    }
}

impl ID {
    /// Renders the identifier as `<counter>@<peer>`.
    pub fn to_text(&self) -> (r: String)
        requires
            0 <= self.counter,
        ensures
            r@ == id_text(*self),
    {
        let mut out = u64_to_string(self.counter as u64);
        push_char(&mut out, '@');
        let peer_text = u64_to_string(self.peer);
        out.append(peer_text.as_str());
        proof {
            assert(out@ =~= id_text(*self));
        }
        out
    }

    /// Decodes `<counter>@<peer>`; any malformed input is a decode error.
    pub fn try_from_str(s: &str) -> (r: Result<ID, LoroError>)
        ensures
            r is Ok <==> spec_parse_id(s@) is Some,
            r is Ok ==> r->Ok_0 == spec_parse_id(s@)->0,
            r is Err ==> r->Err_0 == LoroError::DecodeError,
    {
        let n = s.unicode_len();
        let k = match str_find(s, '@') {
            None => {
                return Err(LoroError::DecodeError);
            },
            Some(k) => k,
        };
        proof {
            crate::strutil::lemma_find_char(s@, '@');
        }
        let a = s.substring_char(0, k);
        let b = s.substring_char(k + 1, n);
        proof {
            assert(a@ =~= s@.take(k as int));
            assert(b@ =~= s@.skip(k + 1));
        }
        if str_find(b, '@').is_some() {
            return Err(LoroError::DecodeError);
        }
        let counter = match parse_u64(a) {
            None => {
                return Err(LoroError::DecodeError);
            },
            Some(v) => v,
        };
        let peer = match parse_u64(b) {
            None => {
                return Err(LoroError::DecodeError);
            },
            Some(v) => v,
        };
        if counter > Counter::MAX as u64 {
            return Err(LoroError::DecodeError);
        }
        Ok(ID { peer, counter: counter as Counter })
    }
}

} // verus!
