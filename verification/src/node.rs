//! Node ids.
use vstd::prelude::*;

use crate::order::{
    char_codes, lemma_lex_asymmetric, lemma_lex_total, lemma_lex_transitive, lex_lt, string_lt,
};

verus! {

/// The id of a node in a tree.
///
/// The string `"<ROOT>"` always stands for `NodeId::Root`, which is reserved
/// for the root node of the tree.
#[derive(Debug, Default, PartialOrd, Ord, PartialEq, Eq, Hash)]
pub enum NodeId {
    #[default]
    Root,
    Id(String),
}

/// The string that names the root: `<ROOT>`.
pub open spec fn root_key() -> Seq<char> {
    seq!['<', 'R', 'O', 'O', 'T', '>']
}

/// The id that a key of an edge map (or a container's key) names.
pub open spec fn key_to_id(k: Seq<char>) -> Option<Seq<char>> {
    if k == root_key() {
        None
    } else {
        Some(k)
    }
}

/// The string form of an id.
pub open spec fn id_to_key(id: Option<Seq<char>>) -> Seq<char> {
    match id {
        None => root_key(),
        Some(s) => s,
    }
}

/// The order of node ids: the root first, then the other ids by their strings.
pub open spec fn id_lt(a: Option<Seq<char>>, b: Option<Seq<char>>) -> bool {
    match (a, b) {
        (None, Some(_)) => true,
        (Some(x), Some(y)) => lex_lt(char_codes(x), char_codes(y)),
        _ => false,
    }
}

pub proof fn lemma_id_lt_asymmetric(a: Option<Seq<char>>, b: Option<Seq<char>>)
    requires
        id_lt(a, b),
    ensures
        !id_lt(b, a),
        a != b,
{
    if a is Some && b is Some {
        lemma_lex_asymmetric(char_codes(a->0), char_codes(b->0));
    }
}

pub proof fn lemma_id_lt_transitive(a: Option<Seq<char>>, b: Option<Seq<char>>, c: Option<Seq<char>>)
    requires
        id_lt(a, b),
        id_lt(b, c),
    ensures
        id_lt(a, c),
{
    if a is Some {
        lemma_lex_transitive(char_codes(a->0), char_codes(b->0), char_codes(c->0));
    }
}

pub proof fn lemma_id_lt_total(a: Option<Seq<char>>, b: Option<Seq<char>>)
    requires
        a != b,
    ensures
        id_lt(a, b) || id_lt(b, a),
{
    if a is Some && b is Some {
        let x = a->0;
        let y = b->0;
        lemma_lex_total(char_codes(x), char_codes(y));
        if char_codes(x) == char_codes(y) {
            assert(x.len() == char_codes(x).len());
            assert(y.len() == char_codes(y).len());
            assert forall|i: int| 0 <= i < x.len() implies x[i] == y[i] by {
                assert(char_codes(x)[i] == x[i] as int);
                assert(char_codes(y)[i] == y[i] as int);
            }
            assert(x =~= y);
        }
    }
}

impl View for NodeId {
    /// `None` for the root, the id's string otherwise.
    type V = Option<Seq<char>>;

    open spec fn view(&self) -> Option<Seq<char>> {
        match self {
            NodeId::Root => None,
            NodeId::Id(s) => Some(s@),
        }
    }
}

impl Clone for NodeId {
    fn clone(&self) -> (r: NodeId)
        ensures
            r@ == self@,
    {
        match self {
            NodeId::Root => NodeId::Root,
            NodeId::Id(s) => NodeId::Id(s.clone()),
        }
    }
}

pub fn root_str() -> (r: &'static str)
    ensures
        r@ == root_key(),
{
    proof {
        reveal_strlit("<ROOT>");
    }
    "<ROOT>"
}

impl NodeId {
    /// The id that a string names: `"<ROOT>"` is the root, any other string
    /// an ordinary id.
    pub fn from_str(id: &str) -> (r: NodeId)
        ensures
            r@ == key_to_id(id@),
    {
        let s = id.to_owned();
        let root = root_str().to_owned();
        if s == root {
            NodeId::Root
        } else {
            NodeId::Id(s)
        }
    }

    /// The string form of the id; `"<ROOT>"` for the root.
    pub fn to_string(&self) -> (r: String)
        ensures
            r@ == id_to_key(self@),
    {
        match self {
            NodeId::Root => root_str().to_owned(),
            NodeId::Id(s) => s.clone(),
        }
    }

    /// Whether two ids are the same.
    pub fn same(&self, other: &NodeId) -> (r: bool)
        ensures
            r == (self@ == other@),
    {
        match (self, other) {
            (NodeId::Root, NodeId::Root) => true,
            (NodeId::Id(a), NodeId::Id(b)) => *a == *b,
            _ => false,
        }
    }

    /// Whether the id is the root.
    pub fn is_root(&self) -> (r: bool)
        ensures
            r == (self@ is None),
    {
        match self {
            NodeId::Root => true,
            NodeId::Id(_) => false,
        }
    }

    /// Whether the id equals the given string (`"<ROOT>"` for the root).
    pub fn eq_str(&self, other: &str) -> (r: bool)
        ensures
            r == (id_to_key(self@) == other@),
    {
        let o = other.to_owned();
        let s = self.to_string();
        s == o
    }

    /// Whether `self` comes before `other`: the root first, then the other ids
    /// in the order of their strings.
    pub fn less_than(&self, other: &NodeId) -> (r: bool)
        ensures
            r == id_lt(self@, other@),
    {
        match (self, other) {
            (NodeId::Root, NodeId::Id(_)) => true,
            (NodeId::Id(a), NodeId::Id(b)) => string_lt(a, b),
            _ => false,
        }
    }
}

/// A lowercase hexadecimal digit.
pub open spec fn is_lower_hex(c: char) -> bool {
    ('0' <= c && c <= '9') || ('a' <= c && c <= 'f')
}

/// The hyphenated form of a UUID: 36 characters, hyphens at positions 8,
/// 13, 18 and 23, lowercase hexadecimal digits everywhere else.
pub open spec fn is_hyphenated_uuid(s: Seq<char>) -> bool {
    &&& s.len() == 36
    &&& forall|i: int|
        0 <= i < 36 ==> if i == 8 || i == 13 || i == 18 || i == 23 {
            s[i] == '-'
        } else {
            is_lower_hex(#[trigger] s[i])
        }
}

/// `uuid::Uuid::now_v7()` written with `to_string`: a new version 7 UUID
/// from the clock and random bits, in its hyphenated lowercase form. Which
/// UUID comes back is left open; its form is stated.
#[verifier::external_body]
fn uuid_v7_string() -> (r: String)
    ensures
        is_hyphenated_uuid(r@),
{
    uuid::Uuid::now_v7().to_string()
}

impl NodeId {
    /// A new id made from a version 7 UUID; never the root.
    pub fn fresh() -> (r: NodeId)
        ensures
            r@ matches Some(s) && is_hyphenated_uuid(s),
    {
        NodeId::Id(uuid_v7_string())
    }
}

/// Whether a string has the form of a fresh id (see `is_hyphenated_uuid`).
pub fn is_uuid_form(s: &str) -> (r: bool)
    ensures
        r == is_hyphenated_uuid(s@),
{
    if s.unicode_len() != 36 {
        return false;
    }
    let mut i: usize = 0;
    while i < 36
        invariant
            s@.len() == 36,
            i <= 36,
            forall|j: int|
                0 <= j < i ==> if j == 8 || j == 13 || j == 18 || j == 23 {
                    s@[j] == '-'
                } else {
                    is_lower_hex(#[trigger] s@[j])
                },
        decreases 36 - i,
    {
        let c = s.get_char(i);
        let ok = if i == 8 || i == 13 || i == 18 || i == 23 {
            c == '-'
        } else {
            ('0' <= c && c <= '9') || ('a' <= c && c <= 'f')
        };
        if !ok {
            return false;
        }
        i = i + 1;
    }
    true
}

} // verus!
