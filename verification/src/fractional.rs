//! Fractional indices: byte strings that end in the terminator byte 128 and
//! are ordered lexicographically. Siblings are ordered by them. The indices
//! themselves are made, printed and parsed by the `fractional_index` crate.
use vstd::prelude::*;

use crate::order::{byte_codes, lex_lt, lex_lt_at};

verus! {

/// The byte that ends every fractional index.
pub open spec fn terminator() -> u8 {
    128u8
}

/// A byte string is a fractional index when it ends in the terminator.
pub open spec fn terminated(b: Seq<u8>) -> bool {
    b.len() > 0 && b.last() == terminator()
}

/// The index that `FractionalIndex::new_after` makes from the index whose
/// bytes are `b`.
pub uninterp spec fn new_after_bytes(b: Seq<u8>) -> Seq<u8>;

/// The lowercase hexadecimal digit of a value under 16.
pub open spec fn hex_digit(v: int) -> char {
    if v < 10 {
        (('0' as int) + v) as char
    } else {
        (('a' as int) + v - 10) as char
    }
}

/// Each byte as two lowercase hexadecimal digits, high half first.
pub open spec fn hex_encode(b: Seq<u8>) -> Seq<char> {
    Seq::new(
        2 * b.len(),
        |i: int|
            if i % 2 == 0 {
                hex_digit((b[i / 2] / 16) as int)
            } else {
                hex_digit((b[i / 2] % 16) as int)
            },
    )
}

/// The value of a lowercase hexadecimal digit.
pub open spec fn hex_value(c: char) -> Option<int> {
    if '0' <= c && c <= '9' {
        Some(c as int - '0' as int)
    } else if 'a' <= c && c <= 'f' {
        Some(c as int - 'a' as int + 10)
    } else {
        None
    }
}

/// Every pair of characters (a last odd character is ignored) is made of
/// two hexadecimal digits.
pub open spec fn hex_pairs_ok(s: Seq<char>) -> bool {
    forall|i: int|
        0 <= i < s.len() / 2 ==> (#[trigger] hex_value(s[2 * i])) is Some && hex_value(
            s[2 * i + 1],
        ) is Some
}

/// The bytes that the pairs of hexadecimal digits stand for.
pub open spec fn hex_decode(s: Seq<char>) -> Seq<u8> {
    Seq::new(
        (s.len() / 2) as nat,
        |i: int| (hex_value(s[2 * i]).unwrap() * 16 + hex_value(s[2 * i + 1]).unwrap()) as u8,
    )
}

/// What `FractionalIndex::from_string` accepts, and the index it gives back.
pub open spec fn index_decode(s: Seq<char>) -> Option<Seq<u8>> {
    if s.len() == 0 || !hex_pairs_ok(s) || !terminated(hex_decode(s)) {
        None
    } else {
        Some(hex_decode(s))
    }
}

/// Calls `FractionalIndex::default`, the index `[128]`.
#[verifier::external_body]
fn crate_default_bytes() -> (r: Vec<u8>)
    ensures
        r@ == seq![terminator()],
{
    fractional_index::FractionalIndex::default().as_bytes().to_vec()
}

/// Calls `FractionalIndex::new_after` on the index made of `b`. Its result
/// is named `new_after_bytes(b)`; as documented, it compares after the given
/// index, and like every index it ends in the terminator.
#[verifier::external_body]
fn crate_new_after(b: &Vec<u8>) -> (r: Vec<u8>)
    requires
        terminated(b@),
    ensures
        r@ == new_after_bytes(b@),
        terminated(r@),
        lex_lt(byte_codes(b@), byte_codes(r@)),
{
    let fi = fractional_index::FractionalIndex::from_bytes(b.clone()).unwrap();
    fractional_index::FractionalIndex::new_after(&fi).as_bytes().to_vec()
}

/// The index that `FractionalIndex::new_before` makes from the index whose
/// bytes are `b`.
pub uninterp spec fn new_before_bytes(b: Seq<u8>) -> Seq<u8>;

/// The index that `FractionalIndex::new_between` makes from the indices
/// whose bytes are `l` and `r`, when it makes one.
pub uninterp spec fn new_between_bytes(l: Seq<u8>, r: Seq<u8>) -> Seq<u8>;

/// `FractionalIndex::new_between` can be asked for an index between `l` and
/// `r`: both are indices, `l` comes first, and no byte of `r` before the
/// last position of the shorter one is 0 (the crate subtracts one from those
/// bytes while it compares).
pub open spec fn between_ok(l: Seq<u8>, r: Seq<u8>) -> bool {
    &&& terminated(l)
    &&& terminated(r)
    &&& lex_lt(byte_codes(l), byte_codes(r))
    &&& forall|j: int| 0 <= j < (if l.len() < r.len() { l.len() } else { r.len() }) - 1 ==> r[j] != 0
}

/// Calls `FractionalIndex::new_before` on the index made of `b`. Its result
/// is named `new_before_bytes(b)`; as documented, it compares before the
/// given index, and like every index it ends in the terminator.
#[verifier::external_body]
fn crate_new_before(b: &Vec<u8>) -> (r: Vec<u8>)
    requires
        terminated(b@),
    ensures
        r@ == new_before_bytes(b@),
        terminated(r@),
        lex_lt(byte_codes(r@), byte_codes(b@)),
{
    let fi = fractional_index::FractionalIndex::from_bytes(b.clone()).unwrap();
    fractional_index::FractionalIndex::new_before(&fi).as_bytes().to_vec()
}

/// Calls `FractionalIndex::new_between` on the indices made of `l` and `r`.
/// Where `l` comes before `r` (and `r` has no zero byte that the crate
/// would step below 0), it gives an index; its result is named
/// `new_between_bytes(l, r)` and, as documented, compares between the two.
#[verifier::external_body]
fn crate_new_between(l: &Vec<u8>, r: &Vec<u8>) -> (res: Vec<u8>)
    requires
        between_ok(l@, r@),
    ensures
        res@ == new_between_bytes(l@, r@),
        terminated(res@),
        lex_lt(byte_codes(l@), byte_codes(res@)),
        lex_lt(byte_codes(res@), byte_codes(r@)),
{
    let a = fractional_index::FractionalIndex::from_bytes(l.clone()).unwrap();
    let b = fractional_index::FractionalIndex::from_bytes(r.clone()).unwrap();
    fractional_index::FractionalIndex::new_between(&a, &b).unwrap().as_bytes().to_vec()
}

/// Calls `FractionalIndex::to_string`, which writes each byte as two
/// lowercase hexadecimal digits.
#[verifier::external_body]
fn crate_to_string(b: &Vec<u8>) -> (r: String)
    requires
        terminated(b@),
    ensures
        r@ == hex_encode(b@),
{
    fractional_index::FractionalIndex::from_bytes(b.clone()).unwrap().to_string()
}

/// Calls `FractionalIndex::from_string` on an ASCII string: it reads pairs of
/// lowercase hexadecimal digits and accepts the bytes when they end in the
/// terminator.
#[verifier::external_body]
fn crate_from_string(s: &str) -> (r: Option<Vec<u8>>)
    requires
        s.is_ascii(),
    ensures
        r matches Some(b) ==> Some(b@) == index_decode(s@),
        r is None ==> index_decode(s@) is None,
{
    match fractional_index::FractionalIndex::from_string(s) {
        Ok(fi) => Some(fi.as_bytes().to_vec()),
        Err(_) => None,
    }
}

/// A fractional index: it orders a node among its siblings.
pub struct FractionalIndex {
    bytes: Vec<u8>,
}

impl View for FractionalIndex {
    type V = Seq<u8>;

    open spec fn view(&self) -> Seq<u8> {
        self.index_bytes()
    }
}

impl FractionalIndex {
    /// The bytes of the index.
    pub closed spec fn index_bytes(&self) -> Seq<u8> {
        self.bytes@
    }
}

fn copy_bytes(b: &Vec<u8>) -> (r: Vec<u8>)
    ensures
        r@ == b@,
{
    let mut r: Vec<u8> = Vec::new();
    let mut i: usize = 0;
    while i < b.len()
        invariant
            i <= b.len(),
            r@ == b@.take(i as int),
        decreases b.len() - i,
    {
        r.push(b[i]);
        i = i + 1;
        assert(r@ =~= b@.take(i as int));
    }
    assert(b@.take(i as int) =~= b@);
    r
}

impl Clone for FractionalIndex {
    fn clone(&self) -> (r: FractionalIndex)
        ensures
            r@ == self@,
    {
        proof {
            use_type_invariant(self);
        }
        FractionalIndex { bytes: copy_bytes(&self.bytes) }
    }
}

impl Default for FractionalIndex {
    fn default() -> (r: FractionalIndex)
        ensures
            r@ == seq![terminator()],
    {
        FractionalIndex { bytes: crate_default_bytes() }
    }
}

impl FractionalIndex {
    #[verifier::type_invariant]
    spec fn is_terminated(&self) -> bool {
        terminated(self.bytes@)
    }

    /// A new index that comes after `fi`.
    pub fn new_after(fi: &FractionalIndex) -> (r: FractionalIndex)
        ensures
            r@ == new_after_bytes(fi@),
            lex_lt(byte_codes(fi@), byte_codes(r@)),
    {
        proof {
            use_type_invariant(fi);
        }
        FractionalIndex { bytes: crate_new_after(&fi.bytes) }
    }

    /// The index as a string of lowercase hexadecimal digits; the strings of
    /// two indices compare as the indices do.
    pub fn to_string(&self) -> (r: String)
        ensures
            r@ == hex_encode(self@),
    {
        proof {
            use_type_invariant(self);
        }
        crate_to_string(&self.bytes)
    }

    /// Reads an index from the string that `to_string` wrote; `None` when the
    /// string is not one.
    pub fn from_string(s: &str) -> (r: Option<FractionalIndex>)
        ensures
            r is Some <==> s.is_ascii() && index_decode(s@) is Some,
            r matches Some(f) ==> Some(f@) == index_decode(s@),
    {
        if !s.is_ascii() {
            return None;
        }
        match crate_from_string(s) {
            Some(b) => Some(FractionalIndex { bytes: b }),
            None => None,
        }
    }

    /// Reads an index from a string, and falls back to the default index
    /// where the string is not one.
    pub fn from_string_or_default(s: &str) -> (r: FractionalIndex)
        ensures
            s.is_ascii() && index_decode(s@) is Some ==> Some(r@) == index_decode(s@),
            !(s.is_ascii() && index_decode(s@) is Some) ==> r@ == seq![terminator()],
    {
        match FractionalIndex::from_string(s) {
            Some(f) => f,
            None => FractionalIndex::default(),
        }
    }

    /// The bytes of the index.
    pub fn as_bytes(&self) -> (r: &Vec<u8>)
        ensures
            r@ == self@,
    {
        &self.bytes
    }

    /// Whether `self` comes before `other`, comparing bytes lexicographically.
    pub fn less_than(&self, other: &FractionalIndex) -> (r: bool)
        ensures
            r == lex_lt(byte_codes(self@), byte_codes(other@)),
    {
        let a = &self.bytes;
        let b = &other.bytes;
        let ghost ca = byte_codes(a@);
        let ghost cb = byte_codes(b@);
        let mut i: usize = 0;
        while i < a.len() && i < b.len()
            invariant
                self@ == a@,
                other@ == b@,
                ca == byte_codes(a@),
                cb == byte_codes(b@),
                i <= a.len(),
                i <= b.len(),
                forall|j: int| 0 <= j < i ==> ca[j] == cb[j],
            decreases a.len() - i,
        {
            assert(ca[i as int] == a@[i as int] as int);
            assert(cb[i as int] == b@[i as int] as int);
            if a[i] != b[i] {
                let r = a[i] < b[i];
                proof {
                    assert(ca[i as int] == a@[i as int] as int);
                    assert(cb[i as int] == b@[i as int] as int);
                    if r {
                        assert(lex_lt_at(ca, cb, i as int));
                    } else {
                        assert(lex_lt_at(cb, ca, i as int));
                        crate::order::lemma_lex_asymmetric(cb, ca);
                    }
                }
                return r;
            }
            i = i + 1;
        }
        let r = i == a.len() && i < b.len();
        proof {
            if r {
                assert(lex_lt_at(ca, cb, i as int));
            } else if i == b.len() && i < a.len() {
                assert(lex_lt_at(cb, ca, i as int));
                crate::order::lemma_lex_asymmetric(cb, ca);
            } else {
                assert(ca =~= cb);
            }
        }
        r
    }

    /// Whether two indices are the same.
    pub fn same(&self, other: &FractionalIndex) -> (r: bool)
        ensures
            r == (self@ == other@),
    {
        let a = &self.bytes;
        let b = &other.bytes;
        if a.len() != b.len() {
            return false;
        }
        let mut i: usize = 0;
        while i < a.len()
            invariant
                self@ == a@,
                other@ == b@,
                a.len() == b.len(),
                i <= a.len(),
                forall|j: int| 0 <= j < i ==> a@[j] == b@[j],
            decreases a.len() - i,
        {
            if a[i] != b[i] {
                assert(a@[i as int] != b@[i as int]);
                return false;
            }
            i = i + 1;
        }
        assert(a@ =~= b@);
        true
    }
}

impl FractionalIndex {
    /// A new index that comes before `fi`.
    pub fn new_before(fi: &FractionalIndex) -> (r: FractionalIndex)
        ensures
            r@ == new_before_bytes(fi@),
            lex_lt(byte_codes(r@), byte_codes(fi@)),
    {
        proof {
            use_type_invariant(fi);
        }
        FractionalIndex { bytes: crate_new_before(&fi.bytes) }
    }

    /// Whether an index between `l` and `r` can be asked for (see
    /// `between_ok`).
    pub fn between_ok(l: &FractionalIndex, r: &FractionalIndex) -> (ok: bool)
        ensures
            ok == between_ok(l@, r@),
    {
        proof {
            use_type_invariant(l);
            use_type_invariant(r);
        }
        if !l.less_than(r) {
            return false;
        }
        let a = &l.bytes;
        let b = &r.bytes;
        let n = if a.len() < b.len() { a.len() } else { b.len() };
        let mut j: usize = 0;
        while j < n - 1
            invariant
                n == (if a@.len() < b@.len() { a@.len() } else { b@.len() }),
                n >= 1,
                l@ == a@,
                r@ == b@,
                terminated(a@),
                terminated(b@),
                lex_lt(byte_codes(a@), byte_codes(b@)),
                j <= n - 1,
                forall|k: int| 0 <= k < j ==> b@[k] != 0,
            decreases n - j,
        {
            if b[j] == 0 {
                return false;
            }
            j = j + 1;
        }
        true
    }

    /// A new index between `l` and `r` (see `between_ok`).
    pub fn new_between(l: &FractionalIndex, r: &FractionalIndex) -> (res: FractionalIndex)
        requires
            between_ok(l@, r@),
        ensures
            res@ == new_between_bytes(l@, r@),
            lex_lt(byte_codes(l@), byte_codes(res@)),
            lex_lt(byte_codes(res@), byte_codes(r@)),
    {
        FractionalIndex { bytes: crate_new_between(&l.bytes, &r.bytes) }
    }
}

} // verus!
