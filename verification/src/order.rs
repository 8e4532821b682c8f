//! Lexicographic order on sequences of integers, the order in which node
//! ids, edge keys and fractional indices are compared.
use vstd::prelude::*;

verus! {

/// `a` and `b` agree before position `i`, and `i` is where `a` comes first:
/// either `a` ends there while `b` goes on, or both go on and `a[i] < b[i]`.
pub open spec fn lex_lt_at(a: Seq<int>, b: Seq<int>, i: int) -> bool {
    &&& 0 <= i <= a.len()
    &&& i <= b.len()
    &&& forall|j: int| 0 <= j < i ==> a[j] == b[j]
    &&& ((i == a.len() && i < b.len()) || (i < a.len() && i < b.len() && a[i] < b[i]))
}

/// Strict lexicographic order.
pub open spec fn lex_lt(a: Seq<int>, b: Seq<int>) -> bool {
    exists|i: int| lex_lt_at(a, b, i)
}

/// The characters of a string as integers (their scalar values).
pub open spec fn char_codes(s: Seq<char>) -> Seq<int> {
    s.map_values(|c: char| c as int)
}

/// The bytes of a byte string as integers.
pub open spec fn byte_codes(s: Seq<u8>) -> Seq<int> {
    s.map_values(|b: u8| b as int)
}

pub proof fn lemma_lex_irreflexive(a: Seq<int>)
    ensures
        !lex_lt(a, a),
{
}

pub proof fn lemma_lex_asymmetric(a: Seq<int>, b: Seq<int>)
    requires
        lex_lt(a, b),
    ensures
        !lex_lt(b, a),
        a != b,
{
    let i = choose|i: int| lex_lt_at(a, b, i);
    if lex_lt(b, a) {
        let j = choose|j: int| lex_lt_at(b, a, j);
        if i < j {
            assert(b[i] == a[i]);
        } else if j < i {
            assert(a[j] == b[j]);
        }
    }
    if a == b {
        assert(a[i] == b[i]);
    }
}

pub proof fn lemma_lex_total(a: Seq<int>, b: Seq<int>)
    ensures
        a == b || lex_lt(a, b) || lex_lt(b, a),
{
    if a != b {
        if forall|j: int| 0 <= j < a.len() && j < b.len() ==> a[j] == b[j] {
            if a.len() < b.len() {
                assert(lex_lt_at(a, b, a.len() as int));
            } else if b.len() < a.len() {
                assert(lex_lt_at(b, a, b.len() as int));
            } else {
                assert(a =~= b);
            }
        } else {
            let k = choose|j: int| 0 <= j < a.len() && j < b.len() && a[j] != b[j];
            let i = first_difference(a, b, k);
            if a[i] < b[i] {
                assert(lex_lt_at(a, b, i));
            } else {
                assert(lex_lt_at(b, a, i));
            }
        }
    }
}

/// The first position at or before `k` where `a` and `b` differ.
proof fn first_difference(a: Seq<int>, b: Seq<int>, k: int) -> (i: int)
    requires
        0 <= k < a.len(),
        k < b.len(),
        a[k] != b[k],
    ensures
        0 <= i <= k,
        a[i] != b[i],
        forall|j: int| 0 <= j < i ==> a[j] == b[j],
    decreases k,
{
    if exists|j: int| 0 <= j < k && a[j] != b[j] {
        let j = choose|j: int| 0 <= j < k && a[j] != b[j];
        first_difference(a, b, j)
    } else {
        k
    }
}

pub proof fn lemma_lex_transitive(a: Seq<int>, b: Seq<int>, c: Seq<int>)
    requires
        lex_lt(a, b),
        lex_lt(b, c),
    ensures
        lex_lt(a, c),
{
    let i = choose|i: int| lex_lt_at(a, b, i);
    let j = choose|j: int| lex_lt_at(b, c, j);
    if i < j {
        assert(lex_lt_at(a, c, i));
    } else if j < i {
        assert(lex_lt_at(a, c, j));
    } else {
        assert(lex_lt_at(a, c, i));
    }
}

/// Byte strings with the same codes are the same.
pub proof fn lemma_byte_codes_injective(a: Seq<u8>, b: Seq<u8>)
    requires
        byte_codes(a) == byte_codes(b),
    ensures
        a == b,
{
    assert(a.len() == byte_codes(a).len());
    assert(b.len() == byte_codes(b).len());
    assert forall|i: int| 0 <= i < a.len() implies a[i] == b[i] by {
        assert(byte_codes(a)[i] == a[i] as int);
        assert(byte_codes(b)[i] == b[i] as int);
    }
    assert(a =~= b);
}

/// The list is in strictly increasing order under `lt`.
pub open spec fn strictly_sorted<A>(s: Seq<A>, lt: spec_fn(A, A) -> bool) -> bool {
    forall|i: int, j: int| 0 <= i < j < s.len() ==> #[trigger] lt(s[i], s[j])
}

/// `lt` is asymmetric (hence irreflexive) on the elements of `s`.
pub open spec fn asymmetric_on<A>(lt: spec_fn(A, A) -> bool, s: Set<A>) -> bool {
    forall|x: A, y: A| s.contains(x) && s.contains(y) && #[trigger] lt(x, y) ==> !lt(y, x)
}

/// `lt` is transitive.
pub open spec fn transitive<A>(lt: spec_fn(A, A) -> bool) -> bool {
    forall|x: A, y: A, z: A| #[trigger] lt(x, y) && #[trigger] lt(y, z) ==> lt(x, z)
}

/// Inserting `x` after the elements below it and before those above it
/// keeps a list sorted.
pub proof fn lemma_insert_sorted<A>(s: Seq<A>, x: A, j: int, lt: spec_fn(A, A) -> bool)
    requires
        strictly_sorted(s, lt),
        transitive(lt),
        0 <= j <= s.len(),
        forall|t: int| 0 <= t < j ==> #[trigger] lt(s[t], x),
        j < s.len() ==> lt(x, s[j]),
    ensures
        strictly_sorted(s.insert(j, x), lt),
{
    let n = s.insert(j, x);
    assert forall|a: int, b: int| 0 <= a < b < n.len() implies #[trigger] lt(n[a], n[b]) by {
        if b < j {
            assert(lt(s[a], s[b]));
        } else if b == j {
            assert(lt(s[a], x));
        } else if a < j {
            assert(lt(s[a], x));
            if b - 1 > j {
                assert(lt(s[j], s[b - 1]));
            }
        } else if a == j {
            if b - 1 > j {
                assert(lt(s[j], s[b - 1]));
            }
        } else {
            assert(lt(s[a - 1], s[b - 1]));
        }
    }
}

/// Two strictly sorted lists with the same elements are the same list.
pub proof fn lemma_sorted_unique<A>(a: Seq<A>, b: Seq<A>, lt: spec_fn(A, A) -> bool)
    requires
        strictly_sorted(a, lt),
        strictly_sorted(b, lt),
        a.to_set() == b.to_set(),
        asymmetric_on(lt, a.to_set()),
    ensures
        a == b,
    decreases a.len(),
{
    if a.len() == 0 {
        if b.len() > 0 {
            assert(b.to_set().contains(b[0]));
        }
        assert(a =~= b);
    } else {
        assert(a.to_set().contains(a[0]));
        assert(b.contains(a[0]));
        let j = choose|j: int| 0 <= j < b.len() && b[j] == a[0];
        assert(b.to_set().contains(b[0]));
        assert(a.contains(b[0]));
        let i = choose|i: int| 0 <= i < a.len() && a[i] == b[0];
        assert(a.to_set().contains(a[i]));
        if j > 0 {
            assert(lt(b[0], b[j]));
            if i > 0 {
                assert(lt(a[0], a[i]));
            }
            assert(false);
        }
        assert(a[0] == b[0]);
        let a1 = a.drop_first();
        let b1 = b.drop_first();
        assert forall|x: A| a1.to_set().contains(x) <==> b1.to_set().contains(x) by {
            if a1.contains(x) {
                let k = choose|k: int| 0 <= k < a1.len() && a1[k] == x;
                assert(lt(a[0], a[k + 1]));
                assert(a.contains(x));
                assert(b.to_set().contains(x));
                let l = choose|l: int| 0 <= l < b.len() && b[l] == x;
                if l == 0 {
                    assert(a[0] == b[0]);
                }
                assert(b1[l - 1] == x);
            }
            if b1.contains(x) {
                let k = choose|k: int| 0 <= k < b1.len() && b1[k] == x;
                assert(lt(b[0], b[k + 1]));
                assert(b.contains(x));
                assert(a.to_set().contains(x));
                let l = choose|l: int| 0 <= l < a.len() && a[l] == x;
                if l == 0 {
                    assert(a[0] == b[0]);
                }
                assert(a1[l - 1] == x);
            }
        }
        assert(a1.to_set() =~= b1.to_set());
        assert forall|i1: int, j1: int| 0 <= i1 < j1 < a1.len() implies #[trigger] lt(a1[i1], a1[j1]) by {
            assert(lt(a[i1 + 1], a[j1 + 1]));
        }
        assert forall|i1: int, j1: int| 0 <= i1 < j1 < b1.len() implies #[trigger] lt(b1[i1], b1[j1]) by {
            assert(lt(b[i1 + 1], b[j1 + 1]));
        }
        assert forall|x: A, y: A| a1.to_set().contains(x) && a1.to_set().contains(y) && #[trigger] lt(x, y) implies !lt(y, x) by {
            let k = choose|k: int| 0 <= k < a1.len() && a1[k] == x;
            let l = choose|l: int| 0 <= l < a1.len() && a1[l] == y;
            assert(a[k + 1] == x);
            assert(a[l + 1] == y);
            assert(a.to_set().contains(x));
            assert(a.to_set().contains(y));
        }
        lemma_sorted_unique(a1, b1, lt);
        assert(a.len() == b.len());
        assert forall|k: int| 0 <= k < a.len() implies a[k] == b[k] by {
            if k > 0 {
                assert(a1[k - 1] == b1[k - 1]);
            }
        }
        assert(a =~= b);
    }
}

/// `lt` orders any two distinct elements of `s`.
pub open spec fn total_on<A>(lt: spec_fn(A, A) -> bool, s: Set<A>) -> bool {
    forall|x: A, y: A| s.contains(x) && s.contains(y) && x != y ==> #[trigger] lt(x, y) || #[trigger] lt(y, x)
}

/// The first position of a sorted list whose element is above `a`.
proof fn position_above<A>(q: Seq<A>, a: A, lt: spec_fn(A, A) -> bool, j: int) -> (p: int)
    requires
        0 <= j <= q.len(),
        forall|t: int| 0 <= t < j ==> #[trigger] lt(q[t], a),
        forall|t: int| 0 <= t < q.len() ==> lt(q[t], a) || lt(a, q[t]),
    ensures
        j <= p <= q.len(),
        forall|t: int| 0 <= t < p ==> #[trigger] lt(q[t], a),
        p < q.len() ==> lt(a, q[p]),
    decreases q.len() - j,
{
    if j == q.len() || lt(a, q[j]) {
        j
    } else {
        position_above(q, a, lt, j + 1)
    }
}

/// A finite set that `lt` orders totally has a sorted enumeration.
pub proof fn lemma_sorted_exists<A>(s: Set<A>, lt: spec_fn(A, A) -> bool)
    requires
        s.finite(),
        transitive(lt),
        asymmetric_on(lt, s),
        total_on(lt, s),
    ensures
        exists|q: Seq<A>| strictly_sorted(q, lt) && q.to_set() == s,
    decreases s.len(),
{
    if s.len() == 0 {
        let q = Seq::<A>::empty();
        assert(q.to_set() =~= s) by {
            vstd::set_lib::lemma_set_empty_equivalency_len(s);
        }
        assert(strictly_sorted(q, lt));
    } else {
        let a = s.choose();
        vstd::set_lib::lemma_set_empty_equivalency_len(s);
        let r = s.remove(a);
        assert forall|x: A, y: A| r.contains(x) && r.contains(y) && #[trigger] lt(x, y) implies !lt(y, x) by {
            assert(s.contains(x) && s.contains(y));
        }
        assert forall|x: A, y: A| r.contains(x) && r.contains(y) && x != y implies #[trigger] lt(x, y) || #[trigger] lt(y, x) by {
            assert(s.contains(x) && s.contains(y));
        }
        lemma_sorted_exists(r, lt);
        let q0 = choose|q: Seq<A>| strictly_sorted(q, lt) && q.to_set() == r;
        assert forall|t: int| 0 <= t < q0.len() implies lt(q0[t], a) || lt(a, q0[t]) by {
            assert(q0.to_set().contains(q0[t]));
            assert(s.contains(q0[t]));
        }
        let p = position_above(q0, a, lt, 0);
        lemma_insert_sorted(q0, a, p, lt);
        let q = q0.insert(p, a);
        assert forall|x: A| q.to_set().contains(x) <==> s.contains(x) by {
            if q.contains(x) {
                let t = choose|t: int| 0 <= t < q.len() && q[t] == x;
                if t < p {
                    assert(q0[t] == x);
                    assert(q0.to_set().contains(x));
                } else if t > p {
                    assert(q0[t - 1] == x);
                    assert(q0.to_set().contains(x));
                }
            }
            if s.contains(x) {
                if x == a {
                    assert(q[p] == x);
                } else {
                    assert(r.contains(x));
                    assert(q0.contains(x));
                    let t = choose|t: int| 0 <= t < q0.len() && q0[t] == x;
                    if t < p {
                        assert(q[t] == x);
                    } else {
                        assert(q[t + 1] == x);
                    }
                }
            }
        }
        assert(q.to_set() =~= s);
    }
}

/// Compares two strings character by character.
pub fn string_lt(a: &String, b: &String) -> (r: bool)
    ensures
        r == lex_lt(char_codes(a@), char_codes(b@)),
{
    let sa = a.as_str();
    let sb = b.as_str();
    let la = sa.unicode_len();
    let lb = sb.unicode_len();
    let ghost ca = char_codes(a@);
    let ghost cb = char_codes(b@);
    let mut i: usize = 0;
    while i < la && i < lb
        invariant
            la == a@.len(),
            lb == b@.len(),
            sa@ == a@,
            sb@ == b@,
            ca == char_codes(a@),
            cb == char_codes(b@),
            i <= la,
            i <= lb,
            forall|j: int| 0 <= j < i ==> ca[j] == cb[j],
        decreases la - i,
    {
        let x = sa.get_char(i);
        let y = sb.get_char(i);
        if x != y {
            let r = (x as u32) < (y as u32);
            proof {
                if r {
                    assert(lex_lt_at(ca, cb, i as int));
                } else {
                    assert(lex_lt_at(cb, ca, i as int));
                    lemma_lex_asymmetric(cb, ca);
                }
            }
            return r;
        }
        i = i + 1;
    }
    let r = i == la && i < lb;
    proof {
        if r {
            assert(lex_lt_at(ca, cb, i as int));
        } else if i == lb && i < la {
            assert(lex_lt_at(cb, ca, i as int));
            lemma_lex_asymmetric(cb, ca);
        } else {
            assert(ca =~= cb);
        }
    }
    r
}

} // verus!
