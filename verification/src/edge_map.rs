//! Edge maps: for each parent a node has had, the edge value it was given.
//! The parent with the highest value is the current one.
use vstd::prelude::*;

use crate::order::{char_codes, lemma_lex_asymmetric, lemma_lex_total, lemma_lex_transitive, lex_lt, string_lt};

verus! {

/// `a` ranks before `b`: a higher edge value, or the same value and a
/// smaller key.
pub open spec fn edge_before(a: (Seq<char>, i64), b: (Seq<char>, i64)) -> bool {
    a.1 > b.1 || (a.1 == b.1 && lex_lt(char_codes(a.0), char_codes(b.0)))
}

/// `k` is the key of `m` that ranks first: the highest edge value, and among
/// keys with that value the smallest.
pub open spec fn is_top_key(m: Map<Seq<char>, i64>, k: Seq<char>) -> bool {
    &&& m.contains_key(k)
    &&& forall|k2: Seq<char>| #[trigger]
        m.contains_key(k2) && k2 != k ==> edge_before((k, m[k]), (k2, m[k2]))
}

/// `v` is the highest edge value of `m`.
pub open spec fn is_max_value(m: Map<Seq<char>, i64>, v: i64) -> bool {
    &&& forall|k: Seq<char>| #[trigger] m.contains_key(k) ==> m[k] <= v
    &&& exists|k: Seq<char>| #[trigger] m.contains_key(k) && m[k] == v
}

/// Every edge value of `m` can still be raised by one.
pub open spec fn edges_below_max(m: Map<Seq<char>, i64>) -> bool {
    forall|k: Seq<char>| #[trigger] m.contains_key(k) ==> m[k] < i64::MAX
}

/// The entries are in strictly descending rank.
pub open spec fn sorted_desc(s: Seq<(Seq<char>, i64)>) -> bool {
    forall|i: int, j: int| 0 <= i < j < s.len() ==> edge_before(#[trigger] s[i], #[trigger] s[j])
}

/// The entries list the map: each once, with its value.
pub open spec fn lists_map(s: Seq<(Seq<char>, i64)>, m: Map<Seq<char>, i64>) -> bool {
    &&& forall|i: int| 0 <= i < s.len() ==> m.contains_key(#[trigger] s[i].0) && m[s[i].0] == s[i].1
    &&& forall|k: Seq<char>| #[trigger] m.contains_key(k) ==> exists|i: int| 0 <= i < s.len() && s[i].0 == k
    &&& forall|i: int, j: int| 0 <= i < j < s.len() ==> (#[trigger] s[i]).0 != (#[trigger] s[j]).0
}

/// The view of a list of exec entries.
pub open spec fn entries_view(v: Seq<(String, i64)>) -> Seq<(Seq<char>, i64)> {
    v.map_values(|e: (String, i64)| (e.0@, e.1))
}

/// The map that inserting the entries in order gives.
pub open spec fn map_of_entries(s: Seq<(Seq<char>, i64)>) -> Map<Seq<char>, i64>
    decreases s.len(),
{
    if s.len() == 0 {
        Map::empty()
    } else {
        map_of_entries(s.drop_last()).insert(s.last().0, s.last().1)
    }
}

pub proof fn lemma_edge_before_transitive(a: (Seq<char>, i64), b: (Seq<char>, i64), c: (Seq<char>, i64))
    requires
        edge_before(a, b),
        edge_before(b, c),
    ensures
        edge_before(a, c),
{
    if a.1 == b.1 && b.1 == c.1 {
        lemma_lex_transitive(char_codes(a.0), char_codes(b.0), char_codes(c.0));
    }
}

pub proof fn lemma_edge_before_total(a: (Seq<char>, i64), b: (Seq<char>, i64))
    requires
        a.0 != b.0,
    ensures
        edge_before(a, b) || edge_before(b, a),
{
    lemma_lex_total(char_codes(a.0), char_codes(b.0));
    if char_codes(a.0) == char_codes(b.0) {
        assert(a.0.len() == char_codes(a.0).len());
        assert(b.0.len() == char_codes(b.0).len());
        assert forall|i: int| 0 <= i < a.0.len() implies a.0[i] == b.0[i] by {
            assert(char_codes(a.0)[i] == a.0[i] as int);
            assert(char_codes(b.0)[i] == b.0[i] as int);
        }
        assert(a.0.len() == char_codes(a.0).len());
        assert(a.0 =~= b.0);
    }
}

pub proof fn lemma_edge_before_asymmetric(a: (Seq<char>, i64), b: (Seq<char>, i64))
    requires
        edge_before(a, b),
    ensures
        !edge_before(b, a),
        a.0 != b.0 || a.1 != b.1,
{
    if a.1 == b.1 {
        lemma_lex_asymmetric(char_codes(a.0), char_codes(b.0));
    }
}

/// A finite non-empty map has a top key.
pub proof fn lemma_exists_top_key(m: Map<Seq<char>, i64>)
    requires
        m.dom().finite(),
        m.len() > 0,
    ensures
        exists|k: Seq<char>| is_top_key(m, k),
    decreases m.len(),
{
    let k = m.dom().choose();
    assert(m.dom().contains(k));
    let rest = m.remove(k);
    assert(rest.dom() =~= m.dom().remove(k));
    if rest.len() == 0 {
        assert forall|k2: Seq<char>| #[trigger] m.contains_key(k2) && k2 != k implies edge_before(
            (k, m[k]),
            (k2, m[k2]),
        ) by {
            assert(rest.dom().contains(k2));
        }
        assert(is_top_key(m, k));
    } else {
        lemma_exists_top_key(rest);
        let k1 = choose|k1: Seq<char>| is_top_key(rest, k1);
        lemma_edge_before_total((k, m[k]), (k1, m[k1]));
        if edge_before((k, m[k]), (k1, m[k1])) {
            assert forall|k2: Seq<char>| #[trigger] m.contains_key(k2) && k2 != k implies edge_before(
                (k, m[k]),
                (k2, m[k2]),
            ) by {
                if k2 != k1 {
                    assert(rest.contains_key(k2));
                    lemma_edge_before_transitive((k, m[k]), (k1, m[k1]), (k2, m[k2]));
                }
            }
            assert(is_top_key(m, k));
        } else {
            assert forall|k2: Seq<char>| #[trigger] m.contains_key(k2) && k2 != k1 implies edge_before(
                (k1, m[k1]),
                (k2, m[k2]),
            ) by {
                if k2 != k {
                    assert(rest.contains_key(k2));
                }
            }
            assert(is_top_key(m, k1));
        }
    }
}

/// Two top keys of a map are the same key.
pub proof fn lemma_top_key_unique(m: Map<Seq<char>, i64>, k1: Seq<char>, k2: Seq<char>)
    requires
        is_top_key(m, k1),
        is_top_key(m, k2),
    ensures
        k1 == k2,
{
    if k1 != k2 {
        assert(m.contains_key(k2));
        assert(m.contains_key(k1));
        assert(edge_before((k1, m[k1]), (k2, m[k2])));
        assert(edge_before((k2, m[k2]), (k1, m[k1])));
        lemma_edge_before_asymmetric((k1, m[k1]), (k2, m[k2]));
    }
}

/// The edge map of a node: for each parent it has had (by the parent's id
/// string), the edge value it was given. Each parent occurs once.
pub struct EdgeMap {
    entries: Vec<(String, i64)>,
    map: Ghost<Map<Seq<char>, i64>>,
}

impl View for EdgeMap {
    type V = Map<Seq<char>, i64>;

    open spec fn view(&self) -> Map<Seq<char>, i64> {
        self.as_map()
    }
}

impl Clone for EdgeMap {
    fn clone(&self) -> (r: EdgeMap)
        ensures
            r@ == self@,
    {
        proof {
            use_type_invariant(self);
        }
        EdgeMap { entries: self.copy_entries(), map: Ghost(self.map@) }
    }
}

impl EdgeMap {
    /// The edges as a map from parent id string to edge value.
    pub closed spec fn as_map(&self) -> Map<Seq<char>, i64> {
        self.map@
    }

    #[verifier::type_invariant]
    spec fn entries_list_map(&self) -> bool {
        lists_map(entries_view(self.entries@), self.map@)
    }

    /// An empty edge map.
    pub fn new() -> (r: EdgeMap)
        ensures
            r@ == Map::<Seq<char>, i64>::empty(),
    {
        EdgeMap { entries: Vec::new(), map: Ghost(Map::empty()) }
    }

    /// The number of parents.
    pub fn len(&self) -> (r: usize)
        ensures
            r == self@.len(),
            self@.dom().finite(),
    {
        proof {
            use_type_invariant(self);
            self.lemma_len();
        }
        self.entries.len()
    }

    proof fn lemma_len(&self)
        requires
            lists_map(entries_view(self.entries@), self.map@),
        ensures
            self.map@.dom().finite(),
            self.map@.len() == self.entries@.len(),
    {
        let s = entries_view(self.entries@);
        let keys = Set::new(|k: Seq<char>| exists|i: int| 0 <= i < s.len() && s[i].0 == k);
        assert(self.map@.dom() =~= keys);
        let f = |i: int| s[i].0;
        lemma_distinct_keys_len(s, s.len() as int);
        assert(keys =~= keys_upto(s, s.len() as int));
    }

    /// Whether the map has no parent.
    pub fn is_empty(&self) -> (r: bool)
        ensures
            r == (self@.len() == 0),
    {
        self.len() == 0
    }

    /// The edge value of `key`, if it has one.
    pub fn get(&self, key: &str) -> (r: Option<i64>)
        ensures
            r == (if self@.contains_key(key@) {
                Some(self@[key@])
            } else {
                None::<i64>
            }),
    {
        proof {
            use_type_invariant(self);
        }
        match self.index_of(key) {
            Some(i) => {
                proof {
                    let ev = entries_view(self.entries@);
                    assert(ev[i as int] == (self.entries@[i as int].0@, self.entries@[i as int].1));
                    assert(ev[i as int].0 == key@);
                    assert(self.map@[ev[i as int].0] == ev[i as int].1);
                }
                Some(self.entries[i].1)
            },
            None => None,
        }
    }

    fn index_of(&self, key: &str) -> (r: Option<usize>)
        requires
            lists_map(entries_view(self.entries@), self.map@),
        ensures
            r matches Some(i) ==> i < self.entries@.len() && self.entries@[i as int].0@ == key@,
            r is None ==> !self.map@.contains_key(key@),
    {
        let k = key.to_owned();
        let mut i: usize = 0;
        while i < self.entries.len()
            invariant
                lists_map(entries_view(self.entries@), self.map@),
                i <= self.entries.len(),
                k@ == key@,
                forall|j: int| 0 <= j < i ==> self.entries@[j].0@ != key@,
            decreases self.entries.len() - i,
        {
            if self.entries[i].0 == k {
                return Some(i);
            }
            i = i + 1;
        }
        proof {
            let s = entries_view(self.entries@);
            if self.map@.contains_key(key@) {
                let j = choose|j: int| 0 <= j < s.len() && s[j].0 == key@;
                assert(s[j].0 == self.entries@[j].0@);
            }
        }
        None
    }

    /// Sets the edge value of `key`, adding the key if it is new.
    pub fn insert(&mut self, key: String, value: i64)
        ensures
            final(self)@ == old(self)@.insert(key@, value),
    {
        proof {
            use_type_invariant(&*self);
        }
        let ghost old_map = self.map@;
        let ghost new_map = old_map.insert(key@, value);
        match self.index_of(key.as_str()) {
            Some(i) => {
                let ghost old_entries = self.entries@;
                let mut entries = self.copy_entries();
                assert(entries@.len() == entries_view(entries@).len());
                entries.set(i, (key, value));
                proof {
                    let s = entries_view(entries@);
                    let s0 = entries_view(old_entries);
                    assert forall|j: int| 0 <= j < s.len() implies new_map.contains_key(
                        #[trigger] s[j].0,
                    ) && new_map[s[j].0] == s[j].1 by {
                        assert(s0[j].0 == old_entries[j].0@);
                        if j != i {
                            assert(s[j] == s0[j]);
                            assert(s0[j].0 != s0[i as int].0 || j == i);
                        }
                    }
                    assert forall|k: Seq<char>| #[trigger] new_map.contains_key(k) implies exists|j: int|
                        0 <= j < s.len() && s[j].0 == k by {
                        if k == key@ {
                            assert(s[i as int].0 == k);
                        } else {
                            let j = choose|j: int| 0 <= j < s0.len() && s0[j].0 == k;
                            assert(s[j] == s0[j]);
                        }
                    }
                    assert forall|a: int, b: int| 0 <= a < b < s.len() implies (#[trigger] s[a]).0
                        != (#[trigger] s[b]).0 by {
                        assert(s0[a].0 != s0[b].0);
                        assert(s0[i as int].0 == key@);
                        if a != i {
                            assert(s[a] == s0[a]);
                        }
                        if b != i {
                            assert(s[b] == s0[b]);
                        }
                    }
                }
                *self = EdgeMap { entries, map: Ghost(new_map) };
            },
            None => {
                let ghost old_entries = self.entries@;
                let mut entries = self.copy_entries();
                entries.push((key, value));
                proof {
                    let s = entries_view(entries@);
                    let s0 = entries_view(old_entries);
                    let n = old_entries.len() as int;
                    assert forall|j: int| 0 <= j < s.len() implies new_map.contains_key(
                        #[trigger] s[j].0,
                    ) && new_map[s[j].0] == s[j].1 by {
                        if j < n {
                            assert(s[j] == s0[j]);
                            assert(s0[j].0 != key@);
                        }
                    }
                    assert forall|k: Seq<char>| #[trigger] new_map.contains_key(k) implies exists|j: int|
                        0 <= j < s.len() && s[j].0 == k by {
                        if k == key@ {
                            assert(s[n].0 == k);
                        } else {
                            let j = choose|j: int| 0 <= j < s0.len() && s0[j].0 == k;
                            assert(s[j] == s0[j]);
                        }
                    }
                    assert forall|a: int, b: int| 0 <= a < b < s.len() implies (#[trigger] s[a]).0
                        != (#[trigger] s[b]).0 by {
                        assert(s[a] == s0[a]);
                        if b < n {
                            assert(s[b] == s0[b]);
                        } else {
                            assert(old_map.contains_key(s0[a].0));
                        }
                    }
                }
                *self = EdgeMap { entries, map: Ghost(new_map) };
            },
        }
    }

    /// Builds an edge map from a list of (parent, edge value) pairs; a later
    /// pair for the same parent replaces an earlier one.
    pub fn from_entries(entries: Vec<(String, i64)>) -> (r: EdgeMap)
        ensures
            r@ == map_of_entries(entries_view(entries@)),
    {
        let mut m = EdgeMap::new();
        let mut i: usize = 0;
        let ghost ev = entries_view(entries@);
        while i < entries.len()
            invariant
                i <= entries.len(),
                ev == entries_view(entries@),
                m@ == map_of_entries(ev.take(i as int)),
            decreases entries.len() - i,
        {
            let key = entries[i].0.clone();
            let value = entries[i].1;
            m.insert(key, value);
            proof {
                assert(ev.take(i + 1).drop_last() =~= ev.take(i as int));
                assert(ev[i as int] == (entries@[i as int].0@, entries@[i as int].1));
            }
            i = i + 1;
        }
        assert(ev.take(i as int) =~= ev);
        m
    }

    /// The entries, each parent once, in the order the map keeps them.
    pub fn entries(&self) -> (r: Vec<(String, i64)>)
        ensures
            lists_map(entries_view(r@), self@),
    {
        proof {
            use_type_invariant(self);
        }
        self.copy_entries()
    }

    fn copy_entries(&self) -> (r: Vec<(String, i64)>)
        ensures
            entries_view(r@) == entries_view(self.entries@),
    {
        let mut r: Vec<(String, i64)> = Vec::new();
        let mut i: usize = 0;
        while i < self.entries.len()
            invariant
                i <= self.entries.len(),
                r@.len() == i,
                entries_view(r@) == entries_view(self.entries@).take(i as int),
            decreases self.entries.len() - i,
        {
            let k = self.entries[i].0.clone();
            let v = self.entries[i].1;
            r.push((k, v));
            proof {
                assert(r@[i as int] == (k, v));
                assert(entries_view(r@)[i as int] == entries_view(self.entries@)[i as int]);
                assert(entries_view(r@) =~= entries_view(self.entries@).take(i + 1));
            }
            i = i + 1;
        }
        assert(entries_view(self.entries@).take(i as int) =~= entries_view(self.entries@));
        r
    }

    /// The parent with the highest edge value, and that value; among parents
    /// with the same highest value, the one with the smallest id string.
    /// `None` when the map is empty.
    pub fn max_edge(&self) -> (r: Option<(String, i64)>)
        ensures
            self@.dom().finite(),
            r is None <==> self@.len() == 0,
            r matches Some(e) ==> is_top_key(self@, e.0@) && e.1 == self@[e.0@],
    {
        proof {
            use_type_invariant(self);
            self.lemma_len();
        }
        let n = self.entries.len();
        if n == 0 {
            return None;
        }
        let ghost s = entries_view(self.entries@);
        let mut best: usize = 0;
        let mut i: usize = 1;
        while i < n
            invariant
                n == self.entries.len(),
                s == entries_view(self.entries@),
                lists_map(s, self.map@),
                best < i <= n,
                forall|j: int| 0 <= j < i && j != best ==> edge_before(s[best as int], s[j]),
            decreases n - i,
        {
            let e = &self.entries[i];
            let b = &self.entries[best];
            let better = e.1 > b.1 || (e.1 == b.1 && string_lt(&e.0, &b.0));
            proof {
                assert(s[i as int] == (e.0@, e.1));
                assert(s[best as int] == (b.0@, b.1));
            }
            if better {
                proof {
                    assert forall|j: int| 0 <= j < i + 1 && j != i implies edge_before(
                        s[i as int],
                        s[j],
                    ) by {
                        if j != best {
                            lemma_edge_before_transitive(s[i as int], s[best as int], s[j]);
                        }
                    }
                }
                best = i;
            } else {
                proof {
                    assert(s[i as int].0 != s[best as int].0);
                    lemma_edge_before_total(s[i as int], s[best as int]);
                }
            }
            i = i + 1;
        }
        let r = (self.entries[best].0.clone(), self.entries[best].1);
        proof {
            let k = s[best as int].0;
            assert forall|k2: Seq<char>| #[trigger]
                self.map@.contains_key(k2) && k2 != k implies edge_before(
                (k, self.map@[k]),
                (k2, self.map@[k2]),
            ) by {
                let j = choose|j: int| 0 <= j < s.len() && s[j].0 == k2;
                assert(j != best);
            }
        }
        Some(r)
    }

    /// Makes `id` the current parent: its edge value becomes one more than
    /// the highest value so far, or 0 in an empty map. Returns the parent and
    /// its new value.
    pub fn add_edge(&mut self, id: &str) -> (r: (String, i64))
        requires
            edges_below_max(old(self)@),
        ensures
            r.0@ == id@,
            old(self)@.dom().finite(),
            old(self)@.len() == 0 ==> r.1 == 0,
            old(self)@.len() > 0 ==> r.1 > i64::MIN && is_max_value(old(self)@, (r.1 - 1) as i64),
            final(self)@ == old(self)@.insert(id@, r.1),
    {
        match self.max_edge() {
            Some((k, edge)) => {
                let ghost m = self@;
                let new_edge_val = edge + 1;
                self.insert(id.to_owned(), new_edge_val);
                proof {
                    assert(m.contains_key(k@));
                    assert forall|k2: Seq<char>| #[trigger] m.contains_key(k2) implies m[k2] <= edge by {
                        if k2 != k@ {
                            assert(edge_before((k@, m[k@]), (k2, m[k2])));
                        }
                    }
                }
                (id.to_owned(), new_edge_val)
            },
            None => {
                self.insert(id.to_owned(), 0);
                (id.to_owned(), 0)
            },
        }
    }

    /// All edges, highest edge value first; among equal values the smaller
    /// id string first.
    pub fn edges_desc(&self) -> (r: Vec<(String, i64)>)
        ensures
            lists_map(entries_view(r@), self@),
            sorted_desc(entries_view(r@)),
            self@.dom().finite(),
    {
        proof {
            use_type_invariant(self);
            self.lemma_len();
        }
        let ghost s = entries_view(self.entries@);
        let mut r: Vec<(String, i64)> = Vec::new();
        let mut i: usize = 0;
        proof {
            assert(entries_view(r@) =~= Seq::<(Seq<char>, i64)>::empty());
            assert(s.take(0) =~= Seq::<(Seq<char>, i64)>::empty());
        }
        while i < self.entries.len()
            invariant
                i <= self.entries.len(),
                s == entries_view(self.entries@),
                lists_map(s, self.map@),
                sorted_desc(entries_view(r@)),
                entries_view(r@).to_multiset() == s.take(i as int).to_multiset(),
            decreases self.entries.len() - i,
        {
            let k = self.entries[i].0.clone();
            let e = (k, self.entries[i].1);
            let ghost ev = (e.0@, e.1);
            assert(ev == s[i as int]);
            let ghost rv = entries_view(r@);
            proof {
                assert forall|t: int| 0 <= t < rv.len() implies rv[t].0 != ev.0 by {
                    lemma_in_prefix(rv, s, i as int, t);
                }
            }
            let mut j: usize = 0;
            while j < r.len() && !entry_before(&e, &r[j])
                invariant
                    j <= r.len(),
                    rv == entries_view(r@),
                    ev == (e.0@, e.1),
                    forall|t: int| 0 <= t < j ==> edge_before(rv[t], ev),
                    forall|t: int| 0 <= t < rv.len() ==> rv[t].0 != ev.0,
                decreases r.len() - j,
            {
                proof {
                    assert(rv[j as int] == (r@[j as int].0@, r@[j as int].1));
                    lemma_edge_before_total(rv[j as int], ev);
                }
                j = j + 1;
            }
            proof {
                if j < r.len() {
                    assert(rv[j as int] == (r@[j as int].0@, r@[j as int].1));
                }
                lemma_insert_sorted(rv, ev, j as int);
                lemma_multiset_step(rv, ev, j as int, s, i as int);
            }
            r.insert(j, e);
            proof {
                assert(entries_view(r@) =~= rv.insert(j as int, ev));
            }
            i = i + 1;
        }
        proof {
            let rv = entries_view(r@);
            let m = self.map@;
            assert(s.take(i as int) =~= s);
            assert forall|t: int| 0 <= t < rv.len() implies m.contains_key(#[trigger] rv[t].0)
                && m[rv[t].0] == rv[t].1 by {
                lemma_in_prefix(rv, s, s.len() as int, t);
            }
            assert forall|k: Seq<char>| #[trigger] m.contains_key(k) implies exists|t: int|
                0 <= t < rv.len() && rv[t].0 == k by {
                let jj = choose|jj: int| 0 <= jj < s.len() && s[jj].0 == k;
                let t = lemma_in_list(rv, s, jj);
            }
            assert forall|a: int, b: int| 0 <= a < b < rv.len() implies (#[trigger] rv[a]).0
                != (#[trigger] rv[b]).0 by {
                lemma_edge_before_asymmetric(rv[a], rv[b]);
                if rv[a].0 == rv[b].0 {
                    lemma_in_prefix(rv, s, s.len() as int, a);
                    lemma_in_prefix(rv, s, s.len() as int, b);
                }
            }
        }
        r
    }
}

proof fn lemma_multiset_step(
    rv: Seq<(Seq<char>, i64)>,
    ev: (Seq<char>, i64),
    j: int,
    s: Seq<(Seq<char>, i64)>,
    i: int,
)
    requires
        0 <= j <= rv.len(),
        0 <= i < s.len(),
        ev == s[i],
        rv.to_multiset() == s.take(i).to_multiset(),
    ensures
        rv.insert(j, ev).to_multiset() == s.take(i + 1).to_multiset(),
{
    vstd::seq_lib::to_multiset_insert(rv, j, ev);
    assert(s.take(i + 1) =~= s.take(i).push(ev));
    vstd::seq_lib::to_multiset_build(s.take(i), ev);
}

/// An entry of a list with the same elements as the first `n` entries of `s`
/// is one of them.
proof fn lemma_in_prefix(r: Seq<(Seq<char>, i64)>, s: Seq<(Seq<char>, i64)>, n: int, t: int)
    requires
        0 <= n <= s.len(),
        r.to_multiset() == s.take(n).to_multiset(),
        0 <= t < r.len(),
    ensures
        exists|jj: int| 0 <= jj < n && r[t] == s[jj],
{
    vstd::seq_lib::to_multiset_contains(r, r[t]);
    vstd::seq_lib::to_multiset_contains(s.take(n), r[t]);
    assert(r.contains(r[t]));
    let jj = choose|jj: int| 0 <= jj < s.take(n).len() && s.take(n)[jj] == r[t];
    assert(s[jj] == r[t]);
}

/// An entry of `s` occurs in a list with the same elements.
proof fn lemma_in_list(r: Seq<(Seq<char>, i64)>, s: Seq<(Seq<char>, i64)>, jj: int) -> (t: int)
    requires
        r.to_multiset() == s.to_multiset(),
        0 <= jj < s.len(),
    ensures
        0 <= t < r.len(),
        r[t] == s[jj],
{
    vstd::seq_lib::to_multiset_contains(r, s[jj]);
    vstd::seq_lib::to_multiset_contains(s, s[jj]);
    assert(s.contains(s[jj]));
    choose|t: int| 0 <= t < r.len() && r[t] == s[jj]
}

proof fn lemma_insert_sorted(rv: Seq<(Seq<char>, i64)>, ev: (Seq<char>, i64), j: int)
    requires
        sorted_desc(rv),
        0 <= j <= rv.len(),
        forall|t: int| 0 <= t < j ==> edge_before(rv[t], ev),
        j < rv.len() ==> edge_before(ev, rv[j]),
    ensures
        sorted_desc(rv.insert(j, ev)),
{
    let nv = rv.insert(j, ev);
    assert forall|a: int, b: int| 0 <= a < b < nv.len() implies edge_before(
        #[trigger] nv[a],
        #[trigger] nv[b],
    ) by {
        if b < j {
            assert(edge_before(rv[a], rv[b]));
        } else if b == j {
        } else if a < j {
            assert(nv[b] == rv[b - 1]);
            assert(edge_before(rv[a], ev));
            if b - 1 > j {
                assert(edge_before(rv[j], rv[b - 1]));
                lemma_edge_before_transitive(ev, rv[j], rv[b - 1]);
            }
            lemma_edge_before_transitive(rv[a], ev, rv[b - 1]);
        } else if a == j {
            if b - 1 > j {
                assert(edge_before(rv[j], rv[b - 1]));
                lemma_edge_before_transitive(ev, rv[j], rv[b - 1]);
            }
        } else {
            assert(edge_before(rv[a - 1], rv[b - 1]));
        }
    }
}

/// Compares two exec entries by rank.
fn entry_before(a: &(String, i64), b: &(String, i64)) -> (r: bool)
    ensures
        r == edge_before((a.0@, a.1), (b.0@, b.1)),
{
    a.1 > b.1 || (a.1 == b.1 && string_lt(&a.0, &b.0))
}

/// Keys of the first `n` entries.
pub open spec fn keys_upto(s: Seq<(Seq<char>, i64)>, n: int) -> Set<Seq<char>> {
    Set::new(|k: Seq<char>| exists|i: int| 0 <= i < n && s[i].0 == k)
}

proof fn lemma_distinct_keys_len(s: Seq<(Seq<char>, i64)>, n: int)
    requires
        0 <= n <= s.len(),
        forall|i: int, j: int| 0 <= i < j < s.len() ==> (#[trigger] s[i]).0 != (#[trigger] s[j]).0,
    ensures
        keys_upto(s, n).finite(),
        keys_upto(s, n).len() == n,
    decreases n,
{
    if n == 0 {
        assert(keys_upto(s, 0) =~= Set::empty());
    } else {
        lemma_distinct_keys_len(s, n - 1);
        assert(keys_upto(s, n) =~= keys_upto(s, n - 1).insert(s[n - 1].0));
        assert(!keys_upto(s, n - 1).contains(s[n - 1].0));
    }
}

impl EdgeMap {
    /// Whether every edge value can still be raised by one.
    pub fn below_max(&self) -> (r: bool)
        ensures
            r == edges_below_max(self@),
    {
        match self.max_edge() {
            Some((k, v)) => {
                proof {
                    if v < i64::MAX {
                        assert forall|k2: Seq<char>| #[trigger] self@.contains_key(k2) implies self@[k2]
                            < i64::MAX by {
                            if k2 != k@ {
                                assert(edge_before((k@, self@[k@]), (k2, self@[k2])));
                            }
                        }
                    } else {
                        assert(self@.contains_key(k@));
                    }
                }
                v < i64::MAX
            },
            None => {
                proof {
                    assert forall|k2: Seq<char>| #[trigger] self@.contains_key(k2) implies self@[k2]
                        < i64::MAX by {
                        assert(self@.dom().len() == 0);
                        assert(self@.dom().contains(k2));
                    }
                }
                true
            },
        }
    }
}

impl EdgeMap {
    /// Whether two edge maps hold the same edges.
    pub fn same(&self, other: &EdgeMap) -> (r: bool)
        ensures
            r == (self@ == other@),
    {
        let n = self.len();
        if n != other.len() {
            return false;
        }
        let es = self.entries();
        let ghost sv = entries_view(es@);
        let mut i: usize = 0;
        while i < es.len()
            invariant
                i <= es.len(),
                sv == entries_view(es@),
                lists_map(sv, self@),
                forall|j: int| 0 <= j < i ==> other@.contains_key(#[trigger] sv[j].0) && other@[sv[j].0] == sv[j].1,
            decreases es.len() - i,
        {
            let (k, v) = (&es[i].0, es[i].1);
            proof {
                assert(sv[i as int] == (k@, v));
                assert(self@.contains_key(sv[i as int].0) && self@[sv[i as int].0] == sv[i as int].1);
            }
            match other.get(k.as_str()) {
                Some(v2) => {
                    if v2 != v {
                        proof {
                            assert(self@[k@] == v);
                        }
                        return false;
                    }
                },
                None => {
                    proof {
                        assert(self@.contains_key(k@));
                    }
                    return false;
                },
            }
            i = i + 1;
        }
        proof {
            assert(self@.dom().subset_of(other@.dom())) by {
                assert forall|k: Seq<char>| self@.dom().contains(k) implies other@.dom().contains(k) by {
                    let j = choose|j: int| 0 <= j < sv.len() && sv[j].0 == k;
                    assert(other@.contains_key(sv[j].0));
                }
            }
            vstd::set_lib::lemma_subset_equality(self@.dom(), other@.dom());
            assert forall|k: Seq<char>| #[trigger] self@.contains_key(k) implies other@[k] == self@[k] by {
                let j = choose|j: int| 0 <= j < sv.len() && sv[j].0 == k;
                assert(other@[sv[j].0] == sv[j].1);
            }
            assert(self@ =~= other@);
        }
        true
    }
}

/// Adding an edge makes its parent the current one: whatever value
/// `add_edge` gives the new edge (0 in an empty map, one more than the
/// highest value otherwise), the edge map it leaves has that parent on top.
pub proof fn law_added_edge_is_top(em: Map<Seq<char>, i64>, id: Seq<char>, v: i64)
    requires
        em.dom().finite(),
        em.len() == 0 ==> v == 0,
        em.len() > 0 ==> v > i64::MIN && is_max_value(em, (v - 1) as i64),
    ensures
        is_top_key(em.insert(id, v), id),
{
    let em2 = em.insert(id, v);
    assert forall|k2: Seq<char>| #[trigger] em2.contains_key(k2) && k2 != id implies edge_before(
        (id, em2[id]),
        (k2, em2[k2]),
    ) by {
        assert(em.contains_key(k2));
        if em.len() == 0 {
            assert(em.dom().contains(k2));
            assert(em.dom().len() > 0) by {
                vstd::set_lib::lemma_set_empty_equivalency_len(em.dom());
            }
        }
    }
}

} // verus!
