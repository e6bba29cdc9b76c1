//! Maps keyed by path strings, kept in the byte order of the keys, which is
//! the order in which `String` compares and in which the index, trees and
//! merges list their paths.

use vstd::prelude::*;
use vstd::utf8::*;

verus! {

broadcast use vstd::utf8::encode_utf8_decode_utf8;

/// Lexicographic order on byte strings: `a` sorts strictly before `b`.
pub open spec fn bytes_lt(a: Seq<u8>, b: Seq<u8>) -> bool
    decreases a.len(),
{
    if b.len() == 0 {
        false
    } else if a.len() == 0 {
        true
    } else if a[0] != b[0] {
        a[0] < b[0]
    } else {
        bytes_lt(a.drop_first(), b.drop_first())
    }
}

/// The order of `String`: the byte order of the UTF-8 encodings.
pub open spec fn key_lt(a: Seq<char>, b: Seq<char>) -> bool {
    bytes_lt(encode_utf8(a), encode_utf8(b))
}

/// No byte string sorts before itself.
pub proof fn lemma_bytes_lt_irreflexive(a: Seq<u8>)
    ensures
        !bytes_lt(a, a),
    decreases a.len(),
{
    if a.len() > 0 {
        lemma_bytes_lt_irreflexive(a.drop_first());
    }
}

/// The byte order is transitive.
pub proof fn lemma_bytes_lt_transitive(a: Seq<u8>, b: Seq<u8>, c: Seq<u8>)
    requires
        bytes_lt(a, b),
        bytes_lt(b, c),
    ensures
        bytes_lt(a, c),
    decreases a.len(),
{
    if a.len() > 0 && a[0] == b[0] && b[0] == c[0] {
        lemma_bytes_lt_transitive(a.drop_first(), b.drop_first(), c.drop_first());
    }
}

/// Any two byte strings are equal or one sorts before the other.
pub proof fn lemma_bytes_lt_total(a: Seq<u8>, b: Seq<u8>)
    ensures
        a =~= b || bytes_lt(a, b) || bytes_lt(b, a),
    decreases a.len(),
{
    if a.len() > 0 && b.len() > 0 && a[0] == b[0] {
        lemma_bytes_lt_total(a.drop_first(), b.drop_first());
        if a.drop_first() =~= b.drop_first() {
            assert(a =~= seq![a[0]] + a.drop_first());
            assert(b =~= seq![b[0]] + b.drop_first());
        }
    }
}

/// The order of keys is a strict total order.
pub proof fn lemma_key_lt_facts()
    ensures
        forall|a: Seq<char>| !#[trigger] key_lt(a, a),
        forall|a: Seq<char>, b: Seq<char>, c: Seq<char>|
            #[trigger] key_lt(a, b) && #[trigger] key_lt(b, c) ==> key_lt(a, c),
        forall|a: Seq<char>, b: Seq<char>| a != b ==> #[trigger] key_lt(a, b) || #[trigger] key_lt(b, a),
{
    assert forall|a: Seq<char>| !#[trigger] key_lt(a, a) by {
        lemma_bytes_lt_irreflexive(encode_utf8(a));
    }
    assert forall|a: Seq<char>, b: Seq<char>, c: Seq<char>|
        #[trigger] key_lt(a, b) && #[trigger] key_lt(b, c) implies key_lt(a, c) by {
        lemma_bytes_lt_transitive(encode_utf8(a), encode_utf8(b), encode_utf8(c));
    }
    assert forall|a: Seq<char>, b: Seq<char>| a != b implies #[trigger] key_lt(a, b) || #[trigger] key_lt(b, a) by {
        lemma_bytes_lt_total(encode_utf8(a), encode_utf8(b));
        if encode_utf8(a) =~= encode_utf8(b) {
            assert(decode_utf8(encode_utf8(a)) == a);
            assert(decode_utf8(encode_utf8(b)) == b);
        }
    }
}

/// Whether the byte string `a` sorts strictly before `b`.
pub fn bytes_less(a: &[u8], b: &[u8]) -> (r: bool)
    ensures
        r == bytes_lt(a@, b@),
{
    let mut i: usize = 0;
    assert(a@.skip(0) =~= a@);
    assert(b@.skip(0) =~= b@);
    while i < a.len() && i < b.len()
        invariant
            i <= a@.len(),
            i <= b@.len(),
            bytes_lt(a@, b@) == bytes_lt(a@.skip(i as int), b@.skip(i as int)),
            forall|j: int| 0 <= j < i ==> a@[j] == b@[j],
        decreases a.len() - i,
    {
        if a[i] != b[i] {
            return a[i] < b[i];
        }
        assert(a@.skip(i as int).drop_first() =~= a@.skip(i + 1));
        assert(b@.skip(i as int).drop_first() =~= b@.skip(i + 1));
        i = i + 1;
    }
    i < b.len()
}

/// Whether the string `a` sorts strictly before `b`.
pub fn key_less(a: &str, b: &str) -> (r: bool)
    ensures
        r == key_lt(a@, b@),
{
    bytes_less(a.as_bytes(), b.as_bytes())
}

/// The map with these pairs.
pub open spec fn map_of<V>(s: Seq<(Seq<char>, V)>) -> Map<Seq<char>, V> {
    Map::new(
        |k: Seq<char>| exists|i: int| 0 <= i < s.len() && #[trigger] s[i].0 == k,
        |k: Seq<char>| s[choose|i: int| 0 <= i < s.len() && #[trigger] s[i].0 == k].1,
    )
}

/// The keys of the pairs increase strictly.
pub open spec fn sorted_by_key<V>(s: Seq<(Seq<char>, V)>) -> bool {
    forall|i: int, j: int| 0 <= i < j < s.len() ==> key_lt(#[trigger] s[i].0, #[trigger] s[j].0)
}

/// The pairs, in increasing key order, that make up the map `m`.
pub open spec fn listing<V>(m: Map<Seq<char>, V>) -> Seq<(Seq<char>, V)> {
    choose|s: Seq<(Seq<char>, V)>| sorted_by_key(s) && map_of(s) == m
}

/// Dropping the last entry of a key-sorted listing removes its key from the map.
pub proof fn lemma_map_of_drop_last<V>(s: Seq<(Seq<char>, V)>)
    requires
        sorted_by_key(s),
        s.len() > 0,
    ensures
        map_of(s.drop_last()) == map_of(s).remove(s.last().0),
        map_of(s).contains_key(s.last().0),
        map_of(s)[s.last().0] == s.last().1,
        forall|k: Seq<char>| #[trigger] map_of(s).contains_key(k) && k != s.last().0 ==> key_lt(k, s.last().0),
{
    lemma_key_lt_facts();
    let n = s.len() - 1;
    let d = s.drop_last();
    assert(map_of(s).contains_key(s[n].0));
    let j = choose|j: int| 0 <= j < s.len() && #[trigger] s[j].0 == s[n].0;
    if j != n {
        assert(key_lt(s[j].0, s[n].0));
    }
    assert forall|k: Seq<char>| #[trigger] map_of(s).contains_key(k) && k != s.last().0 implies key_lt(k, s.last().0) by {
        let i = choose|i: int| 0 <= i < s.len() && #[trigger] s[i].0 == k;
    }
    assert forall|k: Seq<char>| #[trigger] map_of(d).contains_key(k) <==> map_of(s).remove(s.last().0).contains_key(k) by {
        if map_of(d).contains_key(k) {
            let i = choose|i: int| 0 <= i < d.len() && #[trigger] d[i].0 == k;
            assert(s[i].0 == k);
            assert(key_lt(s[i].0, s[n].0));
        }
        if map_of(s).remove(s.last().0).contains_key(k) {
            let i = choose|i: int| 0 <= i < s.len() && #[trigger] s[i].0 == k;
            assert(i != n);
            assert(d[i].0 == k);
        }
    }
    assert forall|k: Seq<char>| #[trigger] map_of(d).contains_key(k) implies map_of(d)[k] == map_of(s)[k] by {
        let i = choose|i: int| 0 <= i < d.len() && #[trigger] d[i].0 == k;
        let i2 = choose|i2: int| 0 <= i2 < s.len() && #[trigger] s[i2].0 == k;
        assert(s[i].0 == k);
        if i != i2 {
            if i < i2 {
                assert(key_lt(s[i].0, s[i2].0));
            } else {
                assert(key_lt(s[i2].0, s[i].0));
            }
        }
        let i3 = choose|i3: int| 0 <= i3 < d.len() && #[trigger] d[i3].0 == k;
        if i3 != i {
            if i3 < i {
                assert(key_lt(s[i3].0, s[i].0));
            } else {
                assert(key_lt(s[i].0, s[i3].0));
            }
        }
    }
    assert(map_of(d) =~= map_of(s).remove(s.last().0));
}

/// Two key-sorted listings of the same map are the same listing.
pub proof fn lemma_listing_unique<V>(a: Seq<(Seq<char>, V)>, b: Seq<(Seq<char>, V)>)
    requires
        sorted_by_key(a),
        sorted_by_key(b),
        map_of(a) == map_of(b),
    ensures
        a == b,
    decreases a.len(),
{
    lemma_key_lt_facts();
    if a.len() == 0 {
        if b.len() > 0 {
            assert(map_of(b).contains_key(b[0].0));
        }
        assert(a =~= b);
    } else if b.len() == 0 {
        assert(map_of(a).contains_key(a[0].0));
    } else {
        lemma_map_of_drop_last(a);
        lemma_map_of_drop_last(b);
        if a.last().0 != b.last().0 {
            assert(key_lt(a.last().0, b.last().0) || key_lt(b.last().0, a.last().0));
        }
        assert(a.last() == b.last());
        lemma_listing_unique(a.drop_last(), b.drop_last());
        assert(a =~= a.drop_last().push(a.last()));
        assert(b =~= b.drop_last().push(b.last()));
    }
}

/// A nonempty finite set of keys has a greatest key.
pub proof fn lemma_max_key(d: Set<Seq<char>>) -> (k: Seq<char>)
    requires
        d.finite(),
        d.len() > 0,
    ensures
        d.contains(k),
        forall|x: Seq<char>| #[trigger] d.contains(x) && x != k ==> key_lt(x, k),
    decreases d.len(),
{
    lemma_key_lt_facts();
    let x = d.choose();
    let rest = d.remove(x);
    if rest.len() == 0 {
        rest.lemma_len0_is_empty();
        assert forall|y: Seq<char>| #[trigger] d.contains(y) && y != x implies key_lt(y, x) by {
            assert(rest.contains(y));
        }
        x
    } else {
        let y = lemma_max_key(rest);
        if key_lt(x, y) {
            assert forall|z: Seq<char>| #[trigger] d.contains(z) && z != y implies key_lt(z, y) by {
                if z != x {
                    assert(rest.contains(z));
                }
            }
            y
        } else {
            assert(rest.contains(y) && !rest.contains(x));
            assert(key_lt(y, x));
            assert forall|z: Seq<char>| #[trigger] d.contains(z) && z != x implies key_lt(z, x) by {
                if z != y {
                    assert(rest.contains(z));
                    assert(key_lt(z, y));
                }
            }
            x
        }
    }
}

/// Every finite map keyed by paths has a key-sorted listing.
pub proof fn lemma_listing_exists<V>(m: Map<Seq<char>, V>)
    requires
        m.dom().finite(),
    ensures
        sorted_by_key(listing(m)),
        map_of(listing(m)) == m,
    decreases m.dom().len(),
{
    lemma_key_lt_facts();
    if m.dom().len() == 0 {
        m.dom().lemma_len0_is_empty();
        let e = Seq::<(Seq<char>, V)>::empty();
        assert(map_of(e) =~= m);
        assert(sorted_by_key(e) && map_of(e) == m);
    } else {
        let k = lemma_max_key(m.dom());
        let rest = m.remove(k);
        assert(rest.dom() =~= m.dom().remove(k));
        lemma_listing_exists(rest);
        let lr = listing(rest);
        let l = lr.push((k, m[k]));
        assert forall|i: int, j: int| 0 <= i < j < l.len() implies key_lt(#[trigger] l[i].0, #[trigger] l[j].0) by {
            if j < lr.len() {
                assert(l[i] == lr[i] && l[j] == lr[j]);
            } else {
                assert(l[i] == lr[i]);
                assert(map_of(lr).contains_key(lr[i].0));
                assert(m.dom().contains(lr[i].0) && lr[i].0 != k);
            }
        }
        lemma_map_of_drop_last(l);
        assert(l.drop_last() =~= lr);
        assert(map_of(l) =~= m) by {
            assert forall|x: Seq<char>| #[trigger] map_of(l).contains_key(x) <==> m.contains_key(x) by {
                if x != k {
                    assert(map_of(l).remove(k).contains_key(x) <==> rest.contains_key(x));
                }
            }
            assert forall|x: Seq<char>| #[trigger] map_of(l).contains_key(x) implies map_of(l)[x] == m[x] by {
                if x != k {
                    assert(map_of(l).remove(k)[x] == rest[x]);
                }
            }
        }
        assert(sorted_by_key(l) && map_of(l) == m);
    }
}

/// What a sequence with one more item contains.
pub proof fn lemma_push_contains<A>(s: Seq<A>, x: A)
    ensures
        forall|q: A| #[trigger] s.push(x).contains(q) <==> s.contains(q) || q == x,
        s.push(x).to_set() == s.to_set().insert(x),
{
    assert forall|q: A| #[trigger] s.push(x).contains(q) <==> s.contains(q) || q == x by {
        if s.contains(q) {
            let k = choose|k: int| 0 <= k < s.len() && s[k] == q;
            assert(s.push(x)[k] == q);
        }
        if q == x {
            assert(s.push(x)[s.len() as int] == q);
        }
        if s.push(x).contains(q) && q != x {
            let k = choose|k: int| 0 <= k < s.push(x).len() && s.push(x)[k] == q;
            assert(s[k] == q);
        }
    }
    assert(s.push(x).to_set() =~= s.to_set().insert(x));
}

/// A map from path strings to values, listed in increasing key order.
#[derive(Debug)]
pub struct PathMap<V> {
    entries: Vec<(String, V)>,
}

impl<V: View> View for PathMap<V> {
    type V = Map<Seq<char>, V::V>;

    closed spec fn view(&self) -> Map<Seq<char>, V::V> {
        Map::new(
            |k: Seq<char>| exists|i: int| 0 <= i < self.pairs().len() && #[trigger] self.pairs()[i].0 == k,
            |k: Seq<char>|
                self.pairs()[choose|i: int| 0 <= i < self.pairs().len() && #[trigger] self.pairs()[i].0 == k].1,
        )
    }
}

impl<V> PathMap<V> {
    /// The keys increase strictly.
    #[verifier::type_invariant]
    pub closed spec fn well_formed(&self) -> bool {
        forall|i: int, j: int|
            0 <= i < j < self.entries@.len() ==> key_lt(#[trigger] self.entries@[i].0@, #[trigger] self.entries@[j].0@)
    }

}

impl<V: View> PathMap<V> {
    /// The entries, keys and values taken by their views, in increasing key order.
    pub closed spec fn pairs(&self) -> Seq<(Seq<char>, V::V)> {
        self.entries@.map_values(|e: (String, V)| (e.0@, e.1@))
    }

    /// The keys in increasing order.
    pub open spec fn keys(&self) -> Seq<Seq<char>> {
        self.pairs().map_values(|p: (Seq<char>, V::V)| p.0)
    }

    /// The keys of the pairs increase strictly.
    pub open spec fn sorted_pairs(s: Seq<(Seq<char>, V::V)>) -> bool {
        forall|i: int, j: int| 0 <= i < j < s.len() ==> key_lt(#[trigger] s[i].0, #[trigger] s[j].0)
    }


    /// What the order of the keys gives: the pairs are the sorted listing of the map, and the map is finite.
    pub proof fn lemma_wf(&self)
        requires
            self.well_formed(),
        ensures
            Self::sorted_pairs(self.pairs()),
            sorted_by_key(self.pairs()),
            self@ == map_of(self.pairs()),
            self.pairs() == listing(self@),
            self.keys().len() == self.pairs().len(),
            forall|i: int| 0 <= i < self.pairs().len() ==> #[trigger] self.keys()[i] == self.pairs()[i].0,
            forall|i: int| 0 <= i < self.pairs().len() ==> #[trigger] self@.contains_key(self.pairs()[i].0),
            forall|i: int| 0 <= i < self.pairs().len() ==> #[trigger] self@[self.pairs()[i].0] == self.pairs()[i].1,
            forall|k: Seq<char>| #[trigger] self@.contains_key(k) ==> self.keys().contains(k),
            self@.dom().finite(),
    {
        lemma_key_lt_facts();
        let s = self.pairs();
        assert forall|i: int| 0 <= i < s.len() implies #[trigger] self@[s[i].0] == s[i].1 by {
            assert(self@.contains_key(s[i].0));
            let j = choose|j: int| 0 <= j < s.len() && #[trigger] s[j].0 == s[i].0;
            if j != i {
                if j < i {
                    assert(key_lt(self.entries@[j].0@, self.entries@[i].0@));
                } else {
                    assert(key_lt(self.entries@[i].0@, self.entries@[j].0@));
                }
            }
        }
        assert forall|k: Seq<char>| #[trigger] self@.contains_key(k) implies self.keys().contains(k) by {
            let j = choose|j: int| 0 <= j < s.len() && #[trigger] s[j].0 == k;
            assert(self.keys()[j] == k);
        }
        assert(self@.dom() =~= self.keys().to_set());
        vstd::seq_lib::seq_to_set_is_finite(self.keys());
        assert(sorted_by_key(self.pairs()));
        let l = listing(self@);
        assert(sorted_by_key(l) && map_of(l) == self@);
        lemma_listing_unique(self.pairs(), l);
    }
}


impl<V: View> PathMap<V> {
    /// An empty map.
    pub fn new() -> (m: Self)
        ensures
            m@ == Map::<Seq<char>, V::V>::empty(),
            m.pairs().len() == 0,
    {
        let m = PathMap { entries: Vec::new() };
        assert(m@ =~= Map::<Seq<char>, V::V>::empty());
        m
    }

    /// The number of entries.
    pub fn len(&self) -> (n: usize)
        ensures
            n == self.pairs().len(),
            n == self@.len(),
    {
        proof {
            use_type_invariant(self);
            self.lemma_wf();
            self.lemma_len();
        }
        self.entries.len()
    }

    /// The map has as many keys as pairs.
    proof fn lemma_len(&self)
        requires
            self.well_formed(),
        ensures
            self@.len() == self.pairs().len(),
    {
        self.lemma_wf();
        lemma_key_lt_facts();
        let ks = self.keys();
        assert(ks.no_duplicates()) by {
            assert forall|i: int, j: int| 0 <= i < ks.len() && 0 <= j < ks.len() && i != j implies ks[i] != ks[j] by {
                if i < j {
                    assert(key_lt(self.entries@[i].0@, self.entries@[j].0@));
                } else {
                    assert(key_lt(self.entries@[j].0@, self.entries@[i].0@));
                }
            }
        }
        assert(self@.dom() =~= ks.to_set());
        ks.unique_seq_to_set();
    }

    /// The entry at position `i` in key order.
    pub fn entry_at(&self, i: usize) -> (e: (&String, &V))
        requires
            i < self.pairs().len(),
        ensures
            e.0@ == self.pairs()[i as int].0,
            e.1@ == self.pairs()[i as int].1,
    {
        let e = &self.entries[i];
        (&e.0, &e.1)
    }

    /// The first position whose key does not sort before `key`.
    fn lower_bound(&self, key: &str) -> (i: usize)
        ensures
            i <= self.pairs().len(),
            forall|j: int| 0 <= j < i ==> key_lt(#[trigger] self.pairs()[j].0, key@),
            forall|j: int| i <= j < self.pairs().len() ==> !key_lt(#[trigger] self.pairs()[j].0, key@),
    {
        proof {
            use_type_invariant(self);
            self.lemma_wf();
            lemma_key_lt_facts();
        }
        let mut i: usize = 0;
        while i < self.entries.len()
            invariant
                i <= self.pairs().len(),
                self.pairs().len() == self.entries@.len(),
                Self::sorted_pairs(self.pairs()),
                forall|j: int| 0 <= j < i ==> key_lt(#[trigger] self.pairs()[j].0, key@),
            decreases self.entries.len() - i,
        {
            if !key_less(self.entries[i].0.as_str(), key) {
                assert(self.pairs()[i as int].0 == self.entries@[i as int].0@);
                assert forall|j: int| i <= j < self.pairs().len() implies !key_lt(#[trigger] self.pairs()[j].0, key@) by {
                    lemma_key_lt_facts();
                    if j > i {
                        assert(key_lt(self.pairs()[i as int].0, self.pairs()[j].0));
                    }
                }
                return i;
            }
            i = i + 1;
        }
        i
    }

    /// The position of `key`, if it is present.
    pub fn find(&self, key: &str) -> (r: Option<usize>)
        ensures
            r matches Some(i) ==> i < self.pairs().len() && self.pairs()[i as int].0 == key@,
            r is Some <==> self@.contains_key(key@),
    {
        proof {
            use_type_invariant(self);
            self.lemma_wf();
            lemma_key_lt_facts();
        }
        let i = self.lower_bound(key);
        if i < self.entries.len() && !key_less(key, self.entries[i].0.as_str()) {
            assert(self.pairs()[i as int].0 == key@);
            Some(i)
        } else {
            assert forall|j: int| 0 <= j < self.pairs().len() implies #[trigger] self.pairs()[j].0 != key@ by {
                if j >= i {
                    assert(key_lt(key@, self.pairs()[i as int].0));
                    if j > i {
                        assert(key_lt(self.pairs()[i as int].0, self.pairs()[j].0));
                    }
                }
            }
            None
        }
    }

    /// Whether `key` is present.
    pub fn contains_key(&self, key: &str) -> (r: bool)
        ensures
            r == self@.contains_key(key@),
    {
        self.find(key).is_some()
    }

    /// The value for `key`, if it is present.
    pub fn get(&self, key: &str) -> (r: Option<&V>)
        ensures
            r is Some <==> self@.contains_key(key@),
            r matches Some(v) ==> v@ == self@[key@],
    {
        proof {
            use_type_invariant(self);
            self.lemma_wf();
        }
        match self.find(key) {
            Some(i) => Some(&self.entries[i].1),
            None => None,
        }
    }

    /// The value for the key spelled by `key`, if it is present.
    pub fn get_chars(&self, key: &Vec<char>) -> (r: Option<&V>)
        ensures
            r is Some <==> self@.contains_key(key@),
            r matches Some(v) ==> v@ == self@[key@],
    {
        proof {
            use_type_invariant(self);
            self.lemma_wf();
        }
        let mut i: usize = 0;
        while i < self.entries.len()
            invariant
                i <= self.pairs().len(),
                self.pairs().len() == self.entries@.len(),
                forall|j: int| 0 <= j < i ==> #[trigger] self.pairs()[j].0 != key@,
            decreases self.entries.len() - i,
        {
            assert(self.pairs()[i as int].0 == self.entries@[i as int].0@);
            if crate::path::chars_eq(key, self.entries[i].0.as_str()) {
                proof {
                    use_type_invariant(self);
                    self.lemma_wf();
                }
                assert(self.pairs()[i as int].1 == self.entries@[i as int].1@);
                return Some(&self.entries[i].1);
            }
            i = i + 1;
        }
        proof {
            use_type_invariant(self);
            self.lemma_wf();
            if self@.contains_key(key@) {
                assert(self.keys().contains(key@));
                let j = choose|j: int| 0 <= j < self.keys().len() && self.keys()[j] == key@;
                assert(self.pairs()[j].0 == key@);
            }
        }
        None
    }

    /// Sets the value of `key`, replacing any earlier value.
    pub fn insert(&mut self, key: String, value: V)
        ensures
            final(self)@ == old(self)@.insert(key@, value@),
    {
        proof {
            use_type_invariant(&*self);
            self.lemma_wf();
            lemma_key_lt_facts();
        }
        let ghost old_pairs = self.pairs();
        let ghost old_map = self@;
        let ghost k = key@;
        let ghost v = value@;
        let i = self.lower_bound(key.as_str());
        if i < self.entries.len() && !key_less(key.as_str(), self.entries[i].0.as_str()) {
            assert(old_pairs[i as int].0 == k);
            let mut es: Vec<(String, V)> = Vec::new();
            std::mem::swap(&mut es, &mut self.entries);
            es.set(i, (key, value));
            self.entries = es;
            proof {
                use_type_invariant(&*self);
                self.lemma_wf();
                assert(self.pairs() =~= old_pairs.update(i as int, (k, v)));
                assert forall|x: Seq<char>| #[trigger] self@.contains_key(x) <==> old_map.insert(k, v).contains_key(x) by {
                    if old_map.contains_key(x) {
                        let j = choose|j: int| 0 <= j < old_pairs.len() && #[trigger] old_pairs[j].0 == x;
                        assert(self.pairs()[j].0 == x);
                    }
                    if self@.contains_key(x) {
                        let j = choose|j: int| 0 <= j < self.pairs().len() && #[trigger] self.pairs()[j].0 == x;
                        if j != i {
                            assert(old_pairs[j].0 == x);
                        }
                    }
                }
                assert forall|x: Seq<char>| #[trigger] self@.contains_key(x) implies self@[x] == old_map.insert(k, v)[x] by {
                    let j = choose|j: int| 0 <= j < self.pairs().len() && #[trigger] self.pairs()[j].0 == x;
                    if j != i {
                        assert(old_pairs[j].0 == x);
                        assert(old_map[x] == old_pairs[j].1);
                    }
                }
                assert(self@ =~= old_map.insert(k, v));
            }
        } else {
            assert forall|j: int| i <= j < old_pairs.len() implies key_lt(k, #[trigger] old_pairs[j].0) by {
                assert(!key_lt(old_pairs[j].0, k));
                if j == i {
                    assert(key_lt(k, old_pairs[i as int].0));
                } else {
                    assert(key_lt(k, old_pairs[i as int].0));
                    assert(key_lt(old_pairs[i as int].0, old_pairs[j].0));
                }
            }
            let mut es: Vec<(String, V)> = Vec::new();
            std::mem::swap(&mut es, &mut self.entries);
            es.insert(i, (key, value));
            proof {
                assert forall|a: int, b: int| 0 <= a < b < es@.len() implies key_lt(#[trigger] es@[a].0@, #[trigger] es@[b].0@) by {
                    if b < i {
                        assert(old_pairs[a].0 == es@[a].0@ && old_pairs[b].0 == es@[b].0@);
                    } else if a > i {
                        assert(old_pairs[a - 1].0 == es@[a].0@ && old_pairs[b - 1].0 == es@[b].0@);
                    } else if a == i {
                        assert(old_pairs[b - 1].0 == es@[b].0@);
                    } else if b == i {
                        assert(old_pairs[a].0 == es@[a].0@);
                        assert(key_lt(old_pairs[a].0, k));
                    } else {
                        assert(old_pairs[a].0 == es@[a].0@ && old_pairs[b - 1].0 == es@[b].0@);
                    }
                }
            }
            self.entries = es;
            proof {
                assert(self.pairs() =~= old_pairs.insert(i as int, (k, v)));
                use_type_invariant(&*self);
                self.lemma_wf();
                assert forall|x: Seq<char>| #[trigger] self@.contains_key(x) <==> old_map.insert(k, v).contains_key(x) by {
                    if old_map.contains_key(x) {
                        let j = choose|j: int| 0 <= j < old_pairs.len() && #[trigger] old_pairs[j].0 == x;
                        if j < i {
                            assert(self.pairs()[j].0 == x);
                        } else {
                            assert(self.pairs()[j + 1].0 == x);
                        }
                    }
                    if x == k {
                        assert(self.pairs()[i as int].0 == x);
                    }
                    if self@.contains_key(x) {
                        let j = choose|j: int| 0 <= j < self.pairs().len() && #[trigger] self.pairs()[j].0 == x;
                        if j < i {
                            assert(old_pairs[j].0 == x);
                        } else if j > i {
                            assert(old_pairs[j - 1].0 == x);
                        }
                    }
                }
                assert forall|x: Seq<char>| #[trigger] self@.contains_key(x) implies self@[x] == old_map.insert(k, v)[x] by {
                    let j = choose|j: int| 0 <= j < self.pairs().len() && #[trigger] self.pairs()[j].0 == x;
                    if j < i {
                        assert(old_pairs[j].0 == x);
                        assert(old_map[x] == old_pairs[j].1);
                    } else if j > i {
                        assert(old_pairs[j - 1].0 == x);
                        assert(old_map[x] == old_pairs[j - 1].1);
                    }
                }
                assert(self@ =~= old_map.insert(k, v));
            }
        }
    }

    /// Removes `key`, giving back its value if it was present.
    pub fn remove(&mut self, key: &str) -> (r: Option<V>)
        ensures
            final(self)@ == old(self)@.remove(key@),
            r is Some <==> old(self)@.contains_key(key@),
            r matches Some(v) ==> v@ == old(self)@[key@],
    {
        proof {
            use_type_invariant(&*self);
            self.lemma_wf();
            lemma_key_lt_facts();
        }
        let ghost old_pairs = self.pairs();
        let ghost old_map = self@;
        match self.find(key) {
            None => {
                assert(self@ =~= old_map.remove(key@));
                None
            },
            Some(i) => {
                let mut es: Vec<(String, V)> = Vec::new();
                std::mem::swap(&mut es, &mut self.entries);
                let e = es.remove(i);
                self.entries = es;
                proof {
                    assert(self.pairs() =~= old_pairs.remove(i as int));
                    use_type_invariant(&*self);
                    self.lemma_wf();
                    assert forall|x: Seq<char>| #[trigger] self@.contains_key(x) <==> old_map.remove(key@).contains_key(x) by {
                        if old_map.contains_key(x) && x != key@ {
                            let j = choose|j: int| 0 <= j < old_pairs.len() && #[trigger] old_pairs[j].0 == x;
                            if j < i {
                                assert(self.pairs()[j].0 == x);
                            } else {
                                assert(self.pairs()[j - 1].0 == x);
                            }
                        }
                        if self@.contains_key(x) {
                            let j = choose|j: int| 0 <= j < self.pairs().len() && #[trigger] self.pairs()[j].0 == x;
                            if j < i {
                                assert(old_pairs[j].0 == x);
                                assert(key_lt(old_pairs[j].0, old_pairs[i as int].0));
                            } else {
                                assert(old_pairs[j + 1].0 == x);
                                assert(key_lt(old_pairs[i as int].0, old_pairs[j + 1].0));
                            }
                        }
                    }
                    assert forall|x: Seq<char>| #[trigger] self@.contains_key(x) implies self@[x] == old_map.remove(key@)[x] by {
                        let j = choose|j: int| 0 <= j < self.pairs().len() && #[trigger] self.pairs()[j].0 == x;
                        if j < i {
                            assert(old_pairs[j].0 == x);
                            assert(old_map[x] == old_pairs[j].1);
                        } else {
                            assert(old_pairs[j + 1].0 == x);
                            assert(old_map[x] == old_pairs[j + 1].1);
                        }
                    }
                    assert(self@ =~= old_map.remove(key@));
                }
                Some(e.1)
            },
        }
    }
}

impl PathMap<String> {
    /// A copy of the map.
    pub fn duplicate(&self) -> (r: Self)
        ensures
            r@ == self@,
            r.pairs() == self.pairs(),
    {
        proof {
            use_type_invariant(self);
        }
        let mut entries: Vec<(String, String)> = Vec::new();
        let mut i: usize = 0;
        while i < self.entries.len()
            invariant
                i <= self.entries@.len(),
                self.well_formed(),
                entries@.len() == i,
                forall|j: int| 0 <= j < i ==> #[trigger] entries@[j].0@ == self.entries@[j].0@ && entries@[j].1@ == self.entries@[j].1@,
            decreases self.entries.len() - i,
        {
            let e = &self.entries[i];
            entries.push((e.0.clone(), e.1.clone()));
            i = i + 1;
        }
        assert forall|a: int, b: int| 0 <= a < b < entries@.len() implies key_lt(#[trigger] entries@[a].0@, #[trigger] entries@[b].0@) by {
            assert(entries@[a].0@ == self.entries@[a].0@);
            assert(entries@[b].0@ == self.entries@[b].0@);
        }
        let r = PathMap { entries };
        assert(r.pairs() =~= self.pairs());
        r
    }

    /// Whether the two maps hold the same entries.
    pub fn same_entries(&self, other: &Self) -> (r: bool)
        ensures
            r == (self@ == other@),
    {
        proof {
            use_type_invariant(self);
            use_type_invariant(other);
            self.lemma_wf();
            other.lemma_wf();
        }
        let mut i: usize = 0;
        while i < self.entries.len()
            invariant
                i <= self.entries@.len(),
                self.well_formed(),
                other.well_formed(),
                forall|j: int| 0 <= j < i ==> #[trigger] other@.contains_key(self.pairs()[j].0) && other@[self.pairs()[j].0] == self.pairs()[j].1,
            decreases self.entries.len() - i,
        {
            proof {
                self.lemma_wf();
            }
            let e = &self.entries[i];
            assert(self.pairs()[i as int] == (e.0@, e.1@));
            match other.get(e.0.as_str()) {
                Some(v) => {
                    if !(*v == e.1) {
                        assert(self@.contains_key(self.pairs()[i as int].0));
                        assert(self@[self.pairs()[i as int].0] == self.pairs()[i as int].1);
                        assert(self@[e.0@] != other@[e.0@]);
                        return false;
                    }
                },
                None => {
                    assert(self@.contains_key(self.pairs()[i as int].0));
                    return false;
                },
            }
            let ghost done = i as int;
            assert(other@.contains_key(self.pairs()[done].0) && other@[self.pairs()[done].0] == self.pairs()[done].1);
            i = i + 1;
            assert forall|j: int| 0 <= j < i implies #[trigger] other@.contains_key(self.pairs()[j].0) && other@[self.pairs()[j].0] == self.pairs()[j].1 by {
                if j < done {
                } else {
                    assert(j == done);
                }
            }
        }
        let mut k: usize = 0;
        while k < other.entries.len()
            invariant
                k <= other.entries@.len(),
                self.well_formed(),
                other.well_formed(),
                forall|j: int| 0 <= j < k ==> #[trigger] self@.contains_key(other.pairs()[j].0),
            decreases other.entries.len() - k,
        {
            proof {
                other.lemma_wf();
            }
            let e = &other.entries[k];
            assert(other.pairs()[k as int] == (e.0@, e.1@));
            if !self.contains_key(e.0.as_str()) {
                assert(other@.contains_key(other.pairs()[k as int].0));
                return false;
            }
            k = k + 1;
        }
        proof {
            self.lemma_wf();
            other.lemma_wf();
            assert forall|x: Seq<char>| #[trigger] self@.contains_key(x) implies other@.contains_key(x) && other@[x] == self@[x] by {
                let j = choose|j: int| 0 <= j < self.pairs().len() && #[trigger] self.pairs()[j].0 == x;
                assert(other@.contains_key(self.pairs()[j].0) && other@[self.pairs()[j].0] == self.pairs()[j].1);
                assert(self@[self.pairs()[j].0] == self.pairs()[j].1);
            }
            assert forall|x: Seq<char>| #[trigger] other@.contains_key(x) implies self@.contains_key(x) by {
                let j = choose|j: int| 0 <= j < other.pairs().len() && #[trigger] other.pairs()[j].0 == x;
            }
            assert(self@ =~= other@);
        }
        true
    }
}
} // verus!
