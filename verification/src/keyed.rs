//! Ordered maps for the correction store: one keyed by text, one keyed by
//! room keys. Both keep their entries sorted by key, each key once, so
//! walking them visits keys in order, as a saved file lists them.

use vstd::prelude::*;

use crate::overrides::{RoomKey, key_lt};
use crate::text::chars_of;

verus! {

/// Lexicographic order on character sequences: the order `String`
/// compares in.
pub open spec fn text_lt(a: Seq<char>, b: Seq<char>) -> bool
    decreases a.len(),
{
    if a.len() == 0 {
        b.len() > 0
    } else if b.len() == 0 {
        false
    } else if a[0] != b[0] {
        a[0] < b[0]
    } else {
        text_lt(a.drop_first(), b.drop_first())
    }
}

pub proof fn lemma_text_lt_irreflexive(a: Seq<char>)
    ensures
        !text_lt(a, a),
    decreases a.len(),
{
    if a.len() > 0 {
        lemma_text_lt_irreflexive(a.drop_first());
    }
}

pub proof fn lemma_text_lt_transitive(a: Seq<char>, b: Seq<char>, c: Seq<char>)
    requires
        text_lt(a, b),
        text_lt(b, c),
    ensures
        text_lt(a, c),
    decreases a.len(),
{
    if a.len() > 0 && b.len() > 0 && c.len() > 0 && a[0] == b[0] && b[0] == c[0] {
        lemma_text_lt_transitive(a.drop_first(), b.drop_first(), c.drop_first());
    }
}

pub proof fn lemma_text_lt_total(a: Seq<char>, b: Seq<char>)
    ensures
        a == b || text_lt(a, b) || text_lt(b, a),
    decreases a.len(),
{
    if a.len() > 0 && b.len() > 0 && a[0] == b[0] {
        lemma_text_lt_total(a.drop_first(), b.drop_first());
        if a.drop_first() == b.drop_first() {
            assert(a =~= seq![a[0]] + a.drop_first());
            assert(b =~= seq![b[0]] + b.drop_first());
        }
    } else if a.len() == 0 && b.len() == 0 {
        assert(a =~= b);
    }
}

pub proof fn lemma_text_lt_asymmetric(a: Seq<char>, b: Seq<char>)
    requires
        text_lt(a, b),
    ensures
        !text_lt(b, a),
{
    if text_lt(b, a) {
        lemma_text_lt_transitive(a, b, a);
        lemma_text_lt_irreflexive(a);
    }
}

/// Whether `a` sorts before `b`.
pub fn text_less(a: &str, b: &str) -> (r: bool)
    ensures
        r == text_lt(a@, b@),
{
    let va = chars_of(a);
    let vb = chars_of(b);
    let mut i: usize = 0;
    assert(va@.skip(0) =~= va@);
    assert(vb@.skip(0) =~= vb@);
    while i < va.len() && i < vb.len() && va[i] == vb[i]
        invariant
            i <= va@.len(),
            i <= vb@.len(),
            text_lt(a@, b@) == text_lt(va@.skip(i as int), vb@.skip(i as int)),
            va@ == a@,
            vb@ == b@,
        decreases va.len() - i,
    {
        assert(va@.skip(i as int).drop_first() =~= va@.skip(i + 1));
        assert(vb@.skip(i as int).drop_first() =~= vb@.skip(i + 1));
        i = i + 1;
    }
    if i == va.len() {
        i < vb.len()
    } else if i == vb.len() {
        false
    } else {
        assert(va@.skip(i as int)[0] == va@[i as int]);
        assert(vb@.skip(i as int)[0] == vb@[i as int]);
        va[i] < vb[i]
    }
}

/// The map a sequence of key-value pairs describes, each key once.
pub open spec fn pairs_to_map<K, V>(p: Seq<(K, V)>) -> Map<K, V> {
    Map::new(
        |k: K| exists|i: int| 0 <= i < p.len() && #[trigger] p[i].0 == k,
        |k: K| p[choose|i: int| 0 <= i < p.len() && #[trigger] p[i].0 == k].1,
    )
}

/// No key appears twice.
pub open spec fn keys_distinct<K, V>(p: Seq<(K, V)>) -> bool {
    forall|i: int, j: int|
        0 <= i < p.len() && 0 <= j < p.len() && i != j ==> #[trigger] p[i].0 != #[trigger] p[j].0
}

pub proof fn lemma_pairs_index<K, V>(p: Seq<(K, V)>, i: int)
    requires
        keys_distinct(p),
        0 <= i < p.len(),
    ensures
        pairs_to_map(p).contains_key(p[i].0),
        pairs_to_map(p)[p[i].0] == p[i].1,
{
    let k = p[i].0;
    assert(exists|j: int| 0 <= j < p.len() && #[trigger] p[j].0 == k);
    let j = choose|j: int| 0 <= j < p.len() && #[trigger] p[j].0 == k;
    if j != i {
        assert(p[i].0 != p[j].0);
    }
}

pub proof fn lemma_pairs_absent<K, V>(p: Seq<(K, V)>, k: K)
    requires
        forall|i: int| 0 <= i < p.len() ==> #[trigger] p[i].0 != k,
    ensures
        !pairs_to_map(p).contains_key(k),
{
}

/// Two distinct-key sequences that agree key by key describe one map.
pub proof fn lemma_pairs_ext<K, V>(p: Seq<(K, V)>, m: Map<K, V>)
    requires
        keys_distinct(p),
        forall|i: int| 0 <= i < p.len() ==> m.contains_key(#[trigger] p[i].0) && m[p[i].0] == p[i].1,
        forall|k: K| m.contains_key(k) ==> exists|i: int| 0 <= i < p.len() && #[trigger] p[i].0 == k,
    ensures
        pairs_to_map(p) == m,
{
    assert forall|k: K| #[trigger] pairs_to_map(p).contains_key(k) <==> m.contains_key(k) by {
        if m.contains_key(k) {
            let i = choose|i: int| 0 <= i < p.len() && #[trigger] p[i].0 == k;
            lemma_pairs_index(p, i);
        }
    }
    assert forall|k: K| #[trigger] m.contains_key(k) implies pairs_to_map(p)[k] == m[k] by {
        let i = choose|i: int| 0 <= i < p.len() && #[trigger] p[i].0 == k;
        lemma_pairs_index(p, i);
    }
    assert(pairs_to_map(p) =~= m);

}

/// Keys strictly increasing in text order.
pub open spec fn text_sorted<V>(p: Seq<(Seq<char>, V)>) -> bool {
    forall|i: int, j: int| 0 <= i < j < p.len() ==> text_lt(#[trigger] p[i].0, #[trigger] p[j].0)
}

proof fn lemma_text_sorted_distinct<V>(p: Seq<(Seq<char>, V)>)
    requires
        text_sorted(p),
    ensures
        keys_distinct(p),
{
    assert forall|i: int, j: int|
        0 <= i < p.len() && 0 <= j < p.len() && i != j implies #[trigger] p[i].0
        != #[trigger] p[j].0 by {
        if i < j {
            lemma_text_lt_irreflexive(p[i].0);
        } else {
            lemma_text_lt_irreflexive(p[j].0);
        }
    }
}

/// A map keyed by text, its entries sorted by key.
pub struct TextMap<V> {
    entries: Vec<(String, V)>,
}

impl<V> TextMap<V> {
    /// The entries, in key order.
    pub closed spec fn pairs(&self) -> Seq<(Seq<char>, V)> {
        self.entries@.map_values(|e: (String, V)| (e.0@, e.1))
    }

    #[verifier::type_invariant]
    spec fn sorted(&self) -> bool {
        text_sorted(self.pairs())
    }

    pub closed spec fn view(&self) -> Map<Seq<char>, V> {
        pairs_to_map(self.pairs())
    }

    /// The entries are sorted, each key once, and describe the map.
    pub fn facts(&self)
        ensures
            text_sorted(self.pairs()),
            keys_distinct(self.pairs()),
            self.view() == pairs_to_map(self.pairs()),
    {
        proof {
            use_type_invariant(self);
            lemma_text_sorted_distinct(self.pairs());
        }
    }

    pub fn new() -> (r: Self)
        ensures
            r.pairs().len() == 0,
            r.view() == Map::<Seq<char>, V>::empty(),
    {
        let r = TextMap { entries: Vec::new() };
        assert(r.view() =~= Map::<Seq<char>, V>::empty());
        r
    }

    pub fn len(&self) -> (n: usize)
        ensures
            n == self.pairs().len(),
    {
        self.entries.len()
    }

    pub fn is_empty(&self) -> (b: bool)
        ensures
            b == (self.pairs().len() == 0),
            b == (self.view() == Map::<Seq<char>, V>::empty()),
    {
        proof {
            if self.pairs().len() > 0 {
                use_type_invariant(self);
                lemma_text_sorted_distinct(self.pairs());
                lemma_pairs_index(self.pairs(), 0);
                assert(self.view().contains_key(self.pairs()[0].0));
            } else {
                assert(self.view() =~= Map::<Seq<char>, V>::empty());
            }
        }
        self.entries.len() == 0
    }

    /// The key at position `i` in key order.
    pub fn key_at(&self, i: usize) -> (k: &String)
        requires
            i < self.pairs().len(),
        ensures
            k@ == self.pairs()[i as int].0,
    {
        &self.entries[i].0
    }

    /// The value at position `i` in key order.
    pub fn value_at(&self, i: usize) -> (v: &V)
        requires
            i < self.pairs().len(),
        ensures
            *v == self.pairs()[i as int].1,
    {
        &self.entries[i].1
    }

    /// Where `k` is, or where it would go.
    fn position(&self, k: &str) -> (r: (usize, bool))
        ensures
            r.0 <= self.pairs().len(),
            forall|i: int| 0 <= i < r.0 ==> text_lt(#[trigger] self.pairs()[i].0, k@),
            r.1 ==> r.0 < self.pairs().len() && self.pairs()[r.0 as int].0 == k@,
            !r.1 ==> forall|i: int|
                r.0 <= i < self.pairs().len() ==> text_lt(k@, #[trigger] self.pairs()[i].0),
    {
        proof {
            use_type_invariant(self);
        }
        let n = self.entries.len();
        let mut i: usize = 0;
        while i < n && text_less(self.entries[i].0.as_str(), k)
            invariant
                i <= n,
                n == self.pairs().len(),
                text_sorted(self.pairs()),
                forall|j: int| 0 <= j < i ==> text_lt(#[trigger] self.pairs()[j].0, k@),
            decreases n - i,
        {
            i = i + 1;
        }
        if i < n {
            let found = crate::text::same_text(self.entries[i].0.as_str(), k);
            proof {
                if !found {
                    lemma_text_lt_total(self.pairs()[i as int].0, k@);
                    assert forall|j: int| i <= j < self.pairs().len() implies text_lt(
                        k@,
                        #[trigger] self.pairs()[j].0,
                    ) by {
                        if j > i {
                            lemma_text_lt_transitive(k@, self.pairs()[i as int].0, self.pairs()[j].0);
                        }
                    }
                }
            }
            (i, found)
        } else {
            (i, false)
        }
    }

    pub fn get(&self, k: &str) -> (r: Option<&V>)
        ensures
            r is Some <==> self.view().contains_key(k@),
            r matches Some(v) ==> *v == self.view()[k@],
    {
        proof {
            use_type_invariant(self);
            lemma_text_sorted_distinct(self.pairs());
        }
        let (i, found) = self.position(k);
        if found {
            proof {
                lemma_pairs_index(self.pairs(), i as int);
            }
            Some(&self.entries[i].1)
        } else {
            proof {
                assert forall|j: int| 0 <= j < self.pairs().len() implies #[trigger] self.pairs()[j].0
                    != k@ by {
                    if j < i {
                        lemma_text_lt_irreflexive(k@);
                    } else {
                        lemma_text_lt_irreflexive(k@);
                    }
                }
                lemma_pairs_absent(self.pairs(), k@);
            }
            None
        }
    }

    /// The position of `k` in key order, when it is present.
    pub fn index_of(&self, k: &str) -> (r: Option<usize>)
        ensures
            r is Some <==> self.view().contains_key(k@),
            r matches Some(i) ==> i < self.pairs().len() && self.pairs()[i as int].0 == k@,
    {
        proof {
            use_type_invariant(self);
            lemma_text_sorted_distinct(self.pairs());
        }
        let (i, found) = self.position(k);
        if found {
            proof {
                lemma_pairs_index(self.pairs(), i as int);
            }
            Some(i)
        } else {
            proof {
                assert forall|j: int| 0 <= j < self.pairs().len() implies #[trigger] self.pairs()[j].0
                    != k@ by {
                    lemma_text_lt_irreflexive(k@);
                }
                lemma_pairs_absent(self.pairs(), k@);
            }
            None
        }
    }

    pub fn contains_key(&self, k: &str) -> (b: bool)
        ensures
            b == self.view().contains_key(k@),
    {
        match self.get(k) {
            Some(_) => true,
            None => false,
        }
    }

    /// Sets `k` to `v`, returning what it held before.
    pub fn insert(&mut self, k: String, v: V) -> (r: Option<V>)
        ensures
            final(self).view() == old(self).view().insert(k@, v),
            r is Some <==> old(self).view().contains_key(k@),
            r matches Some(w) ==> w == old(self).view()[k@],
    {
        proof {
            use_type_invariant(&*self);
            lemma_text_sorted_distinct(self.pairs());
        }
        let ghost old_pairs = self.pairs();
        let (i, found) = self.position(k.as_str());
        if found {
            proof {
                lemma_pairs_index(old_pairs, i as int);
            }
            let mut entries = Vec::new();
            std::mem::swap(&mut entries, &mut self.entries);
            let (old_key, old_value) = entries.remove(i);
            entries.insert(i, (old_key, v));
            assert(entries@.map_values(|e: (String, V)| (e.0@, e.1)) =~= old_pairs.update(
                i as int,
                (k@, v),
            ));
            proof {
                let p = entries@.map_values(|e: (String, V)| (e.0@, e.1));
                assert forall|a: int, b: int| 0 <= a < b < p.len() implies text_lt(
                    #[trigger] p[a].0,
                    #[trigger] p[b].0,
                ) by {
                    assert(p[a].0 == old_pairs[a].0);
                    assert(p[b].0 == old_pairs[b].0);
                }
                lemma_text_sorted_distinct(p);
                assert forall|j: int| 0 <= j < p.len() implies old(self).view().insert(k@, v).contains_key(
                    #[trigger] p[j].0,
                ) && old(self).view().insert(k@, v)[p[j].0] == p[j].1 by {
                    if j != i {
                        lemma_pairs_index(old_pairs, j);
                    }
                }
                assert forall|key: Seq<char>| old(self).view().insert(k@, v).contains_key(
                    key,
                ) implies exists|j: int| 0 <= j < p.len() && #[trigger] p[j].0 == key by {
                    if key != k@ {
                        let j = choose|j: int| 0 <= j < old_pairs.len() && #[trigger] old_pairs[j].0 == key;
                        assert(p[j].0 == key);
                    } else {
                        assert(p[i as int].0 == key);
                    }
                }
                lemma_pairs_ext(p, old(self).view().insert(k@, v));
            }
            self.entries = entries;
            Some(old_value)
        } else {
            let ghost kv = k@;
            proof {
                assert forall|j: int| 0 <= j < old_pairs.len() implies #[trigger] old_pairs[j].0
                    != kv by {
                    lemma_text_lt_irreflexive(kv);
                }
                lemma_pairs_absent(old_pairs, kv);
            }
            let mut entries = Vec::new();
            std::mem::swap(&mut entries, &mut self.entries);
            entries.insert(i, (k, v));
            assert(entries@.map_values(|e: (String, V)| (e.0@, e.1)) =~= old_pairs.insert(
                i as int,
                (kv, v),
            ));
            proof {
                let p = entries@.map_values(|e: (String, V)| (e.0@, e.1));
                assert forall|a: int, b: int| 0 <= a < b < p.len() implies text_lt(
                    #[trigger] p[a].0,
                    #[trigger] p[b].0,
                ) by {
                    if a < i && b > i {
                        lemma_text_lt_transitive(old_pairs[a].0, kv, old_pairs[b - 1].0);
                    }
                }
                lemma_text_sorted_distinct(p);
                assert forall|j: int| 0 <= j < p.len() implies old(self).view().insert(kv, v).contains_key(
                    #[trigger] p[j].0,
                ) && old(self).view().insert(kv, v)[p[j].0] == p[j].1 by {
                    if j < i {
                        lemma_pairs_index(old_pairs, j);
                    } else if j > i {
                        lemma_pairs_index(old_pairs, j - 1);
                    }
                }
                assert forall|key: Seq<char>| old(self).view().insert(kv, v).contains_key(
                    key,
                ) implies exists|j: int| 0 <= j < p.len() && #[trigger] p[j].0 == key by {
                    if key != kv {
                        let j = choose|j: int| 0 <= j < old_pairs.len() && #[trigger] old_pairs[j].0 == key;
                        if j < i {
                            assert(p[j].0 == key);
                        } else {
                            assert(p[j + 1].0 == key);
                        }
                    } else {
                        assert(p[i as int].0 == key);
                    }
                }
                lemma_pairs_ext(p, old(self).view().insert(kv, v));
            }
            self.entries = entries;
            None
        }
    }

    /// Removes `k`, returning what it held.
    pub fn remove(&mut self, k: &str) -> (r: Option<V>)
        ensures
            final(self).view() == old(self).view().remove(k@),
            r is Some <==> old(self).view().contains_key(k@),
            r matches Some(w) ==> w == old(self).view()[k@],
    {
        proof {
            use_type_invariant(&*self);
            lemma_text_sorted_distinct(self.pairs());
        }
        let ghost old_pairs = self.pairs();
        let (i, found) = self.position(k);
        if !found {
            proof {
                assert forall|j: int| 0 <= j < old_pairs.len() implies #[trigger] old_pairs[j].0
                    != k@ by {
                    lemma_text_lt_irreflexive(k@);
                }
                lemma_pairs_absent(old_pairs, k@);
                assert(old(self).view().remove(k@) =~= old(self).view());
            }
            return None;
        }
        proof {
            lemma_pairs_index(old_pairs, i as int);
        }
        let mut entries = Vec::new();
            std::mem::swap(&mut entries, &mut self.entries);
        let (_, old_value) = entries.remove(i);
        assert(entries@.map_values(|e: (String, V)| (e.0@, e.1)) =~= old_pairs.remove(i as int));
        proof {
            let p = entries@.map_values(|e: (String, V)| (e.0@, e.1));
            assert forall|a: int, b: int| 0 <= a < b < p.len() implies text_lt(
                #[trigger] p[a].0,
                #[trigger] p[b].0,
            ) by {
                if a < i && b >= i {
                    assert(old_pairs[a].0 == p[a].0);
                    assert(old_pairs[b + 1].0 == p[b].0);
                } else if a >= i {
                    assert(old_pairs[a + 1].0 == p[a].0);
                    assert(old_pairs[b + 1].0 == p[b].0);
                }
            }
            lemma_text_sorted_distinct(p);
            let m = old(self).view().remove(k@);
            assert forall|j: int| 0 <= j < p.len() implies m.contains_key(#[trigger] p[j].0) && m[p[j].0]
                == p[j].1 by {
                let oj = if j < i {
                    j
                } else {
                    j + 1
                };
                lemma_pairs_index(old_pairs, oj);
                assert(old_pairs[oj].0 != old_pairs[i as int].0);
            }
            assert forall|key: Seq<char>| m.contains_key(key) implies exists|j: int|
                0 <= j < p.len() && #[trigger] p[j].0 == key by {
                let j = choose|j: int| 0 <= j < old_pairs.len() && #[trigger] old_pairs[j].0 == key;
                if j < i {
                    assert(p[j].0 == key);
                } else {
                    assert(j != i);
                    assert(p[j - 1].0 == key);
                }
            }
            lemma_pairs_ext(p, m);
        }
        self.entries = entries;
        Some(old_value)
    }

    /// Replaces the value at position `i`, keeping its key.
    pub fn set_value_at(&mut self, i: usize, v: V)
        requires
            i < old(self).pairs().len(),
        ensures
            final(self).pairs() == old(self).pairs().update(i as int, (old(self).pairs()[i as int].0, v)),
            final(self).view() == old(self).view().insert(old(self).pairs()[i as int].0, v),
    {
        proof {
            use_type_invariant(&*self);
            lemma_text_sorted_distinct(self.pairs());
        }
        let ghost old_pairs = self.pairs();
        let mut entries = Vec::new();
        std::mem::swap(&mut entries, &mut self.entries);
        let (key, _) = entries.remove(i);
        entries.insert(i, (key, v));
        proof {
            let p = entries@.map_values(|e: (String, V)| (e.0@, e.1));
            assert(p =~= old_pairs.update(i as int, (old_pairs[i as int].0, v)));
            assert forall|a: int, b: int| 0 <= a < b < p.len() implies text_lt(
                #[trigger] p[a].0,
                #[trigger] p[b].0,
            ) by {
                assert(p[a].0 == old_pairs[a].0);
                assert(p[b].0 == old_pairs[b].0);
            }
            lemma_text_sorted_distinct(p);
            let k = old_pairs[i as int].0;
            let m = old(self).view().insert(k, v);
            assert forall|j: int| 0 <= j < p.len() implies m.contains_key(#[trigger] p[j].0) && m[p[j].0]
                == p[j].1 by {
                if j != i {
                    lemma_pairs_index(old_pairs, j);
                }
            }
            assert forall|key: Seq<char>| m.contains_key(key) implies exists|j: int|
                0 <= j < p.len() && #[trigger] p[j].0 == key by {
                if key != k {
                    let j = choose|j: int| 0 <= j < old_pairs.len() && #[trigger] old_pairs[j].0 == key;
                    assert(p[j].0 == key);
                } else {
                    assert(p[i as int].0 == key);
                }
            }
            lemma_pairs_ext(p, m);
        }
        self.entries = entries;
    }
}

/// Keys strictly increasing in room-key order.
pub open spec fn key_sorted<V>(p: Seq<(RoomKey, V)>) -> bool {
    forall|i: int, j: int| 0 <= i < j < p.len() ==> key_lt(#[trigger] p[i].0, #[trigger] p[j].0)
}

proof fn lemma_key_sorted_distinct<V>(p: Seq<(RoomKey, V)>)
    requires
        key_sorted(p),
    ensures
        keys_distinct(p),
{
}

/// A map keyed by room keys, its entries sorted by key.
pub struct KeyMap<V> {
    entries: Vec<(RoomKey, V)>,
}

impl<V> KeyMap<V> {
    /// The entries, in key order.
    pub closed spec fn pairs(&self) -> Seq<(RoomKey, V)> {
        self.entries@
    }

    #[verifier::type_invariant]
    spec fn sorted(&self) -> bool {
        key_sorted(self.entries@)
    }

    pub closed spec fn view(&self) -> Map<RoomKey, V> {
        pairs_to_map(self.entries@)
    }

    /// The entries are sorted, each key once, and describe the map.
    pub fn facts(&self)
        ensures
            key_sorted(self.pairs()),
            keys_distinct(self.pairs()),
            self.view() == pairs_to_map(self.pairs()),
    {
        proof {
            use_type_invariant(self);
        }
    }

    pub fn new() -> (r: Self)
        ensures
            r.pairs().len() == 0,
            r.view() == Map::<RoomKey, V>::empty(),
    {
        let r = KeyMap { entries: Vec::new() };
        assert(r.view() =~= Map::<RoomKey, V>::empty());
        r
    }

    pub fn len(&self) -> (n: usize)
        ensures
            n == self.pairs().len(),
    {
        self.entries.len()
    }

    pub fn is_empty(&self) -> (b: bool)
        ensures
            b == (self.pairs().len() == 0),
            b == (self.view() == Map::<RoomKey, V>::empty()),
    {
        proof {
            if self.pairs().len() > 0 {
                use_type_invariant(self);
                lemma_pairs_index(self.pairs(), 0);
                assert(self.view().contains_key(self.pairs()[0].0));
            } else {
                assert(self.view() =~= Map::<RoomKey, V>::empty());
            }
        }
        self.entries.len() == 0
    }

    /// The key at position `i` in key order.
    pub fn key_at(&self, i: usize) -> (k: RoomKey)
        requires
            i < self.pairs().len(),
        ensures
            k == self.pairs()[i as int].0,
    {
        self.entries[i].0
    }

    /// The value at position `i` in key order.
    pub fn value_at(&self, i: usize) -> (v: &V)
        requires
            i < self.pairs().len(),
        ensures
            *v == self.pairs()[i as int].1,
    {
        &self.entries[i].1
    }

    /// Where `k` is, or where it would go.
    fn position(&self, k: RoomKey) -> (r: (usize, bool))
        ensures
            r.0 <= self.pairs().len(),
            forall|i: int| 0 <= i < r.0 ==> key_lt(#[trigger] self.pairs()[i].0, k),
            r.1 ==> r.0 < self.pairs().len() && self.pairs()[r.0 as int].0 == k,
            !r.1 ==> forall|i: int|
                r.0 <= i < self.pairs().len() ==> key_lt(k, #[trigger] self.pairs()[i].0),
    {
        proof {
            use_type_invariant(self);
        }
        let n = self.entries.len();
        let mut i: usize = 0;
        while i < n && crate::overrides::key_less(self.entries[i].0, k)
            invariant
                i <= n,
                n == self.pairs().len(),
                key_sorted(self.pairs()),
                forall|j: int| 0 <= j < i ==> key_lt(#[trigger] self.pairs()[j].0, k),
            decreases n - i,
        {
            i = i + 1;
        }
        if i < n {
            let found = self.entries[i].0 == k;
            (i, found)
        } else {
            (i, false)
        }
    }

    pub fn get(&self, k: RoomKey) -> (r: Option<&V>)
        ensures
            r is Some <==> self.view().contains_key(k),
            r matches Some(v) ==> *v == self.view()[k],
    {
        proof {
            use_type_invariant(self);
        }
        let (i, found) = self.position(k);
        if found {
            proof {
                lemma_pairs_index(self.pairs(), i as int);
            }
            Some(&self.entries[i].1)
        } else {
            proof {
                lemma_pairs_absent(self.pairs(), k);
            }
            None
        }
    }

    pub fn contains_key(&self, k: RoomKey) -> (b: bool)
        ensures
            b == self.view().contains_key(k),
    {
        match self.get(k) {
            Some(_) => true,
            None => false,
        }
    }

    /// Sets `k` to `v`, returning what it held before.
    pub fn insert(&mut self, k: RoomKey, v: V) -> (r: Option<V>)
        ensures
            final(self).view() == old(self).view().insert(k, v),
            r is Some <==> old(self).view().contains_key(k),
            r matches Some(w) ==> w == old(self).view()[k],
    {
        proof {
            use_type_invariant(&*self);
        }
        let ghost old_pairs = self.pairs();
        let (i, found) = self.position(k);
        if found {
            proof {
                lemma_pairs_index(old_pairs, i as int);
            }
            let mut entries = Vec::new();
            std::mem::swap(&mut entries, &mut self.entries);
            let (_, old_value) = entries.remove(i);
            entries.insert(i, (k, v));
            assert(entries@ =~= old_pairs.update(i as int, (k, v)));
            proof {
                let p = entries@;
                assert forall|a: int, b: int| 0 <= a < b < p.len() implies key_lt(
                    #[trigger] p[a].0,
                    #[trigger] p[b].0,
                ) by {
                    assert(p[a].0 == old_pairs[a].0);
                    assert(p[b].0 == old_pairs[b].0);
                }
                let m = old(self).view().insert(k, v);
                assert forall|j: int| 0 <= j < p.len() implies m.contains_key(#[trigger] p[j].0) && m[p[j].0]
                    == p[j].1 by {
                    if j != i {
                        lemma_pairs_index(old_pairs, j);
                    }
                }
                assert forall|key: RoomKey| m.contains_key(key) implies exists|j: int|
                    0 <= j < p.len() && #[trigger] p[j].0 == key by {
                    if key != k {
                        let j = choose|j: int| 0 <= j < old_pairs.len() && #[trigger] old_pairs[j].0 == key;
                        assert(p[j].0 == key);
                    } else {
                        assert(p[i as int].0 == key);
                    }
                }
                lemma_pairs_ext(p, m);
            }
            self.entries = entries;
            Some(old_value)
        } else {
            proof {
                lemma_pairs_absent(old_pairs, k);
            }
            let mut entries = Vec::new();
            std::mem::swap(&mut entries, &mut self.entries);
            entries.insert(i, (k, v));
            assert(entries@ =~= old_pairs.insert(i as int, (k, v)));
            proof {
                let p = entries@;
                assert forall|a: int, b: int| 0 <= a < b < p.len() implies key_lt(
                    #[trigger] p[a].0,
                    #[trigger] p[b].0,
                ) by {
                    if a < i && b > i {
                        crate::overrides::lemma_key_lt_transitive(old_pairs[a].0, k, old_pairs[b - 1].0);
                    }
                }
                let m = old(self).view().insert(k, v);
                assert forall|j: int| 0 <= j < p.len() implies m.contains_key(#[trigger] p[j].0) && m[p[j].0]
                    == p[j].1 by {
                    if j < i {
                        lemma_pairs_index(old_pairs, j);
                    } else if j > i {
                        lemma_pairs_index(old_pairs, j - 1);
                    }
                }
                assert forall|key: RoomKey| m.contains_key(key) implies exists|j: int|
                    0 <= j < p.len() && #[trigger] p[j].0 == key by {
                    if key != k {
                        let j = choose|j: int| 0 <= j < old_pairs.len() && #[trigger] old_pairs[j].0 == key;
                        if j < i {
                            assert(p[j].0 == key);
                        } else {
                            assert(p[j + 1].0 == key);
                        }
                    } else {
                        assert(p[i as int].0 == key);
                    }
                }
                lemma_pairs_ext(p, m);
            }
            self.entries = entries;
            None
        }
    }

    /// Removes `k`, returning what it held.
    pub fn remove(&mut self, k: RoomKey) -> (r: Option<V>)
        ensures
            final(self).view() == old(self).view().remove(k),
            r is Some <==> old(self).view().contains_key(k),
            r matches Some(w) ==> w == old(self).view()[k],
    {
        proof {
            use_type_invariant(&*self);
        }
        let ghost old_pairs = self.pairs();
        let (i, found) = self.position(k);
        if !found {
            proof {
                lemma_pairs_absent(old_pairs, k);
                assert(old(self).view().remove(k) =~= old(self).view());
            }
            return None;
        }
        proof {
            lemma_pairs_index(old_pairs, i as int);
        }
        let mut entries = Vec::new();
            std::mem::swap(&mut entries, &mut self.entries);
        let (_, old_value) = entries.remove(i);
        assert(entries@ =~= old_pairs.remove(i as int));
        proof {
            let p = entries@;
            assert forall|a: int, b: int| 0 <= a < b < p.len() implies key_lt(
                #[trigger] p[a].0,
                #[trigger] p[b].0,
            ) by {
                if a < i && b >= i {
                    assert(old_pairs[a].0 == p[a].0);
                    assert(old_pairs[b + 1].0 == p[b].0);
                } else if a >= i {
                    assert(old_pairs[a + 1].0 == p[a].0);
                    assert(old_pairs[b + 1].0 == p[b].0);
                }
            }
            let m = old(self).view().remove(k);
            assert forall|j: int| 0 <= j < p.len() implies m.contains_key(#[trigger] p[j].0) && m[p[j].0]
                == p[j].1 by {
                let oj = if j < i {
                    j
                } else {
                    j + 1
                };
                lemma_pairs_index(old_pairs, oj);
            }
            assert forall|key: RoomKey| m.contains_key(key) implies exists|j: int|
                0 <= j < p.len() && #[trigger] p[j].0 == key by {
                let j = choose|j: int| 0 <= j < old_pairs.len() && #[trigger] old_pairs[j].0 == key;
                if j < i {
                    assert(p[j].0 == key);
                } else {
                    assert(j != i);
                    assert(p[j - 1].0 == key);
                }
            }
            lemma_pairs_ext(p, m);
        }
        self.entries = entries;
        Some(old_value)
    }

    /// Replaces the value at position `i`, keeping its key.
    pub fn set_value_at(&mut self, i: usize, v: V)
        requires
            i < old(self).pairs().len(),
        ensures
            final(self).pairs() == old(self).pairs().update(i as int, (old(self).pairs()[i as int].0, v)),
            final(self).view() == old(self).view().insert(old(self).pairs()[i as int].0, v),
    {
        proof {
            use_type_invariant(&*self);
        }
        let ghost old_pairs = self.pairs();
        let mut entries = Vec::new();
        std::mem::swap(&mut entries, &mut self.entries);
        let (key, _) = entries.remove(i);
        entries.insert(i, (key, v));
        proof {
            let p = entries@;
            assert(p =~= old_pairs.update(i as int, (old_pairs[i as int].0, v)));
            assert forall|a: int, b: int| 0 <= a < b < p.len() implies key_lt(
                #[trigger] p[a].0,
                #[trigger] p[b].0,
            ) by {
                assert(p[a].0 == old_pairs[a].0);
                assert(p[b].0 == old_pairs[b].0);
            }
            let k = old_pairs[i as int].0;
            let m = old(self).view().insert(k, v);
            assert forall|j: int| 0 <= j < p.len() implies m.contains_key(#[trigger] p[j].0) && m[p[j].0]
                == p[j].1 by {
                if j != i {
                    lemma_pairs_index(old_pairs, j);
                }
            }
            assert forall|key: RoomKey| m.contains_key(key) implies exists|j: int|
                0 <= j < p.len() && #[trigger] p[j].0 == key by {
                if key != k {
                    let j = choose|j: int| 0 <= j < old_pairs.len() && #[trigger] old_pairs[j].0 == key;
                    assert(p[j].0 == key);
                } else {
                    assert(p[i as int].0 == key);
                }
            }
            lemma_pairs_ext(p, m);
        }
        self.entries = entries;
    }
}

/// The order integer keys sort in.
pub open spec fn int_lt(a: i64, b: i64) -> bool {
    a < b
}

/// Keys strictly increasing.
pub open spec fn int_sorted<V>(p: Seq<(i64, V)>) -> bool {
    forall|i: int, j: int| 0 <= i < j < p.len() ==> int_lt(#[trigger] p[i].0, #[trigger] p[j].0)
}

proof fn lemma_int_sorted_distinct<V>(p: Seq<(i64, V)>)
    requires
        int_sorted(p),
    ensures
        keys_distinct(p),
{
}

/// A map keyed by integers, its entries sorted by key.
pub struct IntMap<V> {
    entries: Vec<(i64, V)>,
}

impl<V> IntMap<V> {
    /// The entries, in key order.
    pub closed spec fn pairs(&self) -> Seq<(i64, V)> {
        self.entries@
    }

    #[verifier::type_invariant]
    spec fn sorted(&self) -> bool {
        int_sorted(self.entries@)
    }

    pub closed spec fn view(&self) -> Map<i64, V> {
        pairs_to_map(self.entries@)
    }

    /// The entries are sorted, each key once, and describe the map.
    pub fn facts(&self)
        ensures
            int_sorted(self.pairs()),
            keys_distinct(self.pairs()),
            self.view() == pairs_to_map(self.pairs()),
    {
        proof {
            use_type_invariant(self);
        }
    }

    pub fn new() -> (r: Self)
        ensures
            r.pairs().len() == 0,
            r.view() == Map::<i64, V>::empty(),
    {
        let r = IntMap { entries: Vec::new() };
        assert(r.view() =~= Map::<i64, V>::empty());
        r
    }

    pub fn len(&self) -> (n: usize)
        ensures
            n == self.pairs().len(),
    {
        self.entries.len()
    }

    pub fn is_empty(&self) -> (b: bool)
        ensures
            b == (self.pairs().len() == 0),
            b == (self.view() == Map::<i64, V>::empty()),
    {
        proof {
            if self.pairs().len() > 0 {
                use_type_invariant(self);
                lemma_pairs_index(self.pairs(), 0);
                assert(self.view().contains_key(self.pairs()[0].0));
            } else {
                assert(self.view() =~= Map::<i64, V>::empty());
            }
        }
        self.entries.len() == 0
    }

    /// The key at position `i` in key order.
    pub fn key_at(&self, i: usize) -> (k: i64)
        requires
            i < self.pairs().len(),
        ensures
            k == self.pairs()[i as int].0,
    {
        self.entries[i].0
    }

    /// The value at position `i` in key order.
    pub fn value_at(&self, i: usize) -> (v: &V)
        requires
            i < self.pairs().len(),
        ensures
            *v == self.pairs()[i as int].1,
    {
        &self.entries[i].1
    }

    /// Where `k` is, or where it would go.
    fn position(&self, k: i64) -> (r: (usize, bool))
        ensures
            r.0 <= self.pairs().len(),
            forall|i: int| 0 <= i < r.0 ==> int_lt(#[trigger] self.pairs()[i].0, k),
            r.1 ==> r.0 < self.pairs().len() && self.pairs()[r.0 as int].0 == k,
            !r.1 ==> forall|i: int|
                r.0 <= i < self.pairs().len() ==> int_lt(k, #[trigger] self.pairs()[i].0),
    {
        proof {
            use_type_invariant(self);
        }
        let n = self.entries.len();
        let mut i: usize = 0;
        while i < n && self.entries[i].0 < k
            invariant
                i <= n,
                n == self.pairs().len(),
                int_sorted(self.pairs()),
                forall|j: int| 0 <= j < i ==> int_lt(#[trigger] self.pairs()[j].0, k),
            decreases n - i,
        {
            i = i + 1;
        }
        if i < n {
            let found = self.entries[i].0 == k;
            (i, found)
        } else {
            (i, false)
        }
    }

    pub fn get(&self, k: i64) -> (r: Option<&V>)
        ensures
            r is Some <==> self.view().contains_key(k),
            r matches Some(v) ==> *v == self.view()[k],
    {
        proof {
            use_type_invariant(self);
        }
        let (i, found) = self.position(k);
        if found {
            proof {
                lemma_pairs_index(self.pairs(), i as int);
            }
            Some(&self.entries[i].1)
        } else {
            proof {
                lemma_pairs_absent(self.pairs(), k);
            }
            None
        }
    }

    pub fn contains_key(&self, k: i64) -> (b: bool)
        ensures
            b == self.view().contains_key(k),
    {
        match self.get(k) {
            Some(_) => true,
            None => false,
        }
    }

    /// Sets `k` to `v`, returning what it held before.
    pub fn insert(&mut self, k: i64, v: V) -> (r: Option<V>)
        ensures
            final(self).view() == old(self).view().insert(k, v),
            r is Some <==> old(self).view().contains_key(k),
            r matches Some(w) ==> w == old(self).view()[k],
    {
        proof {
            use_type_invariant(&*self);
        }
        let ghost old_pairs = self.pairs();
        let (i, found) = self.position(k);
        if found {
            proof {
                lemma_pairs_index(old_pairs, i as int);
            }
            let mut entries = Vec::new();
            std::mem::swap(&mut entries, &mut self.entries);
            let (_, old_value) = entries.remove(i);
            entries.insert(i, (k, v));
            assert(entries@ =~= old_pairs.update(i as int, (k, v)));
            proof {
                let p = entries@;
                assert forall|a: int, b: int| 0 <= a < b < p.len() implies int_lt(
                    #[trigger] p[a].0,
                    #[trigger] p[b].0,
                ) by {
                    assert(p[a].0 == old_pairs[a].0);
                    assert(p[b].0 == old_pairs[b].0);
                }
                let m = old(self).view().insert(k, v);
                assert forall|j: int| 0 <= j < p.len() implies m.contains_key(#[trigger] p[j].0) && m[p[j].0]
                    == p[j].1 by {
                    if j != i {
                        lemma_pairs_index(old_pairs, j);
                    }
                }
                assert forall|key: i64| m.contains_key(key) implies exists|j: int|
                    0 <= j < p.len() && #[trigger] p[j].0 == key by {
                    if key != k {
                        let j = choose|j: int| 0 <= j < old_pairs.len() && #[trigger] old_pairs[j].0 == key;
                        assert(p[j].0 == key);
                    } else {
                        assert(p[i as int].0 == key);
                    }
                }
                lemma_pairs_ext(p, m);
            }
            self.entries = entries;
            Some(old_value)
        } else {
            proof {
                lemma_pairs_absent(old_pairs, k);
            }
            let mut entries = Vec::new();
            std::mem::swap(&mut entries, &mut self.entries);
            entries.insert(i, (k, v));
            assert(entries@ =~= old_pairs.insert(i as int, (k, v)));
            proof {
                let p = entries@;
                assert forall|a: int, b: int| 0 <= a < b < p.len() implies int_lt(
                    #[trigger] p[a].0,
                    #[trigger] p[b].0,
                ) by {
                    if a < i && b > i {
                        assert(int_lt(old_pairs[a].0, old_pairs[b - 1].0));
                    }
                }
                let m = old(self).view().insert(k, v);
                assert forall|j: int| 0 <= j < p.len() implies m.contains_key(#[trigger] p[j].0) && m[p[j].0]
                    == p[j].1 by {
                    if j < i {
                        lemma_pairs_index(old_pairs, j);
                    } else if j > i {
                        lemma_pairs_index(old_pairs, j - 1);
                    }
                }
                assert forall|key: i64| m.contains_key(key) implies exists|j: int|
                    0 <= j < p.len() && #[trigger] p[j].0 == key by {
                    if key != k {
                        let j = choose|j: int| 0 <= j < old_pairs.len() && #[trigger] old_pairs[j].0 == key;
                        if j < i {
                            assert(p[j].0 == key);
                        } else {
                            assert(p[j + 1].0 == key);
                        }
                    } else {
                        assert(p[i as int].0 == key);
                    }
                }
                lemma_pairs_ext(p, m);
            }
            self.entries = entries;
            None
        }
    }

    /// Removes `k`, returning what it held.
    pub fn remove(&mut self, k: i64) -> (r: Option<V>)
        ensures
            final(self).view() == old(self).view().remove(k),
            r is Some <==> old(self).view().contains_key(k),
            r matches Some(w) ==> w == old(self).view()[k],
    {
        proof {
            use_type_invariant(&*self);
        }
        let ghost old_pairs = self.pairs();
        let (i, found) = self.position(k);
        if !found {
            proof {
                lemma_pairs_absent(old_pairs, k);
                assert(old(self).view().remove(k) =~= old(self).view());
            }
            return None;
        }
        proof {
            lemma_pairs_index(old_pairs, i as int);
        }
        let mut entries = Vec::new();
            std::mem::swap(&mut entries, &mut self.entries);
        let (_, old_value) = entries.remove(i);
        assert(entries@ =~= old_pairs.remove(i as int));
        proof {
            let p = entries@;
            assert forall|a: int, b: int| 0 <= a < b < p.len() implies int_lt(
                #[trigger] p[a].0,
                #[trigger] p[b].0,
            ) by {
                if a < i && b >= i {
                    assert(old_pairs[a].0 == p[a].0);
                    assert(old_pairs[b + 1].0 == p[b].0);
                } else if a >= i {
                    assert(old_pairs[a + 1].0 == p[a].0);
                    assert(old_pairs[b + 1].0 == p[b].0);
                }
            }
            let m = old(self).view().remove(k);
            assert forall|j: int| 0 <= j < p.len() implies m.contains_key(#[trigger] p[j].0) && m[p[j].0]
                == p[j].1 by {
                let oj = if j < i {
                    j
                } else {
                    j + 1
                };
                lemma_pairs_index(old_pairs, oj);
            }
            assert forall|key: i64| m.contains_key(key) implies exists|j: int|
                0 <= j < p.len() && #[trigger] p[j].0 == key by {
                let j = choose|j: int| 0 <= j < old_pairs.len() && #[trigger] old_pairs[j].0 == key;
                if j < i {
                    assert(p[j].0 == key);
                } else {
                    assert(j != i);
                    assert(p[j - 1].0 == key);
                }
            }
            lemma_pairs_ext(p, m);
        }
        self.entries = entries;
        Some(old_value)
    }

    /// Replaces the value at position `i`, keeping its key.
    pub fn set_value_at(&mut self, i: usize, v: V)
        requires
            i < old(self).pairs().len(),
        ensures
            final(self).pairs() == old(self).pairs().update(i as int, (old(self).pairs()[i as int].0, v)),
            final(self).view() == old(self).view().insert(old(self).pairs()[i as int].0, v),
    {
        proof {
            use_type_invariant(&*self);
        }
        let ghost old_pairs = self.pairs();
        let mut entries = Vec::new();
        std::mem::swap(&mut entries, &mut self.entries);
        let (key, _) = entries.remove(i);
        entries.insert(i, (key, v));
        proof {
            let p = entries@;
            assert(p =~= old_pairs.update(i as int, (old_pairs[i as int].0, v)));
            assert forall|a: int, b: int| 0 <= a < b < p.len() implies int_lt(
                #[trigger] p[a].0,
                #[trigger] p[b].0,
            ) by {
                assert(p[a].0 == old_pairs[a].0);
                assert(p[b].0 == old_pairs[b].0);
            }
            let k = old_pairs[i as int].0;
            let m = old(self).view().insert(k, v);
            assert forall|j: int| 0 <= j < p.len() implies m.contains_key(#[trigger] p[j].0) && m[p[j].0]
                == p[j].1 by {
                if j != i {
                    lemma_pairs_index(old_pairs, j);
                }
            }
            assert forall|key: i64| m.contains_key(key) implies exists|j: int|
                0 <= j < p.len() && #[trigger] p[j].0 == key by {
                if key != k {
                    let j = choose|j: int| 0 <= j < old_pairs.len() && #[trigger] old_pairs[j].0 == key;
                    assert(p[j].0 == key);
                } else {
                    assert(p[i as int].0 == key);
                }
            }
            lemma_pairs_ext(p, m);
        }
        self.entries = entries;
    }
}

/// The order edge pairs sort in: by first key, then by second.
pub open spec fn pair_lt(a: (RoomKey, RoomKey), b: (RoomKey, RoomKey)) -> bool {
    key_lt(a.0, b.0) || (a.0 == b.0 && key_lt(a.1, b.1))
}

pub proof fn lemma_pair_lt_transitive(
    a: (RoomKey, RoomKey),
    b: (RoomKey, RoomKey),
    c: (RoomKey, RoomKey),
)
    requires
        pair_lt(a, b),
        pair_lt(b, c),
    ensures
        pair_lt(a, c),
{
}

/// Whether pair `a` sorts before pair `b`.
pub fn pair_less(a: (RoomKey, RoomKey), b: (RoomKey, RoomKey)) -> (r: bool)
    ensures
        r == pair_lt(a, b),
{
    crate::overrides::key_less(a.0, b.0) || (a.0 == b.0 && crate::overrides::key_less(a.1, b.1))
}

/// Keys strictly increasing in room-key-pair order.
pub open spec fn pair_sorted<V>(p: Seq<((RoomKey, RoomKey), V)>) -> bool {
    forall|i: int, j: int| 0 <= i < j < p.len() ==> pair_lt(#[trigger] p[i].0, #[trigger] p[j].0)
}

proof fn lemma_pair_sorted_distinct<V>(p: Seq<((RoomKey, RoomKey), V)>)
    requires
        pair_sorted(p),
    ensures
        keys_distinct(p),
{
}

/// A map keyed by ordered pairs of room keys, its entries sorted by key.
pub struct PairMap<V> {
    entries: Vec<((RoomKey, RoomKey), V)>,
}

impl<V> PairMap<V> {
    /// The entries, in key order.
    pub closed spec fn pairs(&self) -> Seq<((RoomKey, RoomKey), V)> {
        self.entries@
    }

    #[verifier::type_invariant]
    spec fn sorted(&self) -> bool {
        pair_sorted(self.entries@)
    }

    pub closed spec fn view(&self) -> Map<(RoomKey, RoomKey), V> {
        pairs_to_map(self.entries@)
    }

    /// The entries are sorted, each key once, and describe the map.
    pub fn facts(&self)
        ensures
            pair_sorted(self.pairs()),
            keys_distinct(self.pairs()),
            self.view() == pairs_to_map(self.pairs()),
    {
        proof {
            use_type_invariant(self);
        }
    }

    pub fn new() -> (r: Self)
        ensures
            r.pairs().len() == 0,
            r.view() == Map::<(RoomKey, RoomKey), V>::empty(),
    {
        let r = PairMap { entries: Vec::new() };
        assert(r.view() =~= Map::<(RoomKey, RoomKey), V>::empty());
        r
    }

    pub fn len(&self) -> (n: usize)
        ensures
            n == self.pairs().len(),
    {
        self.entries.len()
    }

    pub fn is_empty(&self) -> (b: bool)
        ensures
            b == (self.pairs().len() == 0),
            b == (self.view() == Map::<(RoomKey, RoomKey), V>::empty()),
    {
        proof {
            if self.pairs().len() > 0 {
                use_type_invariant(self);
                lemma_pairs_index(self.pairs(), 0);
                assert(self.view().contains_key(self.pairs()[0].0));
            } else {
                assert(self.view() =~= Map::<(RoomKey, RoomKey), V>::empty());
            }
        }
        self.entries.len() == 0
    }

    /// The key at position `i` in key order.
    pub fn key_at(&self, i: usize) -> (k: (RoomKey, RoomKey))
        requires
            i < self.pairs().len(),
        ensures
            k == self.pairs()[i as int].0,
    {
        self.entries[i].0
    }

    /// The value at position `i` in key order.
    pub fn value_at(&self, i: usize) -> (v: &V)
        requires
            i < self.pairs().len(),
        ensures
            *v == self.pairs()[i as int].1,
    {
        &self.entries[i].1
    }

    /// Where `k` is, or where it would go.
    fn position(&self, k: (RoomKey, RoomKey)) -> (r: (usize, bool))
        ensures
            r.0 <= self.pairs().len(),
            forall|i: int| 0 <= i < r.0 ==> pair_lt(#[trigger] self.pairs()[i].0, k),
            r.1 ==> r.0 < self.pairs().len() && self.pairs()[r.0 as int].0 == k,
            !r.1 ==> forall|i: int|
                r.0 <= i < self.pairs().len() ==> pair_lt(k, #[trigger] self.pairs()[i].0),
    {
        proof {
            use_type_invariant(self);
        }
        let n = self.entries.len();
        let mut i: usize = 0;
        while i < n && pair_less(self.entries[i].0, k)
            invariant
                i <= n,
                n == self.pairs().len(),
                pair_sorted(self.pairs()),
                forall|j: int| 0 <= j < i ==> pair_lt(#[trigger] self.pairs()[j].0, k),
            decreases n - i,
        {
            i = i + 1;
        }
        if i < n {
            let found = self.entries[i].0.0 == k.0 && self.entries[i].0.1 == k.1;
            (i, found)
        } else {
            (i, false)
        }
    }

    pub fn get(&self, k: (RoomKey, RoomKey)) -> (r: Option<&V>)
        ensures
            r is Some <==> self.view().contains_key(k),
            r matches Some(v) ==> *v == self.view()[k],
    {
        proof {
            use_type_invariant(self);
        }
        let (i, found) = self.position(k);
        if found {
            proof {
                lemma_pairs_index(self.pairs(), i as int);
            }
            Some(&self.entries[i].1)
        } else {
            proof {
                lemma_pairs_absent(self.pairs(), k);
            }
            None
        }
    }

    pub fn contains_key(&self, k: (RoomKey, RoomKey)) -> (b: bool)
        ensures
            b == self.view().contains_key(k),
    {
        match self.get(k) {
            Some(_) => true,
            None => false,
        }
    }

    /// Sets `k` to `v`, returning what it held before.
    pub fn insert(&mut self, k: (RoomKey, RoomKey), v: V) -> (r: Option<V>)
        ensures
            final(self).view() == old(self).view().insert(k, v),
            r is Some <==> old(self).view().contains_key(k),
            r matches Some(w) ==> w == old(self).view()[k],
    {
        proof {
            use_type_invariant(&*self);
        }
        let ghost old_pairs = self.pairs();
        let (i, found) = self.position(k);
        if found {
            proof {
                lemma_pairs_index(old_pairs, i as int);
            }
            let mut entries = Vec::new();
            std::mem::swap(&mut entries, &mut self.entries);
            let (_, old_value) = entries.remove(i);
            entries.insert(i, (k, v));
            assert(entries@ =~= old_pairs.update(i as int, (k, v)));
            proof {
                let p = entries@;
                assert forall|a: int, b: int| 0 <= a < b < p.len() implies pair_lt(
                    #[trigger] p[a].0,
                    #[trigger] p[b].0,
                ) by {
                    assert(p[a].0 == old_pairs[a].0);
                    assert(p[b].0 == old_pairs[b].0);
                }
                let m = old(self).view().insert(k, v);
                assert forall|j: int| 0 <= j < p.len() implies m.contains_key(#[trigger] p[j].0) && m[p[j].0]
                    == p[j].1 by {
                    if j != i {
                        lemma_pairs_index(old_pairs, j);
                    }
                }
                assert forall|key: (RoomKey, RoomKey)| m.contains_key(key) implies exists|j: int|
                    0 <= j < p.len() && #[trigger] p[j].0 == key by {
                    if key != k {
                        let j = choose|j: int| 0 <= j < old_pairs.len() && #[trigger] old_pairs[j].0 == key;
                        assert(p[j].0 == key);
                    } else {
                        assert(p[i as int].0 == key);
                    }
                }
                lemma_pairs_ext(p, m);
            }
            self.entries = entries;
            Some(old_value)
        } else {
            proof {
                lemma_pairs_absent(old_pairs, k);
            }
            let mut entries = Vec::new();
            std::mem::swap(&mut entries, &mut self.entries);
            entries.insert(i, (k, v));
            assert(entries@ =~= old_pairs.insert(i as int, (k, v)));
            proof {
                let p = entries@;
                assert forall|a: int, b: int| 0 <= a < b < p.len() implies pair_lt(
                    #[trigger] p[a].0,
                    #[trigger] p[b].0,
                ) by {
                    if a < i && b > i {
                        lemma_pair_lt_transitive(old_pairs[a].0, k, old_pairs[b - 1].0);
                    }
                }
                let m = old(self).view().insert(k, v);
                assert forall|j: int| 0 <= j < p.len() implies m.contains_key(#[trigger] p[j].0) && m[p[j].0]
                    == p[j].1 by {
                    if j < i {
                        lemma_pairs_index(old_pairs, j);
                    } else if j > i {
                        lemma_pairs_index(old_pairs, j - 1);
                    }
                }
                assert forall|key: (RoomKey, RoomKey)| m.contains_key(key) implies exists|j: int|
                    0 <= j < p.len() && #[trigger] p[j].0 == key by {
                    if key != k {
                        let j = choose|j: int| 0 <= j < old_pairs.len() && #[trigger] old_pairs[j].0 == key;
                        if j < i {
                            assert(p[j].0 == key);
                        } else {
                            assert(p[j + 1].0 == key);
                        }
                    } else {
                        assert(p[i as int].0 == key);
                    }
                }
                lemma_pairs_ext(p, m);
            }
            self.entries = entries;
            None
        }
    }

    /// Removes `k`, returning what it held.
    pub fn remove(&mut self, k: (RoomKey, RoomKey)) -> (r: Option<V>)
        ensures
            final(self).view() == old(self).view().remove(k),
            r is Some <==> old(self).view().contains_key(k),
            r matches Some(w) ==> w == old(self).view()[k],
    {
        proof {
            use_type_invariant(&*self);
        }
        let ghost old_pairs = self.pairs();
        let (i, found) = self.position(k);
        if !found {
            proof {
                lemma_pairs_absent(old_pairs, k);
                assert(old(self).view().remove(k) =~= old(self).view());
            }
            return None;
        }
        proof {
            lemma_pairs_index(old_pairs, i as int);
        }
        let mut entries = Vec::new();
            std::mem::swap(&mut entries, &mut self.entries);
        let (_, old_value) = entries.remove(i);
        assert(entries@ =~= old_pairs.remove(i as int));
        proof {
            let p = entries@;
            assert forall|a: int, b: int| 0 <= a < b < p.len() implies pair_lt(
                #[trigger] p[a].0,
                #[trigger] p[b].0,
            ) by {
                if a < i && b >= i {
                    assert(old_pairs[a].0 == p[a].0);
                    assert(old_pairs[b + 1].0 == p[b].0);
                } else if a >= i {
                    assert(old_pairs[a + 1].0 == p[a].0);
                    assert(old_pairs[b + 1].0 == p[b].0);
                }
            }
            let m = old(self).view().remove(k);
            assert forall|j: int| 0 <= j < p.len() implies m.contains_key(#[trigger] p[j].0) && m[p[j].0]
                == p[j].1 by {
                let oj = if j < i {
                    j
                } else {
                    j + 1
                };
                lemma_pairs_index(old_pairs, oj);
            }
            assert forall|key: (RoomKey, RoomKey)| m.contains_key(key) implies exists|j: int|
                0 <= j < p.len() && #[trigger] p[j].0 == key by {
                let j = choose|j: int| 0 <= j < old_pairs.len() && #[trigger] old_pairs[j].0 == key;
                if j < i {
                    assert(p[j].0 == key);
                } else {
                    assert(j != i);
                    assert(p[j - 1].0 == key);
                }
            }
            lemma_pairs_ext(p, m);
        }
        self.entries = entries;
        Some(old_value)
    }

    /// Replaces the value at position `i`, keeping its key.
    pub fn set_value_at(&mut self, i: usize, v: V)
        requires
            i < old(self).pairs().len(),
        ensures
            final(self).pairs() == old(self).pairs().update(i as int, (old(self).pairs()[i as int].0, v)),
            final(self).view() == old(self).view().insert(old(self).pairs()[i as int].0, v),
    {
        proof {
            use_type_invariant(&*self);
        }
        let ghost old_pairs = self.pairs();
        let mut entries = Vec::new();
        std::mem::swap(&mut entries, &mut self.entries);
        let (key, _) = entries.remove(i);
        entries.insert(i, (key, v));
        proof {
            let p = entries@;
            assert(p =~= old_pairs.update(i as int, (old_pairs[i as int].0, v)));
            assert forall|a: int, b: int| 0 <= a < b < p.len() implies pair_lt(
                #[trigger] p[a].0,
                #[trigger] p[b].0,
            ) by {
                assert(p[a].0 == old_pairs[a].0);
                assert(p[b].0 == old_pairs[b].0);
            }
            let k = old_pairs[i as int].0;
            let m = old(self).view().insert(k, v);
            assert forall|j: int| 0 <= j < p.len() implies m.contains_key(#[trigger] p[j].0) && m[p[j].0]
                == p[j].1 by {
                if j != i {
                    lemma_pairs_index(old_pairs, j);
                }
            }
            assert forall|key: (RoomKey, RoomKey)| m.contains_key(key) implies exists|j: int|
                0 <= j < p.len() && #[trigger] p[j].0 == key by {
                if key != k {
                    let j = choose|j: int| 0 <= j < old_pairs.len() && #[trigger] old_pairs[j].0 == key;
                    assert(p[j].0 == key);
                } else {
                    assert(p[i as int].0 == key);
                }
            }
            lemma_pairs_ext(p, m);
        }
        self.entries = entries;
    }
}

impl KeyMap<String> {
    /// Drops every entry whose value is `to`.
    pub fn remove_values(&mut self, to: &str)
        ensures
            final(self).view() == old(self).view().restrict(
                old(self).view().dom().filter(|k: RoomKey| old(self).view()[k]@ != to@),
            ),
    {
        self.facts();
        let ghost old_pairs = self.pairs();
        let ghost old_view = self.view();
        let mut doomed: Vec<RoomKey> = Vec::new();
        let n = self.len();
        let mut i: usize = 0;
        while i < n
            invariant
                n == old_pairs.len(),
                old_pairs == self.pairs(),
                i <= n,
                forall|a: int|
                    0 <= a < doomed@.len() ==> exists|j: int|
                        0 <= j < i && #[trigger] old_pairs[j].0 == #[trigger] doomed@[a]
                            && old_pairs[j].1@ == to@,
                forall|j: int|
                    0 <= j < i && #[trigger] old_pairs[j].1@ == to@ ==> doomed@.contains(
                        old_pairs[j].0,
                    ),
            decreases n - i,
        {
            if crate::text::same_text(self.value_at(i).as_str(), to) {
                let k = self.key_at(i);
                let ghost before = doomed@;
                doomed.push(k);
                proof {
                    assert forall|a: int| 0 <= a < doomed@.len() implies exists|j: int|
                        0 <= j < i + 1 && #[trigger] old_pairs[j].0 == #[trigger] doomed@[a]
                            && old_pairs[j].1@ == to@ by {
                        if a == before.len() {
                            assert(old_pairs[i as int].0 == doomed@[a]);
                        } else {
                            assert(doomed@[a] == before[a]);
                        }
                    }
                    assert forall|j: int| 0 <= j < i + 1 && #[trigger] old_pairs[j].1@ == to@ implies doomed@.contains(
                        old_pairs[j].0,
                    ) by {
                        if j == i {
                            assert(doomed@[before.len() as int] == old_pairs[j].0);
                        } else {
                            let a = choose|a: int| 0 <= a < before.len() && before[a] == old_pairs[j].0;
                            assert(doomed@[a] == old_pairs[j].0);
                        }
                    }
                }
            }
            i = i + 1;
        }
        let m = doomed.len();
        let mut j: usize = 0;
        while j < m
            invariant
                m == doomed@.len(),
                j <= m,
                self.view() == old_view.remove_keys(doomed@.take(j as int).to_set()),
            decreases m - j,
        {
            self.remove(doomed[j]);
            proof {
                let t = doomed@.take(j + 1);
                let u = doomed@.take(j as int);
                assert(t.drop_last() =~= u);
                assert forall|x: RoomKey| #[trigger] t.to_set().contains(x) <==> u.to_set().insert(
                    doomed@[j as int],
                ).contains(x) by {
                    if t.contains(x) {
                        let a = choose|a: int| 0 <= a < t.len() && t[a] == x;
                        if a < j {
                            assert(u[a] == x);
                        }
                    }
                    if u.contains(x) {
                        let a = choose|a: int| 0 <= a < u.len() && u[a] == x;
                        assert(t[a] == x);
                    }
                    if x == doomed@[j as int] {
                        assert(t[j as int] == x);
                    }
                }
                assert(t.to_set() =~= u.to_set().insert(doomed@[j as int]));
                assert(old_view.remove_keys(doomed@.take(j + 1).to_set()) =~= old_view.remove_keys(
                    doomed@.take(j as int).to_set(),
                ).remove(doomed@[j as int]));
            }
            j = j + 1;
        }
        proof {
            assert(doomed@.take(m as int) =~= doomed@);
            let target = old_view.restrict(old_view.dom().filter(|k: RoomKey| old_view[k]@ != to@));
            assert forall|k: RoomKey| #[trigger] old_view.remove_keys(doomed@.to_set()).contains_key(k)
                <==> target.contains_key(k) by {
                if old_view.contains_key(k) {
                    let jj = choose|jj: int| 0 <= jj < old_pairs.len() && #[trigger] old_pairs[jj].0 == k;
                    lemma_pairs_index(old_pairs, jj);
                    if doomed@.contains(k) {
                        let a = choose|a: int| 0 <= a < doomed@.len() && doomed@[a] == k;
                        let j2 = choose|j2: int|
                            0 <= j2 < n && #[trigger] old_pairs[j2].0 == #[trigger] doomed@[a]
                                && old_pairs[j2].1@ == to@;
                        lemma_pairs_index(old_pairs, j2);
                    }
                }
            }
            assert(old_view.remove_keys(doomed@.to_set()) =~= target);
        }
    }
}

} // verus!
