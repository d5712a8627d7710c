//! A map keyed by strings: a list of entries in which no key occurs twice.

use vstd::prelude::*;

verus! {

/// No two entries carry keys with the same characters.
pub open spec fn keys_distinct<V>(s: Seq<(String, V)>) -> bool {
    forall|i: int, j: int| 0 <= i < j < s.len() ==> s[i].0@ != s[j].0@
}

/// The map that a list of entries stands for; a later entry wins over an earlier one.
pub open spec fn entries_map<V: DeepView>(s: Seq<(String, V)>) -> Map<Seq<char>, V::V>
    decreases s.len(),
{
    if s.len() == 0 {
        Map::empty()
    } else {
        entries_map(s.drop_last()).insert(s.last().0@, s.last().1.deep_view())
    }
}

pub proof fn lemma_entries_map_dom<V: DeepView>(s: Seq<(String, V)>, k: Seq<char>)
    ensures
        entries_map(s).contains_key(k) <==> exists|i: int| 0 <= i < s.len() && #[trigger] s[i].0@ == k,
    decreases s.len(),
{
    if s.len() > 0 {
        let t = s.drop_last();
        lemma_entries_map_dom(t, k);
        if entries_map(t).contains_key(k) {
            let i = choose|i: int| 0 <= i < t.len() && #[trigger] t[i].0@ == k;
            assert(s[i].0@ == k);
        }
        if exists|i: int| 0 <= i < s.len() && #[trigger] s[i].0@ == k {
            let i = choose|i: int| 0 <= i < s.len() && #[trigger] s[i].0@ == k;
            if i < s.len() - 1 {
                assert(t[i].0@ == k);
            }
        }
    }
}

pub proof fn lemma_entries_map_value<V: DeepView>(s: Seq<(String, V)>, i: int)
    requires
        keys_distinct(s),
        0 <= i < s.len(),
    ensures
        entries_map(s).contains_key(s[i].0@),
        entries_map(s)[s[i].0@] == s[i].1.deep_view(),
    decreases s.len(),
{
    if i < s.len() - 1 {
        let t = s.drop_last();
        assert(keys_distinct(t)) by {
            assert forall|a: int, b: int| 0 <= a < b < t.len() implies t[a].0@ != t[b].0@ by {
                assert(t[a] == s[a] && t[b] == s[b]);
            }
        }
        assert(t[i] == s[i]);
        lemma_entries_map_value(t, i);
        assert(s[i].0@ != s[s.len() - 1].0@);
    }
}

pub proof fn lemma_distinct_remove<V>(s: Seq<(String, V)>, i: int)
    requires
        keys_distinct(s),
        0 <= i < s.len(),
    ensures
        keys_distinct(s.remove(i)),
{
    let r = s.remove(i);
    assert forall|a: int, b: int| 0 <= a < b < r.len() implies r[a].0@ != r[b].0@ by {
        let a2 = if a < i { a } else { a + 1 };
        let b2 = if b < i { b } else { b + 1 };
        assert(r[a] == s[a2] && r[b] == s[b2]);
    }
}

pub proof fn lemma_entries_map_remove<V: DeepView>(s: Seq<(String, V)>, i: int)
    requires
        keys_distinct(s),
        0 <= i < s.len(),
    ensures
        entries_map(s.remove(i)) == entries_map(s).remove(s[i].0@),
    decreases s.len(),
{
    let t = s.drop_last();
    let k = s[i].0@;
    assert(keys_distinct(t)) by {
        assert forall|a: int, b: int| 0 <= a < b < t.len() implies t[a].0@ != t[b].0@ by {
            assert(t[a] == s[a] && t[b] == s[b]);
        }
    }
    if i == s.len() - 1 {
        assert(s.remove(i) =~= t);
        lemma_entries_map_dom(t, k);
        assert forall|j: int| 0 <= j < t.len() implies #[trigger] t[j].0@ != k by {
            assert(t[j] == s[j]);
        }
        assert(entries_map(s).remove(k) =~= entries_map(t));
    } else {
        assert(s.remove(i).drop_last() =~= t.remove(i));
        assert(s.remove(i).last() == s.last());
        assert(t[i] == s[i]);
        lemma_entries_map_remove(t, i);
        assert(s.last().0@ != k);
        assert(entries_map(s.remove(i)) =~= entries_map(s).remove(k));
    }
}

/// A map from strings to values, kept as a list of entries with distinct keys.
pub struct StrMap<V: DeepView> {
    entries: Vec<(String, V)>,
}

impl<V: DeepView> View for StrMap<V> {
    type V = Map<Seq<char>, V::V>;

    closed spec fn view(&self) -> Map<Seq<char>, V::V> {
        entries_map(self.entries@)
    }
}

impl<V: DeepView> DeepView for StrMap<V> {
    type V = Map<Seq<char>, V::V>;

    open spec fn deep_view(&self) -> Map<Seq<char>, V::V> {
        self@
    }
}

impl<V: DeepView> StrMap<V> {
    #[verifier::type_invariant]
    pub closed spec fn well_formed(self) -> bool {
        keys_distinct(self.entries@)
    }

    /// The number of entries.
    pub closed spec fn count(self) -> nat {
        self.entries@.len()
    }

    /// The key of the `i`-th entry.
    pub closed spec fn key_at(self, i: int) -> Seq<char> {
        self.entries@[i].0@
    }

    /// The value of the `i`-th entry.
    pub closed spec fn value_at(self, i: int) -> V::V {
        self.entries@[i].1.deep_view()
    }

    /// The map that the first `j` entries stand for.
    pub closed spec fn prefix_view(self, j: int) -> Map<Seq<char>, V::V> {
        entries_map(self.entries@.take(j))
    }

    /// Walking the entries in order builds up the whole map, one new key at a time.
    pub proof fn lemma_prefix(self, j: int)
        requires
            self.well_formed(),
            0 <= j < self.count(),
        ensures
            self.prefix_view(0) == Map::<Seq<char>, V::V>::empty(),
            self.prefix_view(j + 1) == self.prefix_view(j).insert(self.key_at(j), self.value_at(j)),
            !self.prefix_view(j).contains_key(self.key_at(j)),
            self.prefix_view(self.count() as int) == self@,
    {
        let s = self.entries@;
        assert(s.take(0) =~= Seq::<(String, V)>::empty());
        assert(s.take(j + 1).drop_last() =~= s.take(j));
        lemma_entries_map_dom(s.take(j), s[j].0@);
        assert forall|i: int| 0 <= i < s.take(j).len() implies #[trigger] s.take(j)[i].0@ != s[j].0@ by {
            assert(s.take(j)[i] == s[i]);
        }
        assert(s.take(s.len() as int) =~= s);
    }

    /// The map in which every key is still to be added.
    pub proof fn lemma_prefix_zero(self)
        ensures
            self.prefix_view(0) == Map::<Seq<char>, V::V>::empty(),
            self.count() == 0 ==> self.prefix_view(0) == self@,
    {
        assert(self.entries@.take(0) =~= Seq::<(String, V)>::empty());
        if self.count() == 0 {
            assert(self.entries@ =~= Seq::<(String, V)>::empty());
        }
    }

    /// An empty map.
    pub fn new() -> (m: Self)
        ensures
            m@ == Map::<Seq<char>, V::V>::empty(),
            m.count() == 0,
    {
        StrMap { entries: Vec::new() }
    }

    /// The number of entries, which is the number of keys.
    pub fn len(&self) -> (n: usize)
        ensures
            n == self.count(),
            n == self@.len(),
    {
        proof {
            use_type_invariant(self);
            self.lemma_count_len();
        }
        self.entries.len()
    }

    proof fn lemma_count_len(self)
        requires
            self.well_formed(),
        ensures
            self@.len() == self.count(),
            self@.dom().finite(),
    {
        self.lemma_prefix_len(self.count() as int);
        assert(self.entries@.take(self.count() as int) =~= self.entries@);
    }

    proof fn lemma_prefix_len(self, j: int)
        requires
            self.well_formed(),
            0 <= j <= self.count(),
        ensures
            self.prefix_view(j).len() == j,
            self.prefix_view(j).dom().finite(),
        decreases j,
    {
        if j == 0 {
            self.lemma_prefix_zero();
        } else {
            self.lemma_prefix_len(j - 1);
            self.lemma_prefix(j - 1);
        }
    }

    /// The `i`-th entry.
    pub fn entry(&self, i: usize) -> (r: (&String, &V))
        requires
            i < self.count(),
        ensures
            r.0@ == self.key_at(i as int),
            r.1.deep_view() == self.value_at(i as int),
    {
        let e = &self.entries[i];
        (&e.0, &e.1)
    }

    /// Whether some entry has key `key`.
    pub fn contains_key(&self, key: &String) -> (r: bool)
        ensures
            r == self@.contains_key(key@),
    {
        proof {
            use_type_invariant(self);
        }
        match find_in(&self.entries, key) {
            Some(i) => {
                proof {
                    lemma_entries_map_value(self.entries@, i as int);
                }
                true
            },
            None => false,
        }
    }

    /// The value stored under `key`, if any.
    pub fn get(&self, key: &String) -> (r: Option<&V>)
        ensures
            r is Some <==> self@.contains_key(key@),
            r matches Some(v) ==> v.deep_view() == self@[key@],
    {
        proof {
            use_type_invariant(self);
        }
        match find_in(&self.entries, key) {
            Some(i) => {
                proof {
                    lemma_entries_map_value(self.entries@, i as int);
                }
                Some(&self.entries[i].1)
            },
            None => None,
        }
    }

    /// Takes the value stored under `key` out of the map.
    pub fn remove(&mut self, key: &String) -> (r: Option<V>)
        ensures
            r is Some <==> old(self)@.contains_key(key@),
            r matches Some(v) ==> v.deep_view() == old(self)@[key@],
            final(self)@ == old(self)@.remove(key@),
    {
        proof {
            use_type_invariant(&*self);
        }
        let mut entries: Vec<(String, V)> = Vec::new();
        std::mem::swap(&mut entries, &mut self.entries);
        let ghost s = entries@;
        assert(entries_map(s) == old(self)@);
        match find_in(&entries, key) {
            Some(i) => {
                proof {
                    lemma_entries_map_value(s, i as int);
                    lemma_entries_map_remove(s, i as int);
                    lemma_distinct_remove(s, i as int);
                }
                let (_, v) = entries.remove(i);
                self.entries = entries;
                Some(v)
            },
            None => {
                proof {
                    assert(old(self)@.remove(key@) =~= old(self)@);
                }
                self.entries = entries;
                None
            },
        }
    }

    /// Stores `value` under `key`, in place of any value stored there before.
    pub fn insert(&mut self, key: String, value: V)
        ensures
            final(self)@ == old(self)@.insert(key@, value.deep_view()),
    {
        proof {
            use_type_invariant(&*self);
        }
        let mut entries: Vec<(String, V)> = Vec::new();
        std::mem::swap(&mut entries, &mut self.entries);
        let ghost s0 = entries@;
        assert(entries_map(s0) == old(self)@);
        let ghost base: Map<Seq<char>, V::V>;
        match find_in(&entries, &key) {
            Some(i) => {
                proof {
                    lemma_entries_map_remove(s0, i as int);
                    lemma_distinct_remove(s0, i as int);
                }
                entries.remove(i);
                proof {
                    base = old(self)@.remove(key@);
                }
            },
            None => {
                proof {
                    base = old(self)@;
                }
            },
        }
        proof {
            assert(entries_map(entries@) == base);
            assert(!base.contains_key(key@));
            lemma_entries_map_dom(entries@, key@);
        }
        let ghost s1 = entries@;
        entries.push((key, value));
        proof {
            assert(entries@.drop_last() =~= s1);
            assert forall|a: int, b: int| 0 <= a < b < entries@.len() implies entries@[a].0@
                != entries@[b].0@ by {
                if b == entries@.len() - 1 {
                    assert(entries@[a] == s1[a]);
                } else {
                    assert(entries@[a] == s1[a] && entries@[b] == s1[b]);
                }
            }
            assert(entries_map(entries@) =~= old(self)@.insert(key@, value.deep_view()));
        }
        self.entries = entries;
    }
}

/// The position of the entry with key `key` in a list of entries, if there is one.
fn find_in<V: DeepView>(entries: &Vec<(String, V)>, key: &String) -> (r: Option<usize>)
    ensures
        r matches Some(i) ==> i < entries@.len() && entries@[i as int].0@ == key@,
        r is None ==> !entries_map(entries@).contains_key(key@),
{
    let n = entries.len();
    let mut i: usize = 0;
    while i < n
        invariant
            n == entries@.len(),
            i <= n,
            forall|j: int| 0 <= j < i ==> #[trigger] entries@[j].0@ != key@,
        decreases n - i,
    {
        if entries[i].0 == *key {
            return Some(i);
        }
        i = i + 1;
    }
    proof {
        lemma_entries_map_dom(entries@, key@);
    }
    None
}

} // verus!
