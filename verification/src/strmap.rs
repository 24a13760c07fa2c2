use vstd::prelude::*;
use crate::text::str_is;

verus! {

/// A map from text keys to values, kept as a list of entries with distinct keys.
pub struct StrMap<V> {
    entries: Vec<(String, V)>,
}

/// The entries of a list, keys taken by their characters.
pub open spec fn entry_views<V>(e: Seq<(String, V)>) -> Seq<(Seq<char>, V)> {
    e.map_values(|p: (String, V)| (p.0@, p.1))
}

/// No key occurs twice.
pub open spec fn distinct_keys<K, V>(s: Seq<(K, V)>) -> bool {
    forall|i: int, j: int| 0 <= i < s.len() && 0 <= j < s.len() && i != j ==> s[i].0 != s[j].0
}

/// The map that a list of entries with distinct keys stands for.
pub open spec fn entries_map<K, V>(s: Seq<(K, V)>) -> Map<K, V> {
    Map::new(
        |k: K| exists|i: int| 0 <= i < s.len() && s[i].0 == k,
        |k: K| s[choose|i: int| 0 <= i < s.len() && s[i].0 == k].1,
    )
}

/// With distinct keys, the entry at `i` is what the map holds for its key.
pub proof fn lemma_entry_in_map<K, V>(s: Seq<(K, V)>, i: int)
    requires
        distinct_keys(s),
        0 <= i < s.len(),
    ensures
        entries_map(s).contains_key(s[i].0),
        entries_map(s)[s[i].0] == s[i].1,
{
    let k = s[i].0;
    assert(exists|j: int| 0 <= j < s.len() && s[j].0 == k);
    let j = choose|j: int| 0 <= j < s.len() && s[j].0 == k;
    assert(j == i);
}

/// Appending an entry with a new key inserts it into the map.
pub proof fn lemma_push_entry<K, V>(s: Seq<(K, V)>, k: K, v: V)
    requires
        distinct_keys(s),
        !entries_map(s).contains_key(k),
    ensures
        distinct_keys(s.push((k, v))),
        entries_map(s.push((k, v))) == entries_map(s).insert(k, v),
{
    let t = s.push((k, v));
    assert forall|i: int, j: int| 0 <= i < t.len() && 0 <= j < t.len() && i != j implies t[i].0
        != t[j].0 by {
        if i == s.len() {
            assert(!(exists|m: int| 0 <= m < s.len() && s[m].0 == k));
            assert(t[j] == s[j]);
        } else if j == s.len() {
            assert(!(exists|m: int| 0 <= m < s.len() && s[m].0 == k));
            assert(t[i] == s[i]);
        } else {
            assert(t[i] == s[i] && t[j] == s[j]);
        }
    }
    assert forall|q: K| #[trigger] entries_map(t).contains_key(q) == entries_map(s).insert(
        k,
        v,
    ).contains_key(q) by {
        if entries_map(s).contains_key(q) {
            let m = choose|m: int| 0 <= m < s.len() && s[m].0 == q;
            assert(t[m].0 == q);
        }
        if q == k {
            assert(t[s.len() as int].0 == q);
        }
        if entries_map(t).contains_key(q) {
            let m = choose|m: int| 0 <= m < t.len() && t[m].0 == q;
            if m < s.len() {
                assert(s[m].0 == q);
            }
        }
    }
    assert forall|q: K| #[trigger] entries_map(t).contains_key(q) implies entries_map(t)[q]
        == entries_map(s).insert(k, v)[q] by {
        let m = choose|m: int| 0 <= m < t.len() && t[m].0 == q;
        lemma_entry_in_map(t, m);
        if m < s.len() {
            assert(t[m] == s[m]);
            lemma_entry_in_map(s, m);
        }
    }
    assert(entries_map(t) =~= entries_map(s).insert(k, v));
}

/// Replacing the value of the entry at `i` updates that key in the map.
pub proof fn lemma_set_entry<K, V>(s: Seq<(K, V)>, i: int, v: V)
    requires
        distinct_keys(s),
        0 <= i < s.len(),
    ensures
        distinct_keys(s.update(i, (s[i].0, v))),
        entries_map(s.update(i, (s[i].0, v))) == entries_map(s).insert(s[i].0, v),
{
    let k = s[i].0;
    let t = s.update(i, (k, v));
    assert forall|a: int, b: int| 0 <= a < t.len() && 0 <= b < t.len() && a != b implies t[a].0
        != t[b].0 by {
        assert(t[a].0 == s[a].0 && t[b].0 == s[b].0);
    }
    lemma_entry_in_map(s, i);
    assert forall|q: K| #[trigger] entries_map(t).contains_key(q) == entries_map(s).insert(
        k,
        v,
    ).contains_key(q) by {
        if entries_map(s).contains_key(q) {
            let m = choose|m: int| 0 <= m < s.len() && s[m].0 == q;
            assert(t[m].0 == q);
        }
        if entries_map(t).contains_key(q) {
            let m = choose|m: int| 0 <= m < t.len() && t[m].0 == q;
            assert(s[m].0 == q);
        }
    }
    assert forall|q: K| #[trigger] entries_map(t).contains_key(q) implies entries_map(t)[q]
        == entries_map(s).insert(k, v)[q] by {
        let m = choose|m: int| 0 <= m < t.len() && t[m].0 == q;
        lemma_entry_in_map(t, m);
        if m != i {
            lemma_entry_in_map(s, m);
        }
    }
    assert(entries_map(t) =~= entries_map(s).insert(k, v));
}

/// Removing the entry at `i` removes its key from the map.
pub proof fn lemma_remove_entry<K, V>(s: Seq<(K, V)>, i: int)
    requires
        distinct_keys(s),
        0 <= i < s.len(),
    ensures
        distinct_keys(s.remove(i)),
        entries_map(s.remove(i)) == entries_map(s).remove(s[i].0),
{
    let k = s[i].0;
    let t = s.remove(i);
    assert forall|a: int, b: int| 0 <= a < t.len() && 0 <= b < t.len() && a != b implies t[a].0
        != t[b].0 by {
        let a2 = if a < i { a } else { a + 1 };
        let b2 = if b < i { b } else { b + 1 };
        assert(t[a] == s[a2] && t[b] == s[b2]);
    }
    assert forall|q: K| #[trigger] entries_map(t).contains_key(q) == entries_map(
        s,
    ).remove(k).contains_key(q) by {
        if entries_map(s).contains_key(q) && q != k {
            let m = choose|m: int| 0 <= m < s.len() && s[m].0 == q;
            assert(m != i);
            let m2 = if m < i { m } else { m - 1 };
            assert(t[m2].0 == q);
        }
        if entries_map(t).contains_key(q) {
            let m = choose|m: int| 0 <= m < t.len() && t[m].0 == q;
            let m2 = if m < i { m } else { m + 1 };
            assert(s[m2].0 == q);
            assert(m2 != i);
        }
    }
    assert forall|q: K| #[trigger] entries_map(t).contains_key(q) implies entries_map(t)[q]
        == entries_map(s).remove(k)[q] by {
        let m = choose|m: int| 0 <= m < t.len() && t[m].0 == q;
        lemma_entry_in_map(t, m);
        let m2 = if m < i { m } else { m + 1 };
        assert(t[m] == s[m2]);
        lemma_entry_in_map(s, m2);
    }
    assert(entries_map(t) =~= entries_map(s).remove(k));
}

impl<V> StrMap<V> {
    /// The entries, keys taken by their characters.
    pub closed spec fn items(&self) -> Seq<(Seq<char>, V)> {
        entry_views(self.entries@)
    }

    #[verifier::type_invariant]
    spec fn keys_distinct(&self) -> bool {
        distinct_keys(entry_views(self.entries@))
    }

    /// The keys of the map are the keys of its entries.
    pub proof fn lemma_view_domain(&self)
        ensures
            forall|k: Seq<char>| #[trigger]
                self@.contains_key(k) <==> exists|j: int|
                    0 <= j < self.items().len() && self.items()[j].0 == k,
    {
    }

    /// An empty map.
    pub fn new() -> (m: Self)
        ensures
            m@ == Map::<Seq<char>, V>::empty(),
            m.items().len() == 0,
    {
        let m = StrMap { entries: Vec::new() };
        assert(m.items() =~= Seq::<(Seq<char>, V)>::empty());
        assert(m@ =~= Map::<Seq<char>, V>::empty());
        m
    }

    /// The number of entries.
    pub fn len(&self) -> (n: usize)
        ensures
            n == self.items().len(),
            distinct_keys(self.items()),
    {
        proof {
            use_type_invariant(self);
        }
        self.entries.len()
    }

    /// The map is what its list of entries stands for.
    pub proof fn lemma_view_is_items(&self)
        ensures
            self@ == entries_map(self.items()),
    {
    }

    /// The map holds finitely many keys.
    pub proof fn lemma_view_finite(&self)
        ensures
            self@.dom().finite(),
    {
        let keys = self.items().map_values(|e: (Seq<char>, V)| e.0);
        let fin = keys.to_set();
        assert(fin.finite()) by {
            vstd::seq_lib::seq_to_set_is_finite(keys);
        }
        assert forall|k: Seq<char>| self@.dom().contains(k) implies fin.contains(k) by {
            let i = choose|i: int| 0 <= i < self.items().len() && self.items()[i].0 == k;
            assert(keys[i] == k);
        }
        vstd::set_lib::lemma_set_subset_finite(fin, self@.dom());
    }

    /// Whether the map is empty.
    pub fn is_empty(&self) -> (r: bool)
        ensures
            r == (self@.dom() == Set::<Seq<char>>::empty()),
            r == (self.items().len() == 0),
    {
        proof {
            if self.entries@.len() > 0 {
                use_type_invariant(self);
                lemma_entry_in_map(self.items(), 0);
                assert(self@.dom().contains(self.items()[0].0));
            } else {
                assert(self@.dom() =~= Set::<Seq<char>>::empty());
            }
        }
        self.entries.len() == 0
    }

    /// The key and value of the entry at `i`.
    pub fn entry_at(&self, i: usize) -> (r: (&String, &V))
        requires
            i < self.items().len(),
        ensures
            r.0@ == self.items()[i as int].0,
            *r.1 == self.items()[i as int].1,
            self@.contains_key(r.0@),
            self@[r.0@] == *r.1,
            distinct_keys(self.items()),
    {
        proof {
            use_type_invariant(self);
            lemma_entry_in_map(self.items(), i as int);
        }
        let e = &self.entries[i];
        (&e.0, &e.1)
    }

    /// The position of the entry whose key has the characters `key`.
    pub fn find_chars(&self, key: &[char]) -> (r: Option<usize>)
        ensures
            match r {
                Some(i) => i < self.items().len() && self.items()[i as int].0 == key@,
                None => !self@.contains_key(key@),
            },
    {
        let mut i: usize = 0;
        while i < self.entries.len()
            invariant
                i <= self.entries@.len(),
                forall|j: int| 0 <= j < i ==> self.items()[j].0 != key@,
            decreases self.entries@.len() - i,
        {
            if str_is(self.entries[i].0.as_str(), key) {
                return Some(i);
            }
            i = i + 1;
        }
        proof {
            if self@.contains_key(key@) {
                let m = choose|m: int| 0 <= m < self.items().len() && self.items()[m].0 == key@;
                assert(self.items()[m].0 != key@);
            }
        }
        None
    }

    /// The value for the key with the characters `key`.
    pub fn get_chars(&self, key: &[char]) -> (r: Option<&V>)
        ensures
            match r {
                Some(v) => self@.contains_key(key@) && *v == self@[key@],
                None => !self@.contains_key(key@),
            },
    {
        match self.find_chars(key) {
            Some(i) => {
                proof {
                    use_type_invariant(self);
                    lemma_entry_in_map(self.items(), i as int);
                }
                Some(&self.entries[i].1)
            },
            None => None,
        }
    }

    /// The value for `key`.
    pub fn get(&self, key: &str) -> (r: Option<&V>)
        ensures
            match r {
                Some(v) => self@.contains_key(key@) && *v == self@[key@],
                None => !self@.contains_key(key@),
            },
    {
        let k = crate::text::chars_of(key);
        self.get_chars(k.as_slice())
    }

    /// Whether `key` is present.
    pub fn contains_key(&self, key: &str) -> (r: bool)
        ensures
            r == self@.contains_key(key@),
    {
        let k = crate::text::chars_of(key);
        self.find_chars(k.as_slice()).is_some()
    }

    /// Sets the value of `key`, adding the key when it is new.
    pub fn insert(&mut self, key: String, value: V)
        ensures
            final(self)@ == old(self)@.insert(key@, value),
    {
        proof {
            use_type_invariant(&*self);
        }
        let k = crate::text::chars_of(key.as_str());
        match self.find_chars(k.as_slice()) {
            Some(i) => {
                proof {
                    lemma_set_entry(self.items(), i as int, value);
                }
                let ghost before = self.entries@;
                let mut entries: Vec<(String, V)> = Vec::new();
                std::mem::swap(&mut entries, &mut self.entries);
                entries.set(i, (key, value));
                assert(entry_views(entries@) =~= entry_views(before).update(
                    i as int,
                    (entry_views(before)[i as int].0, value),
                ));
                self.entries = entries;
            },
            None => {
                proof {
                    lemma_push_entry(self.items(), key@, value);
                }
                let ghost before = self.entries@;
                let mut entries: Vec<(String, V)> = Vec::new();
                std::mem::swap(&mut entries, &mut self.entries);
                entries.push((key, value));
                assert(entry_views(entries@) =~= entry_views(before).push((k@, value)));
                self.entries = entries;
            },
        }
    }

    /// Removes `key` and hands back its value, when present.
    pub fn take(&mut self, key: &str) -> (r: Option<V>)
        ensures
            final(self)@ == old(self)@.remove(key@),
            r == (if old(self)@.contains_key(key@) {
                Some(old(self)@[key@])
            } else {
                None
            }),
    {
        proof {
            use_type_invariant(&*self);
        }
        let k = crate::text::chars_of(key);
        match self.find_chars(k.as_slice()) {
            Some(i) => {
                proof {
                    lemma_remove_entry(self.items(), i as int);
                    lemma_entry_in_map(self.items(), i as int);
                }
                let ghost before = self.entries@;
                let mut entries: Vec<(String, V)> = Vec::new();
                std::mem::swap(&mut entries, &mut self.entries);
                let e = entries.remove(i);
                assert(entry_views(entries@) =~= entry_views(before).remove(i as int));
                self.entries = entries;
                Some(e.1)
            },
            None => {
                assert(old(self)@.remove(key@) =~= old(self)@);
                None
            },
        }
    }

    /// Removes `key` when present.
    pub fn remove(&mut self, key: &str)
        ensures
            final(self)@ == old(self)@.remove(key@),
    {
        proof {
            use_type_invariant(&*self);
        }
        let k = crate::text::chars_of(key);
        match self.find_chars(k.as_slice()) {
            Some(i) => {
                proof {
                    lemma_remove_entry(self.items(), i as int);
                }
                let ghost before = self.entries@;
                let mut entries: Vec<(String, V)> = Vec::new();
                std::mem::swap(&mut entries, &mut self.entries);
                let _ = entries.remove(i);
                assert(entry_views(entries@) =~= entry_views(before).remove(i as int));
                self.entries = entries;
            },
            None => {
                assert(old(self)@.remove(key@) =~= old(self)@);
            },
        }
    }
}

impl<V> View for StrMap<V> {
    type V = Map<Seq<char>, V>;

    closed spec fn view(&self) -> Map<Seq<char>, V> {
        entries_map(self.items())
    }
}

} // verus!
