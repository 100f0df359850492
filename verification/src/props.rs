use vstd::prelude::*;

verus! {

/// The properties of a custom block: a map from keys to values, where setting a key
/// again replaces its value.
#[derive(Debug)]
pub struct PropMap {
    entries: Vec<(String, String)>,
}

/// No key occurs twice in `s`.
spec fn distinct_keys(s: Seq<(String, String)>) -> bool {
    forall|i: int, j: int|
        0 <= i < s.len() && 0 <= j < s.len() && i != j ==> #[trigger] s[i].0@ != #[trigger] s[j].0@
}

/// `key` is the key of entry `i` of `s`.
spec fn key_at(s: Seq<(String, String)>, key: Seq<char>, i: int) -> bool {
    0 <= i < s.len() && s[i].0@ == key
}

/// The map that a sequence of entries stands for.
spec fn map_of(s: Seq<(String, String)>) -> Map<Seq<char>, Seq<char>> {
    Map::new(
        |k: Seq<char>| exists|i: int| key_at(s, k, i),
        |k: Seq<char>| s[choose|i: int| key_at(s, k, i)].1@,
    )
}

proof fn lemma_map_of_at(s: Seq<(String, String)>, i: int)
    requires
        distinct_keys(s),
        0 <= i < s.len(),
    ensures
        map_of(s).contains_key(s[i].0@),
        map_of(s)[s[i].0@] == s[i].1@,
{
    assert(key_at(s, s[i].0@, i));
    let c = choose|j: int| key_at(s, s[i].0@, j);
    assert(key_at(s, s[i].0@, c));
    if c != i {
        assert(s[c].0@ != s[i].0@);
    }
}

proof fn lemma_map_of_update(s: Seq<(String, String)>, i: int, e: (String, String))
    requires
        distinct_keys(s),
        0 <= i < s.len(),
        s[i].0@ == e.0@,
    ensures
        distinct_keys(s.update(i, e)),
        map_of(s.update(i, e)) == map_of(s).insert(e.0@, e.1@),
{
    let t = s.update(i, e);
    assert forall|a: int, b: int| 0 <= a < t.len() && 0 <= b < t.len() && a != b implies #[trigger] t[a].0@
        != #[trigger] t[b].0@ by {
        assert(s[a].0@ != s[b].0@);
    }
    assert forall|k: Seq<char>| #[trigger] map_of(t).contains_key(k) <==> map_of(s).insert(e.0@, e.1@).contains_key(k) by {
        if map_of(t).contains_key(k) {
            let c = choose|j: int| key_at(t, k, j);
            assert(key_at(s, k, c));
        }
        if map_of(s).contains_key(k) {
            let c = choose|j: int| key_at(s, k, j);
            assert(key_at(t, k, c));
        }
        if k == e.0@ {
            assert(key_at(t, k, i));
        }
    }
    assert forall|k: Seq<char>| #[trigger] map_of(t).contains_key(k) implies map_of(t)[k] == map_of(s).insert(
        e.0@,
        e.1@,
    )[k] by {
        let c = choose|j: int| key_at(t, k, j);
        lemma_map_of_at(t, c);
        if c != i {
            lemma_map_of_at(s, c);
        }
    }
    assert(map_of(t) =~= map_of(s).insert(e.0@, e.1@));
}

proof fn lemma_map_of_push(s: Seq<(String, String)>, e: (String, String))
    requires
        distinct_keys(s),
        forall|j: int| 0 <= j < s.len() ==> s[j].0@ != e.0@,
    ensures
        distinct_keys(s.push(e)),
        map_of(s.push(e)) == map_of(s).insert(e.0@, e.1@),
{
    let t = s.push(e);
    let n = s.len() as int;
    assert forall|a: int, b: int| 0 <= a < t.len() && 0 <= b < t.len() && a != b implies #[trigger] t[a].0@
        != #[trigger] t[b].0@ by {
        if a < n && b < n {
            assert(s[a].0@ != s[b].0@);
        }
    }
    assert forall|k: Seq<char>| #[trigger] map_of(t).contains_key(k) <==> map_of(s).insert(e.0@, e.1@).contains_key(k) by {
        if map_of(t).contains_key(k) {
            let c = choose|j: int| key_at(t, k, j);
            if c < n {
                assert(key_at(s, k, c));
            }
        }
        if map_of(s).contains_key(k) {
            let c = choose|j: int| key_at(s, k, j);
            assert(key_at(t, k, c));
        }
        if k == e.0@ {
            assert(key_at(t, k, n));
        }
    }
    assert forall|k: Seq<char>| #[trigger] map_of(t).contains_key(k) implies map_of(t)[k] == map_of(s).insert(
        e.0@,
        e.1@,
    )[k] by {
        let c = choose|j: int| key_at(t, k, j);
        lemma_map_of_at(t, c);
        if c < n {
            lemma_map_of_at(s, c);
        }
    }
    assert(map_of(t) =~= map_of(s).insert(e.0@, e.1@));
}

impl PropMap {
    #[verifier::type_invariant]
    spec fn keys_distinct(self) -> bool {
        distinct_keys(self.entries@)
    }
}

impl View for PropMap {
    type V = Map<Seq<char>, Seq<char>>;

    closed spec fn view(&self) -> Map<Seq<char>, Seq<char>> {
        map_of(self.entries@)
    }
}

impl PropMap {
    /// An empty map.
    pub fn new() -> (m: PropMap)
        ensures
            m@ == Map::<Seq<char>, Seq<char>>::empty(),
    {
        let m = PropMap { entries: Vec::new() };
        assert(m@ =~= Map::<Seq<char>, Seq<char>>::empty());
        m
    }

    /// Whether the map holds no key.
    pub fn is_empty(&self) -> (r: bool)
        ensures
            r == (self@ == Map::<Seq<char>, Seq<char>>::empty()),
    {
        if self.entries.len() == 0 {
            assert(self@ =~= Map::<Seq<char>, Seq<char>>::empty());
            true
        } else {
            assert(key_at(self.entries@, self.entries@[0].0@, 0));
            assert(self@.contains_key(self.entries@[0].0@));
            false
        }
    }

    /// The number of keys.
    pub fn len(&self) -> (r: usize)
        ensures
            r == self@.len(),
    {
        proof {
            use_type_invariant(self);
            let s = self.entries@;
            assert(distinct_keys(s));
            let ks = s.map_values(|e: (String, String)| e.0@);
            assert(ks.no_duplicates()) by {
                assert forall|i: int, j: int| 0 <= i < ks.len() && 0 <= j < ks.len() && i != j implies ks[i]
                    != ks[j] by {
                    assert(s[i].0@ != s[j].0@);
                }
            }
            ks.unique_seq_to_set();
            assert forall|k: Seq<char>| #[trigger] self@.dom().contains(k) <==> ks.to_set().contains(k) by {
                if self@.dom().contains(k) {
                    let c = choose|j: int| key_at(s, k, j);
                    assert(ks[c] == k);
                }
                if ks.to_set().contains(k) {
                    let c = choose|j: int| 0 <= j < ks.len() && ks[j] == k;
                    assert(key_at(s, k, c));
                }
            }
            assert(self@.dom() =~= ks.to_set());
        }
        self.entries.len()
    }

    /// The value of `key`, if it has one.
    pub fn get(&self, key: &str) -> (r: Option<&String>)
        ensures
            match r {
                Some(v) => self@.contains_key(key@) && self@[key@] == v@,
                None => !self@.contains_key(key@),
            },
    {
        proof {
            use_type_invariant(self);
        }
        let wanted = String::from_str(key);
        let n = self.entries.len();
        let mut i: usize = 0;
        while i < n
            invariant
                n == self.entries@.len(),
                wanted@ == key@,
                distinct_keys(self.entries@),
                forall|j: int| 0 <= j < i ==> self.entries@[j].0@ != key@,
            decreases n - i,
        {
            if self.entries[i].0.eq(&wanted) {
                proof {
                    lemma_map_of_at(self.entries@, i as int);
                }
                return Some(&self.entries[i].1);
            }
            i = i + 1;
        }
        proof {
            if self@.contains_key(key@) {
                let c = choose|j: int| key_at(self.entries@, key@, j);
                assert(key_at(self.entries@, key@, c));
            }
        }
        None
    }

    /// Sets the value of `key` to `value`, replacing any value it had.
    pub fn insert(&mut self, key: String, value: String)
        ensures
            final(self)@ == old(self)@.insert(key@, value@),
    {
        proof {
            use_type_invariant(&*self);
        }
        let ghost old_entries = self.entries@;
        let mut entries: Vec<(String, String)> = Vec::new();
        std::mem::swap(&mut entries, &mut self.entries);
        let n = entries.len();
        let mut i: usize = 0;
        while i < n
            invariant
                n == entries@.len(),
                entries@ == old_entries,
                old_entries == old(self).entries@,
                distinct_keys(old_entries),
                forall|j: int| 0 <= j < i ==> old_entries[j].0@ != key@,
            decreases n - i,
        {
            if entries[i].0.eq(&key) {
                proof {
                    lemma_map_of_update(old_entries, i as int, (key, value));
                }
                entries.set(i, (key, value));
                self.entries = entries;
                return;
            }
            i = i + 1;
        }
        proof {
            lemma_map_of_push(old_entries, (key, value));
        }
        entries.push((key, value));
        self.entries = entries;
    }
}

} // verus!
