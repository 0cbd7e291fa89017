//! Maps with text keys.
use vstd::prelude::*;
use crate::text::{chars_before, owned, same_chars, texts, to_chars};

verus! {

/// A map from texts to values of some type.
pub struct StringMap<V> {
    entries: Vec<(String, V)>,
}

/// Whether the entry at `i` has the key `key`.
spec fn entry_at<V>(entries: Seq<(String, V)>, i: int, key: Seq<char>) -> bool {
    0 <= i < entries.len() && entries[i].0@ == key
}

/// Whether a list of texts is in ascending order, with nothing twice.
pub open spec fn ascending(keys: Seq<Seq<char>>) -> bool {
    forall|i: int, j: int|
        #![trigger keys[i], keys[j]]
        0 <= i < j < keys.len() ==> crate::text::text_before(keys[i], keys[j])
}

/// The texts in a map.
pub open spec fn text_map(map: Map<Seq<char>, String>) -> Map<Seq<char>, Seq<char>> {
    map.map_values(|s: String| s@)
}

impl<V> View for StringMap<V> {
    type V = Map<Seq<char>, V>;

    closed spec fn view(&self) -> Map<Seq<char>, V> {
        Map::new(
            |key: Seq<char>| exists|i: int| entry_at(self.entries@, i, key),
            |key: Seq<char>| self.entries@[choose|i: int| entry_at(self.entries@, i, key)].1,
        )
    }
}

impl<V> StringMap<V> {
    /// No key occurs twice.
    pub closed spec fn wf(self) -> bool {
        forall|i: int, j: int|
            #![trigger self.entries@[i], self.entries@[j]]
            0 <= i < j < self.entries@.len() ==> self.entries@[i].0@ != self.entries@[j].0@
    }

    proof fn lemma_entry(self, i: int)
        requires
            self.wf(),
            0 <= i < self.entries@.len(),
        ensures
            self@.contains_key(self.entries@[i].0@),
            self@[self.entries@[i].0@] == self.entries@[i].1,
    {
        let key = self.entries@[i].0@;
        assert(entry_at(self.entries@, i, key));
        let j = choose|j: int| entry_at(self.entries@, j, key);
        assert(entry_at(self.entries@, j, key));
        assert(i == j);
    }

    proof fn lemma_no_entry(self, key: Seq<char>)
        requires
            forall|i: int| 0 <= i < self.entries@.len() ==> self.entries@[i].0@ != key,
        ensures
            !self@.contains_key(key),
    {
        assert forall|i: int| !entry_at(self.entries@, i, key) by {}
    }

    /// A map without entries.
    pub fn new() -> (map: StringMap<V>)
        ensures
            map.wf(),
            map@ == Map::<Seq<char>, V>::empty(),
    {
        let map = StringMap { entries: Vec::new() };
        assert(map@ =~= Map::empty()) by {
            assert forall|key: Seq<char>| !map@.contains_key(key) by {
                map.lemma_no_entry(key);
            }
        }
        map
    }

    /// Whether there are no entries.
    pub fn is_empty(&self) -> (r: bool)
        requires
            self.wf(),
        ensures
            r == (self@ == Map::<Seq<char>, V>::empty()),
    {
        let r = self.entries.len() == 0;
        proof {
            if r {
                assert forall|key: Seq<char>| !self@.contains_key(key) by {
                    self.lemma_no_entry(key);
                }
                assert(self@ =~= Map::empty());
            } else {
                self.lemma_entry(0);
            }
        }
        r
    }

    fn position(&self, key: &str) -> (r: Option<usize>)
        requires
            self.wf(),
        ensures
            match r {
                Some(i) => i < self.entries@.len() && self.entries@[i as int].0@ == key@,
                None => forall|i: int|
                    0 <= i < self.entries@.len() ==> self.entries@[i].0@ != key@,
            },
    {
        let wanted = to_chars(key);
        let mut i: usize = 0;
        while i < self.entries.len()
            invariant
                i <= self.entries@.len(),
                wanted@ == key@,
                forall|j: int| 0 <= j < i ==> self.entries@[j].0@ != key@,
            decreases self.entries.len() - i,
        {
            if same_chars(to_chars(self.entries[i].0.as_str()).as_slice(), wanted.as_slice()) {
                return Some(i);
            }
            i = i + 1;
        }
        None
    }

    /// The value of a key.
    pub fn get(&self, key: &str) -> (r: Option<&V>)
        requires
            self.wf(),
        ensures
            r is Some <==> self@.contains_key(key@),
            r matches Some(v) ==> *v == self@[key@],
    {
        match self.position(key) {
            Some(i) => {
                proof {
                    self.lemma_entry(i as int);
                }
                Some(&self.entries[i].1)
            },
            None => {
                proof {
                    self.lemma_no_entry(key@);
                }
                None
            },
        }
    }

    /// Whether a key has a value.
    pub fn contains(&self, key: &str) -> (r: bool)
        requires
            self.wf(),
        ensures
            r == self@.contains_key(key@),
    {
        self.get(key).is_some()
    }

    /// Takes a key out of the map, with its value.
    pub fn remove(&mut self, key: &str) -> (r: Option<V>)
        requires
            old(self).wf(),
        ensures
            final(self).wf(),
            final(self)@ == old(self)@.remove(key@),
            r is Some <==> old(self)@.contains_key(key@),
            r matches Some(v) ==> v == old(self)@[key@],
    {
        match self.position(key) {
            Some(i) => {
                proof {
                    self.lemma_entry(i as int);
                }
                let entry = self.entries.remove(i);
                proof {
                    let before = old(self).entries@;
                    let after = self.entries@;
                    assert(after == before.remove(i as int));
                    assert(self.wf());
                    assert(self@ =~= old(self)@.remove(key@)) by {
                        assert forall|k: Seq<char>| #[trigger]
                            self@.contains_key(k) == old(self)@.remove(key@).contains_key(k) && (
                        self@.contains_key(k) ==> self@[k] == old(self)@[k]) by {
                            if k == key@ {
                                self.lemma_no_entry(k);
                            } else if exists|j: int| entry_at(before, j, k) {
                                let j = choose|j: int| entry_at(before, j, k);
                                old(self).lemma_entry(j);
                                self.lemma_entry(if j < i { j } else { j - 1 });
                            } else {
                                assert forall|j: int| 0 <= j < after.len() implies after[j].0@
                                    != k by {
                                    assert(!entry_at(before, if j < i { j } else { j + 1 }, k));
                                }
                                self.lemma_no_entry(k);
                            }
                        }
                    }
                }
                Some(entry.1)
            },
            None => {
                proof {
                    self.lemma_no_entry(key@);
                    assert(self@ =~= old(self)@.remove(key@));
                }
                None
            },
        }
    }

    /// Gives a key a value, in place of the one that it had.
    pub fn insert(&mut self, key: String, value: V)
        requires
            old(self).wf(),
        ensures
            final(self).wf(),
            final(self)@ == old(self)@.insert(key@, value),
    {
        let _ = self.remove(key.as_str());
        let ghost before = *self;
        let ghost text = key@;
        assert forall|i: int| 0 <= i < before.entries@.len() implies #[trigger] before.entries@[i].0@
            != text by {
            before.lemma_entry(i);
        }
        self.entries.push((key, value));
        proof {
            assert(self.wf());
            let n = before.entries@.len() as int;
            assert forall|k: Seq<char>| #[trigger]
                self@.contains_key(k) == old(self)@.insert(text, value).contains_key(k) && (
            self@.contains_key(k) ==> self@[k] == old(self)@.insert(text, value)[k]) by {
                if k == text {
                    self.lemma_entry(n);
                } else if exists|j: int| entry_at(before.entries@, j, k) {
                    let j = choose|j: int| entry_at(before.entries@, j, k);
                    before.lemma_entry(j);
                    self.lemma_entry(j);
                } else {
                    assert forall|j: int| 0 <= j < self.entries@.len() implies self.entries@[j].0@
                        != k by {
                        assert(!entry_at(before.entries@, j, k));
                    }
                    self.lemma_no_entry(k);
                    assert(!before@.contains_key(k));
                }
            }
            assert(self@ =~= old(self)@.insert(text, value));
        }
    }

    /// The keys in ascending order.
    pub fn sorted_keys(&self) -> (keys: Vec<String>)
        requires
            self.wf(),
        ensures
            ascending(texts(keys@)),
            forall|key: Seq<char>| texts(keys@).contains(key) <==> self@.contains_key(key),
    {
        let mut keys: Vec<String> = Vec::new();
        let mut n: usize = 0;
        while n < self.entries.len()
            invariant
                self.wf(),
                n <= self.entries@.len(),
                ascending(texts(keys@)),
                forall|key: Seq<char>|
                    #![trigger texts(keys@).contains(key)]
                    texts(keys@).contains(key) <==> exists|i: int|
                        i < n && entry_at(self.entries@, i, key),
            decreases self.entries.len() - n,
        {
            let key: &str = self.entries[n].0.as_str();
            let ghost text = key@;
            let ghost before = texts(keys@);
            proof {
                assert(!before.contains(text));
            }
            let at = insertion_point(&keys, key);
            keys.insert(at, owned(key));
            proof {
                let after = texts(keys@);
                assert(after =~= before.insert(at as int, text));
                lemma_inserted(before, at as int, text);
                assert forall|k: Seq<char>| #[trigger] after.contains(k) <==> exists|i: int|
                    i < n + 1 && entry_at(self.entries@, i, k) by {
                    if k == text {
                        assert(entry_at(self.entries@, n as int, k));
                    }
                    if before.contains(k) {
                        let i = choose|i: int| i < n && entry_at(self.entries@, i, k);
                        assert(i < n + 1 && entry_at(self.entries@, i, k));
                    }
                    if exists|i: int| i < n + 1 && entry_at(self.entries@, i, k) {
                        let i = choose|i: int| i < n + 1 && entry_at(self.entries@, i, k);
                        if i < n {
                            assert(before.contains(k));
                        } else {
                            assert(k == text);
                        }
                    }
                }
            }
            n = n + 1;
        }
        proof {
            assert forall|key: Seq<char>| texts(keys@).contains(key) <==> self@.contains_key(
                key,
            ) by {
                if self@.contains_key(key) {
                    let i = choose|i: int| entry_at(self.entries@, i, key);
                    assert(i < n && entry_at(self.entries@, i, key));
                }
            }
        }
        keys
    }
}

/// Where a text belongs in an ascending list that does not hold it.
fn insertion_point(keys: &Vec<String>, key: &str) -> (at: usize)
    requires
        ascending(texts(keys@)),
        !texts(keys@).contains(key@),
    ensures
        at <= keys@.len(),
        forall|i: int| 0 <= i < at ==> crate::text::text_before(texts(keys@)[i], key@),
        forall|i: int| at <= i < keys@.len() ==> crate::text::text_before(key@, texts(keys@)[i]),
{
    let wanted = to_chars(key);
    let mut at: usize = 0;
    while at < keys.len()
        invariant
            at <= keys@.len(),
            wanted@ == key@,
            ascending(texts(keys@)),
            !texts(keys@).contains(key@),
            forall|i: int| 0 <= i < at ==> crate::text::text_before(texts(keys@)[i], key@),
        decreases keys.len() - at,
    {
        let here = to_chars(keys[at].as_str());
        assert(here@ == texts(keys@)[at as int]);
        if !chars_before(here.as_slice(), wanted.as_slice()) {
            proof {
                crate::text::lemma_before_total(here@, key@);
                assert(here@ != key@);
                assert forall|i: int| at <= i < keys@.len() implies crate::text::text_before(
                    key@,
                    #[trigger] texts(keys@)[i],
                ) by {
                    if i > at {
                        crate::text::lemma_before_transitive(key@, here@, texts(keys@)[i]);
                    }
                }
            }
            return at;
        }
        at = at + 1;
    }
    at
}

proof fn lemma_inserted(keys: Seq<Seq<char>>, at: int, key: Seq<char>)
    requires
        0 <= at <= keys.len(),
        ascending(keys),
        forall|i: int| 0 <= i < at ==> crate::text::text_before(keys[i], key),
        forall|i: int| at <= i < keys.len() ==> crate::text::text_before(key, keys[i]),
    ensures
        ascending(keys.insert(at, key)),
        forall|k: Seq<char>| #[trigger]
            keys.insert(at, key).contains(k) <==> k == key || keys.contains(k),
{
    let after = keys.insert(at, key);
    assert forall|i: int, j: int| #![trigger after[i], after[j]]
        0 <= i < j < after.len() implies crate::text::text_before(after[i], after[j]) by {
        let a = if i < at { i } else { i - 1 };
        let b = if j < at { j } else { j - 1 };
        if i != at && j != at {
            assert(after[i] == keys[a] && after[j] == keys[b]);
        } else if i == at {
            assert(after[j] == keys[b]);
        } else {
            assert(after[i] == keys[a]);
        }
    }
    assert forall|k: Seq<char>| #[trigger] after.contains(k) <==> k == key || keys.contains(k) by {
        if k == key {
            assert(after[at] == key);
        }
        if keys.contains(k) {
            let i = choose|i: int| 0 <= i < keys.len() && keys[i] == k;
            assert(after[if i < at { i } else { i + 1 }] == k);
        }
        if after.contains(k) && k != key {
            let i = choose|i: int| 0 <= i < after.len() && after[i] == k;
            assert(keys[if i < at { i } else { i - 1 }] == k);
        }
    }
}

/// A list is in ascending order exactly if each text in it comes before the next one.
pub proof fn law_ascending(keys: Seq<Seq<char>>)
    ensures
        ascending(keys) <==> forall|i: int|
            0 <= i < keys.len() - 1 ==> crate::text::text_before(#[trigger] keys[i], keys[i + 1]),
{
    if forall|i: int|
        0 <= i < keys.len() - 1 ==> crate::text::text_before(#[trigger] keys[i], keys[i + 1]) {
        assert forall|i: int, j: int| #![trigger keys[i], keys[j]]
            0 <= i < j < keys.len() implies crate::text::text_before(keys[i], keys[j]) by {
            lemma_ascending(keys, i, j);
        }
    }
}

proof fn lemma_ascending(keys: Seq<Seq<char>>, i: int, j: int)
    requires
        0 <= i < j < keys.len(),
        forall|k: int|
            0 <= k < keys.len() - 1 ==> crate::text::text_before(#[trigger] keys[k], keys[k + 1]),
    ensures
        crate::text::text_before(keys[i], keys[j]),
    decreases j - i,
{
    assert(crate::text::text_before(keys[j - 1], keys[j - 1 + 1]));
    if i < j - 1 {
        lemma_ascending(keys, i, j - 1);
        crate::text::lemma_before_transitive(keys[i], keys[j - 1], keys[j]);
    }
}

/// The texts of a map stand under the keys of the strings.
pub proof fn law_texts_of_a_map(map: Map<Seq<char>, String>, key: Seq<char>)
    ensures
        text_map(map).contains_key(key) <==> map.contains_key(key),
        map.contains_key(key) ==> text_map(map)[key] == map[key]@,
{
}

} // verus!
