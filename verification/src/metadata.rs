//! String-keyed metadata: a small map that keeps its entries in the order in
//! which their keys first appeared.

use vstd::prelude::*;

verus! {

/// No key occurs twice among `entries`.
pub open spec fn distinct_keys(entries: Seq<(String, String)>) -> bool {
    forall|i: int, j: int|
        0 <= i < entries.len() && 0 <= j < entries.len() && i != j ==> (#[trigger] entries[i]).0@
            != (#[trigger] entries[j]).0@
}

/// Whether some entry of `entries` has the key `key`.
pub open spec fn has_key(entries: Seq<(String, String)>, key: Seq<char>) -> bool {
    exists|i: int| 0 <= i < entries.len() && (#[trigger] entries[i]).0@ == key
}

/// The position of an entry with the key `key`.
pub open spec fn position_of(entries: Seq<(String, String)>, key: Seq<char>) -> int {
    choose|i: int| 0 <= i < entries.len() && (#[trigger] entries[i]).0@ == key
}

/// The keys of `entries`, one by one.
pub open spec fn keys_of(entries: Seq<(String, String)>) -> Seq<Seq<char>> {
    entries.map_values(|entry: (String, String)| entry.0@)
}

/// `keys` names each key of `map` once, and nothing else.
pub open spec fn lists(keys: Seq<Seq<char>>, map: Map<Seq<char>, Seq<char>>) -> bool {
    &&& keys.no_duplicates()
    &&& forall|key: Seq<char>| #[trigger] keys.contains(key) <==> map.contains_key(key)
}

/// A position at which `key` stands in `keys`.
pub open spec fn key_position(keys: Seq<Seq<char>>, key: Seq<char>) -> int {
    choose|i: int| 0 <= i < keys.len() && keys[i] == key
}

/// `keys` without `key`, the others in their order.
pub open spec fn without_key(keys: Seq<Seq<char>>, key: Seq<char>) -> Seq<Seq<char>> {
    if keys.contains(key) {
        keys.remove(key_position(keys, key))
    } else {
        keys
    }
}

/// `keys` followed by those of `more` that it lacks, in their order.
pub open spec fn merged_keys(keys: Seq<Seq<char>>, more: Seq<Seq<char>>) -> Seq<Seq<char>>
    decreases more.len(),
{
    if more.len() == 0 {
        keys
    } else {
        let before = merged_keys(keys, more.drop_last());
        if before.contains(more.last()) {
            before
        } else {
            before.push(more.last())
        }
    }
}

/// With distinct keys, the keys of a list of entries list the keys of its
/// map.
pub proof fn lemma_keys_list_map(entries: Seq<(String, String)>)
    requires
        distinct_keys(entries),
    ensures
        lists(keys_of(entries), entries_map(entries)),
{
    let keys = keys_of(entries);
    assert forall|i: int, j: int| 0 <= i < keys.len() && 0 <= j < keys.len() && i != j implies keys[i]
        != keys[j] by {
        assert(keys[i] == entries[i].0@ && keys[j] == entries[j].0@);
    }
    assert forall|key: Seq<char>| #[trigger] keys.contains(key) <==> entries_map(
        entries,
    ).contains_key(key) by {
        if keys.contains(key) {
            let i = choose|i: int| 0 <= i < keys.len() && keys[i] == key;
            assert(entries[i].0@ == key);
            assert(has_key(entries, key));
        }
        if has_key(entries, key) {
            let i = position_of(entries, key);
            assert(keys[i] == key);
        }
    }
}

/// The map that a list of entries stands for.
pub open spec fn entries_map(entries: Seq<(String, String)>) -> Map<Seq<char>, Seq<char>> {
    Map::new(
        |key: Seq<char>| has_key(entries, key),
        |key: Seq<char>| entries[position_of(entries, key)].1@,
    )
}

/// With distinct keys, the entry at position `i` is what the map holds for
/// its key.
pub proof fn lemma_entry_in_map(entries: Seq<(String, String)>, i: int)
    requires
        distinct_keys(entries),
        0 <= i < entries.len(),
    ensures
        entries_map(entries).contains_key(entries[i].0@),
        entries_map(entries)[entries[i].0@] == entries[i].1@,
        position_of(entries, entries[i].0@) == i,
{
    let key = entries[i].0@;
    assert(has_key(entries, key));
    let p = position_of(entries, key);
    assert(0 <= p < entries.len() && entries[p].0@ == key);
}

/// Appending an entry with a fresh key inserts it into the map.
pub proof fn lemma_push_entry(entries: Seq<(String, String)>, entry: (String, String))
    requires
        distinct_keys(entries),
        !has_key(entries, entry.0@),
    ensures
        distinct_keys(entries.push(entry)),
        entries_map(entries.push(entry)) == entries_map(entries).insert(entry.0@, entry.1@),
{
    let after = entries.push(entry);
    assert forall|i: int, j: int|
        0 <= i < after.len() && 0 <= j < after.len() && i != j implies (#[trigger] after[i]).0@
        != (#[trigger] after[j]).0@ by {
        if i < entries.len() && j < entries.len() {
            assert(after[i] == entries[i] && after[j] == entries[j]);
        } else if i < entries.len() {
            assert(after[i] == entries[i]);
            assert(has_key(entries, entries[i].0@));
        } else {
            assert(after[j] == entries[j]);
            assert(has_key(entries, entries[j].0@));
        }
    }
    let want = entries_map(entries).insert(entry.0@, entry.1@);
    assert forall|key: Seq<char>| entries_map(after).contains_key(key) <==> want.contains_key(
        key,
    ) by {
        if has_key(after, key) {
            let p = position_of(after, key);
            if p < entries.len() {
                assert(after[p] == entries[p]);
                assert(has_key(entries, key));
            }
        }
        if has_key(entries, key) {
            let p = position_of(entries, key);
            assert(after[p] == entries[p]);
            assert(has_key(after, key));
        }
        if key == entry.0@ {
            assert(after[entries.len() as int] == entry);
            assert(has_key(after, key));
        }
    }
    assert forall|key: Seq<char>| entries_map(after).contains_key(key) implies entries_map(
        after,
    )[key] == want[key] by {
        let p = position_of(after, key);
        lemma_entry_in_map(after, p);
        if p < entries.len() {
            assert(after[p] == entries[p]);
            lemma_entry_in_map(entries, p);
        }
    }
    assert(entries_map(after) =~= want);
}

/// Replacing the value of the entry at position `i` updates the map at its
/// key.
pub proof fn lemma_update_entry(entries: Seq<(String, String)>, i: int, entry: (String, String))
    requires
        distinct_keys(entries),
        0 <= i < entries.len(),
        entry.0@ == entries[i].0@,
    ensures
        distinct_keys(entries.update(i, entry)),
        entries_map(entries.update(i, entry)) == entries_map(entries).insert(entry.0@, entry.1@),
{
    let after = entries.update(i, entry);
    assert forall|a: int, b: int|
        0 <= a < after.len() && 0 <= b < after.len() && a != b implies (#[trigger] after[a]).0@
        != (#[trigger] after[b]).0@ by {
        assert(after[a].0@ == entries[a].0@);
        assert(after[b].0@ == entries[b].0@);
    }
    let want = entries_map(entries).insert(entry.0@, entry.1@);
    assert forall|key: Seq<char>| entries_map(after).contains_key(key) <==> want.contains_key(
        key,
    ) by {
        if has_key(after, key) {
            let p = position_of(after, key);
            assert(after[p].0@ == entries[p].0@);
            assert(has_key(entries, key));
        }
        if has_key(entries, key) {
            let p = position_of(entries, key);
            assert(after[p].0@ == entries[p].0@);
            assert(has_key(after, key));
        }
        if key == entry.0@ {
            assert(after[i].0@ == key);
            assert(has_key(after, key));
        }
    }
    assert forall|key: Seq<char>| entries_map(after).contains_key(key) implies entries_map(
        after,
    )[key] == want[key] by {
        let p = position_of(after, key);
        lemma_entry_in_map(after, p);
        assert(after[p].0@ == entries[p].0@);
        lemma_entry_in_map(entries, p);
    }
    assert(entries_map(after) =~= want);
}

/// Taking out the entry at position `i` removes its key from the map.
pub proof fn lemma_remove_entry(entries: Seq<(String, String)>, i: int)
    requires
        distinct_keys(entries),
        0 <= i < entries.len(),
    ensures
        distinct_keys(entries.remove(i)),
        entries_map(entries.remove(i)) == entries_map(entries).remove(entries[i].0@),
{
    let after = entries.remove(i);
    let shift = |a: int| if a < i { a } else { a + 1 };
    assert forall|a: int| 0 <= a < after.len() implies #[trigger] after[a] == entries[shift(a)] by {}
    assert forall|a: int, b: int|
        0 <= a < after.len() && 0 <= b < after.len() && a != b implies (#[trigger] after[a]).0@
        != (#[trigger] after[b]).0@ by {
        assert(after[a] == entries[shift(a)]);
        assert(after[b] == entries[shift(b)]);
    }
    let want = entries_map(entries).remove(entries[i].0@);
    assert forall|key: Seq<char>| entries_map(after).contains_key(key) <==> want.contains_key(
        key,
    ) by {
        if has_key(after, key) {
            let p = position_of(after, key);
            assert(after[p] == entries[shift(p)]);
            assert(has_key(entries, key));
        }
        if has_key(entries, key) && key != entries[i].0@ {
            let p = position_of(entries, key);
            let q = if p < i { p } else { p - 1 };
            assert(after[q] == entries[shift(q)]);
            assert(has_key(after, key));
        }
    }
    assert forall|key: Seq<char>| entries_map(after).contains_key(key) implies entries_map(
        after,
    )[key] == want[key] by {
        let p = position_of(after, key);
        lemma_entry_in_map(after, p);
        assert(after[p] == entries[shift(p)]);
        lemma_entry_in_map(entries, shift(p));
    }
    assert(entries_map(after) =~= want);
}

/// The empty list stands for the empty map.
pub proof fn lemma_no_entries()
    ensures
        distinct_keys(Seq::<(String, String)>::empty()),
        entries_map(Seq::<(String, String)>::empty()) == Map::<Seq<char>, Seq<char>>::empty(),
{
    assert(entries_map(Seq::<(String, String)>::empty()) =~= Map::<Seq<char>, Seq<char>>::empty());
}

/// A map from strings to strings.
pub struct Metadata {
    entries: Vec<(String, String)>,
}

impl View for Metadata {
    type V = Map<Seq<char>, Seq<char>>;

    closed spec fn view(&self) -> Map<Seq<char>, Seq<char>> {
        entries_map(self.entries@)
    }
}

impl Metadata {
    #[verifier::type_invariant]
    spec fn keys_are_distinct(self) -> bool {
        distinct_keys(self.entries@)
    }

    /// The number of entries, as a spec value.
    pub closed spec fn spec_len(&self) -> usize {
        self.entries.len()
    }

    /// The keys, in the order in which they first appeared.
    pub closed spec fn keys(&self) -> Seq<Seq<char>> {
        keys_of(self.entries@)
    }

    /// An empty map.
    pub fn new() -> (empty: Metadata)
        ensures
            empty@ == Map::<Seq<char>, Seq<char>>::empty(),
            empty.keys() == Seq::<Seq<char>>::empty(),
            empty.spec_len() == 0,
    {
        proof {
            lemma_no_entries();
        }
        let empty = Metadata { entries: Vec::new() };
        proof {
            assert(empty.keys() =~= Seq::<Seq<char>>::empty());
        }
        empty
    }

    /// The number of entries.
    #[verifier::when_used_as_spec(spec_len)]
    pub fn len(&self) -> (len: usize)
        ensures
            len == self.spec_len(),
            len == self.keys().len(),
            lists(self.keys(), self@),
    {
        proof {
            use_type_invariant(self);
            lemma_keys_list_map(self.entries@);
        }
        self.entries.len()
    }

    /// Whether the map holds nothing.
    pub fn is_empty(&self) -> (empty: bool)
        ensures
            empty == (self@ == Map::<Seq<char>, Seq<char>>::empty()),
            empty == (self.spec_len() == 0),
    {
        proof {
            use_type_invariant(self);
            if self.entries@.len() == 0 {
                assert(self@ =~= Map::<Seq<char>, Seq<char>>::empty());
            } else {
                lemma_entry_in_map(self.entries@, 0);
            }
        }
        self.entries.len() == 0
    }

    /// The position of the entry with the key `key`, if there is one.
    fn find(&self, key: &String) -> (found: Option<usize>)
        ensures
            match found {
                Some(i) => i < self.entries@.len() && self.entries@[i as int].0@ == key@,
                None => !has_key(self.entries@, key@),
            },
    {
        let mut i: usize = 0;
        while i < self.entries.len()
            invariant
                i <= self.entries@.len(),
                forall|j: int| 0 <= j < i ==> (#[trigger] self.entries@[j]).0@ != key@,
            decreases self.entries@.len() - i,
        {
            if self.entries[i].0.eq(key) {
                return Some(i);
            }
            i += 1;
        }
        None
    }

    /// Whether the map has an entry for `key`.
    pub fn contains_key(&self, key: &String) -> (yes: bool)
        ensures
            yes == self@.contains_key(key@),
    {
        self.find(key).is_some()
    }

    /// The value stored for `key`.
    pub fn get(&self, key: &String) -> (value: Option<&String>)
        ensures
            match value {
                Some(v) => self@.contains_key(key@) && v@ == self@[key@],
                None => !self@.contains_key(key@),
            },
    {
        match self.find(key) {
            Some(i) => {
                proof {
                    use_type_invariant(self);
                    lemma_entry_in_map(self.entries@, i as int);
                }
                Some(&self.entries[i].1)
            },
            None => None,
        }
    }

    /// The key at position `i` of [`Self::keys`].
    pub fn key(&self, i: usize) -> (key: &String)
        requires
            i < self.spec_len(),
        ensures
            i < self.keys().len(),
            key@ == self.keys()[i as int],
            self@.contains_key(key@),
    {
        proof {
            use_type_invariant(self);
            lemma_entry_in_map(self.entries@, i as int);
        }
        &self.entries[i].0
    }

    /// Stores `value` for `key` and returns the value that it replaces.
    pub fn insert(&mut self, key: String, value: String) -> (replaced: Option<String>)
        ensures
            final(self)@ == old(self)@.insert(key@, value@),
            final(self).keys() == if old(self)@.contains_key(key@) {
                old(self).keys()
            } else {
                old(self).keys().push(key@)
            },
            match replaced {
                Some(v) => old(self)@.contains_key(key@) && v@ == old(self)@[key@],
                None => !old(self)@.contains_key(key@),
            },
    {
        proof {
            use_type_invariant(&*self);
        }
        match self.find(&key) {
            Some(i) => {
                proof {
                    lemma_entry_in_map(self.entries@, i as int);
                    lemma_update_entry(self.entries@, i as int, (key, value));
                    assert(keys_of(self.entries@.update(i as int, (key, value))) =~= keys_of(
                        self.entries@,
                    ));
                }
                let mut entries = Vec::new();
                std::mem::swap(&mut entries, &mut self.entries);
                let mut entry = (key, value);
                std::mem::swap(&mut entries[i], &mut entry);
                self.entries = entries;
                Some(entry.1)
            },
            None => {
                proof {
                    lemma_push_entry(self.entries@, (key, value));
                    assert(keys_of(self.entries@.push((key, value))) =~= keys_of(
                        self.entries@,
                    ).push(key@));
                }
                let mut entries = Vec::new();
                std::mem::swap(&mut entries, &mut self.entries);
                entries.push((key, value));
                self.entries = entries;
                None
            },
        }
    }

    /// Takes out the entry for `key` and returns its value.
    pub fn remove(&mut self, key: &String) -> (removed: Option<String>)
        ensures
            final(self)@ == old(self)@.remove(key@),
            final(self).keys() == without_key(old(self).keys(), key@),
            match removed {
                Some(v) => old(self)@.contains_key(key@) && v@ == old(self)@[key@],
                None => !old(self)@.contains_key(key@),
            },
    {
        proof {
            use_type_invariant(&*self);
            lemma_keys_list_map(self.entries@);
        }
        match self.find(key) {
            Some(i) => {
                proof {
                    lemma_entry_in_map(self.entries@, i as int);
                    lemma_remove_entry(self.entries@, i as int);
                    let keys = keys_of(self.entries@);
                    assert(keys[i as int] == key@);
                    assert(keys.contains(key@));
                    let p = key_position(keys, key@);
                    assert(0 <= p < keys.len() && keys[p] == key@);
                    assert(p == i);
                    assert(keys_of(self.entries@.remove(i as int)) =~= keys.remove(i as int));
                }
                let mut entries = Vec::new();
                std::mem::swap(&mut entries, &mut self.entries);
                let entry = entries.remove(i);
                self.entries = entries;
                Some(entry.1)
            },
            None => {
                assert(self@.remove(key@) =~= self@);
                None
            },
        }
    }

    /// Merges `other` into the map: its entries overwrite those with the
    /// same key, and the keys that it lacks stay as they are.
    pub fn extend(&mut self, other: Metadata)
        ensures
            final(self)@ == old(self)@.union_prefer_right(other@),
            final(self).keys() == merged_keys(old(self).keys(), other.keys()),
    {
        proof {
            use_type_invariant(&other);
            lemma_no_entries();
            assert(other.entries@.take(0) =~= Seq::<(String, String)>::empty());
            assert(self@.union_prefer_right(Map::<Seq<char>, Seq<char>>::empty()) =~= self@);
            assert(keys_of(other.entries@.take(0)) =~= Seq::<Seq<char>>::empty());
        }
        let mut i: usize = 0;
        while i < other.entries.len()
            invariant
                i <= other.entries@.len(),
                distinct_keys(other.entries@),
                self@ == old(self)@.union_prefer_right(entries_map(other.entries@.take(i as int))),
                self.keys() == merged_keys(old(self).keys(), keys_of(other.entries@.take(i as int))),
            decreases other.entries@.len() - i,
        {
            let key = other.entries[i].0.clone();
            let value = other.entries[i].1.clone();
            proof {
                let done = other.entries@.take(i as int);
                let entry = other.entries@[i as int];
                assert(distinct_keys(done)) by {
                    assert forall|a: int, b: int|
                        0 <= a < done.len() && 0 <= b < done.len() && a != b implies (
                    #[trigger] done[a]).0@ != (#[trigger] done[b]).0@ by {
                        assert(done[a] == other.entries@[a] && done[b] == other.entries@[b]);
                    }
                }
                assert(!has_key(done, entry.0@)) by {
                    if has_key(done, entry.0@) {
                        let p = position_of(done, entry.0@);
                        assert(done[p] == other.entries@[p]);
                    }
                }
                lemma_push_entry(done, entry);
                assert(other.entries@.take(i as int + 1) =~= done.push(entry));
                assert(keys_of(done.push(entry)).drop_last() =~= keys_of(done));
                assert(keys_of(done.push(entry)).last() == entry.0@);
                use_type_invariant(&*self);
                lemma_keys_list_map(self.entries@);
                assert(old(self)@.union_prefer_right(entries_map(done)).insert(
                    entry.0@,
                    entry.1@,
                ) =~= old(self)@.union_prefer_right(
                    entries_map(done).insert(entry.0@, entry.1@),
                ));
            }
            self.insert(key, value);
            i += 1;
        }
        proof {
            assert(other.entries@.take(i as int) =~= other.entries@);
        }
    }

    /// Whether both maps hold the same entries.
    pub fn same_as(&self, other: &Metadata) -> (same: bool)
        ensures
            same == (self@ == other@),
    {
        let diff = diff(self, other);
        proof {
            lemma_diff_empty(self@, other@);
        }
        diff.is_empty()
    }
}


impl Clone for Metadata {
    fn clone(&self) -> (copy: Metadata)
        ensures
            copy@ == self@,
            copy.keys() == self.keys(),
    {
        let mut copy = Metadata::new();
        proof {
            use_type_invariant(self);
        }
        let mut i: usize = 0;
        while i < self.entries.len()
            invariant
                i <= self.entries@.len(),
                distinct_keys(self.entries@),
                copy.entries@.len() == i,
                forall|j: int|
                    0 <= j < i ==> (#[trigger] copy.entries@[j]).0@ == self.entries@[j].0@
                        && copy.entries@[j].1@ == self.entries@[j].1@,
            decreases self.entries@.len() - i,
        {
            let key = self.entries[i].0.clone();
            let value = self.entries[i].1.clone();
            let ghost before = copy.entries@;
            proof {
                use_type_invariant(&copy);
                assert(!has_key(before, key@)) by {
                    if has_key(before, key@) {
                        let p = position_of(before, key@);
                        assert(before[p].0@ == self.entries@[p].0@);
                    }
                }
                lemma_push_entry(before, (key, value));
            }
            let mut entries = Vec::new();
            std::mem::swap(&mut entries, &mut copy.entries);
            entries.push((key, value));
            copy.entries = entries;
            i += 1;
        }
        proof {
            use_type_invariant(&copy);
            lemma_same_entries(copy.entries@, self.entries@);
            assert(copy.keys() =~= self.keys());
        }
        copy
    }
}

/// Two lists with the same keys and values at each position stand for the
/// same map.
pub proof fn lemma_same_entries(a: Seq<(String, String)>, b: Seq<(String, String)>)
    requires
        distinct_keys(a),
        distinct_keys(b),
        a.len() == b.len(),
        forall|i: int| 0 <= i < a.len() ==> (#[trigger] a[i]).0@ == b[i].0@ && a[i].1@ == b[i].1@,
    ensures
        entries_map(a) == entries_map(b),
{
    assert forall|key: Seq<char>| entries_map(a).contains_key(key) <==> entries_map(
        b,
    ).contains_key(key) by {
        if has_key(a, key) {
            let p = position_of(a, key);
            assert(b[p].0@ == key);
            assert(has_key(b, key));
        }
        if has_key(b, key) {
            let p = position_of(b, key);
            assert(a[p].0@ == key);
            assert(has_key(a, key));
        }
    }
    assert forall|key: Seq<char>| entries_map(a).contains_key(key) implies entries_map(a)[key]
        == entries_map(b)[key] by {
        let p = position_of(a, key);
        lemma_entry_in_map(a, p);
        assert(b[p].0@ == key);
        lemma_entry_in_map(b, p);
    }
    assert(entries_map(a) =~= entries_map(b));
}

/// What `after` holds that `before` does not hold in the same way: the keys
/// that are new and those whose value differs, each with its value in
/// `after`.
pub open spec fn updated_entries(
    before: Map<Seq<char>, Seq<char>>,
    after: Map<Seq<char>, Seq<char>>,
) -> Map<Seq<char>, Seq<char>> {
    Map::new(
        |key: Seq<char>|
            after.contains_key(key) && (!before.contains_key(key) || before[key] != after[key]),
        |key: Seq<char>| after[key],
    )
}

/// The entries of `before` whose key `after` lacks, each with its value in
/// `before`.
pub open spec fn removed_entries(
    before: Map<Seq<char>, Seq<char>>,
    after: Map<Seq<char>, Seq<char>>,
) -> Map<Seq<char>, Seq<char>> {
    Map::new(
        |key: Seq<char>| before.contains_key(key) && !after.contains_key(key),
        |key: Seq<char>| before[key],
    )
}

/// Nothing was updated and nothing removed exactly when the two maps are
/// equal.
pub proof fn lemma_diff_empty(before: Map<Seq<char>, Seq<char>>, after: Map<Seq<char>, Seq<char>>)
    ensures
        (updated_entries(before, after) == Map::<Seq<char>, Seq<char>>::empty() && removed_entries(
            before,
            after,
        ) == Map::<Seq<char>, Seq<char>>::empty()) <==> before == after,
{
    let none = Map::<Seq<char>, Seq<char>>::empty();
    if before == after {
        assert(updated_entries(before, after) =~= none);
        assert(removed_entries(before, after) =~= none);
    }
    if updated_entries(before, after) == none && removed_entries(before, after) == none {
        assert forall|key: Seq<char>| before.contains_key(key) <==> after.contains_key(key) by {
            if before.contains_key(key) && !after.contains_key(key) {
                assert(removed_entries(before, after).contains_key(key));
            }
            if after.contains_key(key) && !before.contains_key(key) {
                assert(updated_entries(before, after).contains_key(key));
            }
        }
        assert forall|key: Seq<char>| before.contains_key(key) implies before[key] == after[key] by {
            if before[key] != after[key] {
                assert(updated_entries(before, after).contains_key(key));
            }
        }
        assert(before =~= after);
    }
}

/// `hash_map_diff::hash_map_diff` on two lists of entries with distinct
/// keys, each list made into a `HashMap` and each part of the result back
/// into a list. The updated part holds the entries of `after` whose key is
/// new or whose value differs from the one in `before`; the removed part
/// holds the entries of `before` whose key `after` lacks. The order of the
/// entries in the two lists is left open.
#[verifier::external_body]
fn diff_entries(before: &Vec<(String, String)>, after: &Vec<(String, String)>) -> (diff: (
    Vec<(String, String)>,
    Vec<(String, String)>,
))
    requires
        distinct_keys(before@),
        distinct_keys(after@),
    ensures
        distinct_keys(diff.0@),
        distinct_keys(diff.1@),
        entries_map(diff.0@) == updated_entries(entries_map(before@), entries_map(after@)),
        entries_map(diff.1@) == removed_entries(entries_map(before@), entries_map(after@)),
{
    let lhs: std::collections::HashMap<String, String> = before.iter().cloned().collect();
    let rhs: std::collections::HashMap<String, String> = after.iter().cloned().collect();
    let diff = hash_map_diff::hash_map_diff(&lhs, &rhs);
    let updated = diff.updated.into_iter().map(|(k, v)| (k.clone(), v.clone())).collect();
    let removed = diff.removed.into_iter().map(|(k, v)| (k.clone(), v.clone())).collect();
    (updated, removed)
}

/// The difference between two states of a map.
pub struct MetadataDiff {
    /// The entries that are new or have another value, with the new value.
    pub updated: Metadata,
    /// The entries that are gone, with the value that they had.
    pub removed: Metadata,
}

impl MetadataDiff {
    /// Whether the difference is empty, as a spec value.
    pub open spec fn spec_is_empty(&self) -> bool {
        self.updated@ == Map::<Seq<char>, Seq<char>>::empty() && self.removed@ == Map::<
            Seq<char>,
            Seq<char>,
        >::empty()
    }

    /// Whether nothing was updated and nothing removed.
    #[verifier::when_used_as_spec(spec_is_empty)]
    pub fn is_empty(&self) -> (empty: bool)
        ensures
            empty == self.spec_is_empty(),
    {
        self.updated.is_empty() && self.removed.is_empty()
    }
}

/// The difference between `before` and `after`.
pub fn diff(before: &Metadata, after: &Metadata) -> (diff: MetadataDiff)
    ensures
        diff.updated@ == updated_entries(before@, after@),
        diff.removed@ == removed_entries(before@, after@),
        diff.is_empty() <==> before@ == after@,
{
    proof {
        use_type_invariant(before);
        use_type_invariant(after);
        lemma_diff_empty(before@, after@);
    }
    let (updated, removed) = diff_entries(&before.entries, &after.entries);
    MetadataDiff { updated: Metadata { entries: updated }, removed: Metadata { entries: removed } }
}

} // verus!
