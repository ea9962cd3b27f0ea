//! A map from text to values that keeps its entries in the order in which their keys came.

use vstd::prelude::*;

verus! {

/// Where the first entry with the key `key` stands; past the end if there is none.
pub open spec fn position<V>(entries: Seq<(String, V)>, key: Seq<char>) -> int
    decreases entries.len(),
{
    if entries.len() == 0 || entries[0].0@ == key {
        0
    } else {
        1 + position(entries.drop_first(), key)
    }
}

/// The keys of `entries`, in order.
pub open spec fn keys_of<V>(entries: Seq<(String, V)>) -> Seq<Seq<char>> {
    entries.map_values(|e: (String, V)| e.0@)
}

/// The map that `entries` stand for.
pub open spec fn map_of<V>(entries: Seq<(String, V)>) -> Map<Seq<char>, V> {
    Map::new(
        |k: Seq<char>| position(entries, k) < entries.len(),
        |k: Seq<char>| entries[position(entries, k)].1,
    )
}

/// `position` is the first place where the key stands.
pub proof fn lemma_position<V>(entries: Seq<(String, V)>, key: Seq<char>)
    ensures
        0 <= position(entries, key) <= entries.len(),
        position(entries, key) < entries.len() ==> entries[position(entries, key)].0@ == key,
        forall|i: int|
            0 <= i < position(entries, key) ==> (#[trigger] entries[i]).0@ != key,
    decreases entries.len(),
{
    if entries.len() > 0 && entries[0].0@ != key {
        let tail = entries.drop_first();
        lemma_position(tail, key);
        assert forall|i: int| 0 <= i < position(entries, key) implies (
        #[trigger] entries[i]).0@ != key by {
            if i > 0 {
                assert(entries[i] == tail[i - 1]);
            }
        }
    }
}

/// The first place where the key stands is `position`.
pub proof fn lemma_position_is<V>(entries: Seq<(String, V)>, key: Seq<char>, p: int)
    requires
        0 <= p <= entries.len(),
        p < entries.len() ==> entries[p].0@ == key,
        forall|i: int| 0 <= i < p ==> (#[trigger] entries[i]).0@ != key,
    ensures
        position(entries, key) == p,
{
    lemma_position(entries, key);
    let q = position(entries, key);
    if q < p {
        assert(entries[q].0@ != key);
    }
    if p < q {
        assert(entries[p].0@ != key);
    }
}

/// Where no key occurs twice, each entry is in the map that the entries stand for.
pub proof fn lemma_entry<V>(entries: Seq<(String, V)>, m: int)
    requires
        keys_of(entries).no_duplicates(),
        0 <= m < entries.len(),
    ensures
        position(entries, entries[m].0@) == m,
        map_of(entries).contains_key(entries[m].0@),
        map_of(entries)[entries[m].0@] == entries[m].1,
{
    let key = entries[m].0@;
    assert forall|i: int| 0 <= i < m implies (#[trigger] entries[i]).0@ != key by {
        assert(keys_of(entries)[i] != keys_of(entries)[m]);
    }
    lemma_position_is(entries, key, m);
}

/// Where the first entry with the key `key` stands.
pub fn find_key<V>(entries: &Vec<(String, V)>, key: &str) -> (r: usize)
    ensures
        r <= entries@.len(),
        r == position(entries@, key@),
{
    let name = key.to_owned();
    let mut i: usize = 0;
    while i < entries.len() && entries[i].0 != name
        invariant
            name@ == key@,
            i <= entries@.len(),
            forall|j: int| 0 <= j < i ==> (#[trigger] entries@[j]).0@ != key@,
        decreases entries@.len() - i,
    {
        i += 1;
    }
    proof {
        lemma_position_is(entries@, key@, i as int);
    }
    i
}

/// Gives the entry with the key `key` the value `value`; adds one at the end if there is none.
pub fn put_entry<V>(entries: &mut Vec<(String, V)>, key: String, value: V)
    ensures
        map_of(final(entries)@) == map_of(old(entries)@).insert(key@, value),
        position(old(entries)@, key@) < old(entries)@.len() ==> keys_of(final(entries)@) == keys_of(
            old(entries)@,
        ),
        position(old(entries)@, key@) == old(entries)@.len() ==> keys_of(final(entries)@)
            == keys_of(old(entries)@).push(key@),
{
    let ghost before = entries@;
    let ghost name = key@;
    let p: usize = find_key(entries, key.as_str());
    proof {
        lemma_position(before, name);
    }
    if p < entries.len() {
        entries[p] = (key, value);
    } else {
        entries.push((key, value));
    }
    proof {
        let after = entries@;
        assert forall|k: Seq<char>| #[trigger]
            position(after, k) == if k == name {
                p as int
            } else if position(before, k) < before.len() {
                position(before, k)
            } else {
                after.len() as int
            } by {
            lemma_position(before, k);
            let q = if k == name {
                p as int
            } else if position(before, k) < before.len() {
                position(before, k)
            } else {
                after.len() as int
            };
            assert forall|i: int| 0 <= i < q implies (#[trigger] after[i]).0@ != k by {
                if i < before.len() {
                    assert(before[i].0@ == after[i].0@);
                }
            }
            lemma_position_is(after, k, q);
        }
        assert forall|k: Seq<char>| 0 <= #[trigger] position(before, k) <= before.len() by {
            lemma_position(before, k);
        }
        assert forall|k: Seq<char>| k != name && #[trigger] position(before, k)
            < before.len() implies position(before, k) != p by {
            lemma_position(before, k);
        }
        assert(map_of(after) =~= map_of(before).insert(name, value));
        if p < before.len() {
            assert(keys_of(after) =~= keys_of(before));
        } else {
            assert(keys_of(after) =~= keys_of(before).push(name));
        }
    }
}

/// A map from text to values.
#[derive(Debug, PartialEq, Eq)]
pub struct TextMap<V> {
    pub entries: Vec<(String, V)>,
}

impl<V> View for TextMap<V> {
    type V = Map<Seq<char>, V>;

    open spec fn view(&self) -> Map<Seq<char>, V> {
        map_of(self.entries@)
    }
}

impl<V> TextMap<V> {
    /// No key occurs twice.
    pub open spec fn wf(self) -> bool {
        keys_of(self.entries@).no_duplicates()
    }

    /// The keys, in the order in which they came.
    pub open spec fn keys(self) -> Seq<Seq<char>> {
        keys_of(self.entries@)
    }

    /// The empty map.
    pub fn new() -> (r: Self)
        ensures
            r.wf(),
            r@ == Map::<Seq<char>, V>::empty(),
            r.keys() == Seq::<Seq<char>>::empty(),
    {
        let r = TextMap { entries: Vec::new() };
        assert(r@ =~= Map::<Seq<char>, V>::empty());
        assert(r.keys() =~= Seq::<Seq<char>>::empty());
        r
    }

    /// The value of `key`.
    pub fn get(&self, key: &str) -> (r: Option<&V>)
        ensures
            match r {
                Some(v) => self@.contains_key(key@) && self@[key@] == *v,
                None => !self@.contains_key(key@),
            },
    {
        let p: usize = find_key(&self.entries, key);
        if p < self.entries.len() {
            Some(&self.entries[p].1)
        } else {
            None
        }
    }

    /// Whether `key` has a value.
    pub fn contains_key(&self, key: &str) -> (r: bool)
        ensures
            r == self@.contains_key(key@),
    {
        find_key(&self.entries, key) < self.entries.len()
    }

    /// Gives `key` the value `value`.
    pub fn insert(&mut self, key: String, value: V)
        requires
            old(self).wf(),
        ensures
            final(self).wf(),
            final(self)@ == old(self)@.insert(key@, value),
            final(self).keys() == if old(self)@.contains_key(key@) {
                old(self).keys()
            } else {
                old(self).keys().push(key@)
            },
    {
        proof {
            lemma_position(self.entries@, key@);
        }
        put_entry(&mut self.entries, key, value);
    }

    /// Takes `key` and its value out of the map.
    pub fn remove(&mut self, key: &str)
        requires
            old(self).wf(),
        ensures
            final(self).wf(),
            final(self)@ == old(self)@.remove(key@),
    {
        let ghost before = self.entries@;
        let p: usize = find_key(&self.entries, key);
        if p < self.entries.len() {
            let _ = self.entries.remove(p);
        }
        proof {
            lemma_removed(before, key@);
            assert(self.entries@ == removed(before, key@));
        }
    }
}

/// `entries` without the first one that has the key `key`.
spec fn removed<V>(entries: Seq<(String, V)>, key: Seq<char>) -> Seq<(String, V)> {
    let p = position(entries, key);
    if p < entries.len() {
        entries.remove(p)
    } else {
        entries
    }
}

proof fn lemma_removed<V>(before: Seq<(String, V)>, name: Seq<char>)
    requires
        keys_of(before).no_duplicates(),
    ensures
        keys_of(removed(before, name)).no_duplicates(),
        map_of(removed(before, name)) == map_of(before).remove(name),
{
    let after = removed(before, name);
    let p = position(before, name);
    lemma_position(before, name);
    if p < before.len() {
        assert forall|i: int| 0 <= i < after.len() implies #[trigger] after[i] == before[if i < p {
            i
        } else {
            i + 1
        }] by {}
        assert forall|i: int, j: int|
            0 <= i < keys_of(after).len() && 0 <= j < keys_of(after).len() && i
                != j implies keys_of(after)[i] != keys_of(after)[j] by {
            let i2 = if i < p {
                i
            } else {
                i + 1
            };
            let j2 = if j < p {
                j
            } else {
                j + 1
            };
            assert(keys_of(before)[i2] != keys_of(before)[j2]);
        }
        assert forall|k: Seq<char>| #[trigger]
            position(after, k) == if k == name || position(before, k) == before.len() {
                after.len() as int
            } else if position(before, k) < p {
                position(before, k)
            } else {
                position(before, k) - 1
            } by {
            lemma_position(before, k);
            let q0 = position(before, k);
            let q = if k == name || q0 == before.len() {
                after.len() as int
            } else if q0 < p {
                q0
            } else {
                q0 - 1
            };
            assert forall|i: int| 0 <= i < q implies (#[trigger] after[i]).0@ != k by {
                let i2 = if i < p {
                    i
                } else {
                    i + 1
                };
                if k == name {
                    assert(keys_of(before)[i2] != keys_of(before)[p]);
                } else {
                    assert(before[i2].0@ != k);
                }
            }
            lemma_position_is(after, k, q);
        }
        assert forall|k: Seq<char>| 0 <= #[trigger] position(before, k) <= before.len() by {
            lemma_position(before, k);
        }
        assert forall|k: Seq<char>| k != name && #[trigger] position(before, k)
            < before.len() implies position(before, k) != p by {
            lemma_position(before, k);
        }
        assert(map_of(after) =~= map_of(before).remove(name));
    } else {
        assert(map_of(after) =~= map_of(before).remove(name));
    }
}

} // verus!
