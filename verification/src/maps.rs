//! The keyed collections of the tab namer: maps from tab ids and maps from text.

use crate::text::same_text;
use std::collections::{HashMap, HashSet};
use vstd::prelude::*;

verus! {

broadcast use vstd::std_specs::hash::group_hash_axioms;

/// A map from tab ids, or from tab positions.
pub struct TabMap<V> {
    entries: HashMap<usize, V>,
}

impl<V: View> View for TabMap<V> {
    type V = Map<usize, V::V>;

    closed spec fn view(&self) -> Map<usize, V::V> {
        self.entries@.map_values(|v: V| v@)
    }
}

impl<V: View> TabMap<V> {
    /// An empty map.
    pub fn new() -> (map: TabMap<V>)
        ensures
            map@ == Map::<usize, V::V>::empty(),
    {
        TabMap { entries: HashMap::new() }
    }

    /// The value for `id`, if there is one.
    pub fn get(&self, id: usize) -> (value: Option<&V>)
        ensures
            match value {
                Some(v) => self@.contains_key(id) && self@[id] == v@,
                None => !self@.contains_key(id),
            },
    {
        self.entries.get(&id)
    }

    /// Whether there is a value for `id`.
    pub fn contains_key(&self, id: usize) -> (found: bool)
        ensures
            found == self@.contains_key(id),
    {
        self.entries.contains_key(&id)
    }

    /// Sets the value for `id`.
    pub fn insert(&mut self, id: usize, value: V)
        ensures
            final(self)@ == old(self)@.insert(id, value@),
    {
        let _ = self.entries.insert(id, value);
    }

    /// Removes the value for `id` and says whether there was one.
    pub fn remove(&mut self, id: usize) -> (found: bool)
        ensures
            final(self)@ == old(self)@.remove(id),
            found == old(self)@.contains_key(id),
    {
        self.entries.remove(&id).is_some()
    }

    /// Keeps the values for the given ids only.
    pub fn retain(&mut self, alive: &HashSet<usize>)
        ensures
            final(self)@ == old(self)@.restrict(alive@),
    {
        let ghost before = self.entries@;
        let mut dead: Vec<usize> = Vec::new();
        for id in it: self.entries.keys()
            invariant
                before == self.entries@,
                it.seq().unref().to_set() == before.dom(),
                forall|i: int|
                    0 <= i < dead.len() ==> !alive@.contains(#[trigger] dead@[i]),
                forall|i: int|
                    0 <= i < it.index() && !alive@.contains(*#[trigger] it.seq()[i])
                        ==> dead@.contains(*it.seq()[i]),
        {
            if !alive.contains(id) {
                let ghost old_dead = dead@;
                dead.push(*id);
                assert(dead@[dead@.len() - 1] == *id);
                assert forall|x: usize| old_dead.contains(x) implies dead@.contains(x) by {
                    let k = choose|k: int| 0 <= k < old_dead.len() && old_dead[k] == x;
                    assert(dead@[k] == x);
                }
            }
        }
        assert(forall|k: usize|
            before.contains_key(k) && !alive@.contains(k) ==> #[trigger] dead@.contains(k));
        let mut i: usize = 0;
        while i < dead.len()
            invariant
                i <= dead.len(),
                forall|j: int| 0 <= j < dead.len() ==> !alive@.contains(#[trigger] dead@[j]),
                forall|j: int|
                    0 <= j < i ==> !self.entries@.contains_key(#[trigger] dead@[j]),
                forall|k: usize| #[trigger]
                    self.entries@.contains_key(k) ==> before.contains_key(k) && self.entries@[k]
                        == before[k],
                forall|k: usize| #[trigger]
                    before.contains_key(k) && alive@.contains(k) ==> self.entries@.contains_key(k),
            decreases dead.len() - i,
        {
            let _ = self.entries.remove(&dead[i]);
            i = i + 1;
        }
        assert(self@ =~= old(self)@.restrict(alive@));
    }
}

/// A map from text, as a list of entries in which no key occurs twice. The order of the entries
/// does not matter.
#[derive(Debug)]
pub struct TextMap<V> {
    entries: Vec<(String, V)>,
}

/// Whether `entries[i]` is an entry for `key`.
spec fn is_entry<V>(entries: Seq<(String, V)>, key: Seq<char>, i: int) -> bool {
    0 <= i < entries.len() && entries[i].0@ == key
}

/// No key occurs twice.
spec fn distinct_keys<V>(entries: Seq<(String, V)>) -> bool {
    forall|i: int, j: int|
        #![trigger entries[i], entries[j]]
        0 <= i < j < entries.len() ==> entries[i].0@ != entries[j].0@
}

impl<V: View> View for TextMap<V> {
    type V = Map<Seq<char>, V::V>;

    closed spec fn view(&self) -> Map<Seq<char>, V::V> {
        Map::new(
            |key: Seq<char>| exists|i: int| is_entry(self.entries@, key, i),
            |key: Seq<char>| self.entries@[choose|i: int| is_entry(self.entries@, key, i)].1@,
        )
    }
}

impl<V> TextMap<V> {
    #[verifier::type_invariant]
    spec fn well_formed(self) -> bool {
        distinct_keys(self.entries@)
    }
}

impl<V: View> TextMap<V> {
    /// What the map holds at the place of an entry.
    proof fn lemma_entry(self, i: int)
        requires
            distinct_keys(self.entries@),
            0 <= i < self.entries@.len(),
        ensures
            self@.contains_key(self.entries@[i].0@),
            self@[self.entries@[i].0@] == self.entries@[i].1@,
    {
        let key = self.entries@[i].0@;
        assert(is_entry(self.entries@, key, i));
        let j = choose|j: int| is_entry(self.entries@, key, j);
        assert(is_entry(self.entries@, key, j));
        assert(i == j);
    }

    /// An empty map.
    pub fn new() -> (map: TextMap<V>)
        ensures
            map@ == Map::<Seq<char>, V::V>::empty(),
    {
        let map = TextMap { entries: Vec::new() };
        assert(map@ =~= Map::<Seq<char>, V::V>::empty());
        map
    }

    /// Whether the map holds nothing.
    pub fn is_empty(&self) -> (empty: bool)
        ensures
            empty == self@.is_empty(),
    {
        let empty = self.entries.len() == 0;
        proof {
            if empty {
                assert(self@ =~= Map::<Seq<char>, V::V>::empty());
            } else {
                use_type_invariant(self);
                self.lemma_entry(0);
                assert(self@.dom().contains(self.entries@[0].0@));
            }
        }
        empty
    }

    /// The place of the entry for `key`; the number of entries where there is none.
    fn position(&self, key: &str) -> (place: usize)
        ensures
            place <= self.entries@.len(),
            place < self.entries@.len() ==> self.entries@[place as int].0@ == key@,
            place == self.entries@.len() ==> forall|i: int| !is_entry(self.entries@, key@, i),
    {
        let mut i: usize = 0;
        while i < self.entries.len()
            invariant
                i <= self.entries@.len(),
                forall|k: int| 0 <= k < i ==> !is_entry(self.entries@, key@, k),
            decreases self.entries@.len() - i,
        {
            if same_text(self.entries[i].0.as_str(), key) {
                return i;
            }
            i = i + 1;
        }
        i
    }

    /// The value for `key`, if there is one.
    pub fn get(&self, key: &str) -> (value: Option<&V>)
        ensures
            match value {
                Some(v) => self@.contains_key(key@) && self@[key@] == v@,
                None => !self@.contains_key(key@),
            },
    {
        let place = self.position(key);
        if place < self.entries.len() {
            proof {
                use_type_invariant(self);
                self.lemma_entry(place as int);
            }
            Some(&self.entries[place].1)
        } else {
            None
        }
    }

    /// Whether there is a value for `key`.
    pub fn contains_key(&self, key: &str) -> (found: bool)
        ensures
            found == self@.contains_key(key@),
    {
        self.get(key).is_some()
    }

    /// Removes the value for `key` and hands it out.
    pub fn remove(&mut self, key: &str) -> (value: Option<V>)
        ensures
            final(self)@ == old(self)@.remove(key@),
            match value {
                Some(v) => old(self)@.contains_key(key@) && old(self)@[key@] == v@,
                None => !old(self)@.contains_key(key@),
            },
            value is Some ==> final(self).size() < old(self).size(),
    {
        let place = self.position(key);
        if place < self.entries.len() {
            let mut entries: Vec<(String, V)> = Vec::new();
            proof {
                use_type_invariant(&*self);
                self.lemma_entry(place as int);
            }
            std::mem::swap(&mut entries, &mut self.entries);
            let entry = entries.remove(place);
            self.entries = entries;
            proof {
                let before = old(self).entries@;
                assert forall|k: Seq<char>| self@.contains_key(k) <==> #[trigger] old(self)@.remove(
                    key@,
                ).contains_key(k) by {
                    if old(self)@.remove(key@).contains_key(k) {
                        let i = choose|i: int| is_entry(before, k, i);
                        assert(is_entry(self.entries@, k, if i < place {
                            i
                        } else {
                            i - 1
                        }));
                    }
                    if self@.contains_key(k) {
                        let i = choose|i: int| is_entry(self.entries@, k, i);
                        assert(is_entry(before, k, if i < place {
                            i
                        } else {
                            i + 1
                        }));
                    }
                }
                assert forall|k: Seq<char>| self@.contains_key(k) implies #[trigger] self@[k] == old(
                    self,
                )@.remove(key@)[k] by {
                    let i = choose|i: int| is_entry(self.entries@, k, i);
                    self.lemma_entry(i);
                    old(self).lemma_entry(if i < place {
                        i
                    } else {
                        i + 1
                    });
                }
                assert(self@ =~= old(self)@.remove(key@));
            }
            Some(entry.1)
        } else {
            assert(self@ =~= old(self)@.remove(key@));
            None
        }
    }

    /// The number of entries.
    pub closed spec fn size(self) -> nat {
        self.entries@.len()
    }

    /// Removes one entry, whichever it is, and hands it out.
    pub fn pop(&mut self) -> (entry: Option<(String, V)>)
        ensures
            match entry {
                Some((key, value)) => {
                    &&& old(self)@.contains_key(key@)
                    &&& old(self)@[key@] == value@
                    &&& final(self)@ == old(self)@.remove(key@)
                    &&& final(self).size() < old(self).size()
                },
                None => old(self)@.is_empty() && *final(self) == *old(self),
            },
    {
        if self.entries.len() == 0 {
            assert(self@ =~= Map::<Seq<char>, V::V>::empty());
            return None;
        }
        let key = self.entries[self.entries.len() - 1].0.clone();
        proof {
            use_type_invariant(&*self);
            self.lemma_entry(self.entries@.len() - 1);
        }
        match self.remove(key.as_str()) {
            Some(value) => Some((key, value)),
            None => None,
        }
    }

    /// Sets the value for `key`.
    pub fn insert(&mut self, key: String, value: V)
        ensures
            final(self)@ == old(self)@.insert(key@, value@),
    {
        let _ = self.remove(key.as_str());
        let ghost before = self.entries@;
        let ghost kept = self@;
        let ghost kept_self = *self;
        let mut entries: Vec<(String, V)> = Vec::new();
        proof {
            use_type_invariant(&*self);
            assert(!kept.contains_key(key@));
            assert forall|i: int| 0 <= i < before.len() implies (#[trigger] before[i]).0@
                != key@ by {
                self.lemma_entry(i);
            }
        }
        std::mem::swap(&mut entries, &mut self.entries);
        let ghost entry = (key, value);
        entries.push((key, value));
        self.entries = entries;
        proof {
            let after = self.entries@;
            let n = before.len() as int;
            assert(after == before.push(entry));
            self.lemma_entry(n);
            assert forall|k: Seq<char>| self@.contains_key(k) <==> #[trigger] kept.insert(
                entry.0@,
                entry.1@,
            ).contains_key(k) by {
                if kept.contains_key(k) {
                    let i = choose|i: int| is_entry(before, k, i);
                    assert(is_entry(after, k, i));
                }
                if self@.contains_key(k) && k != entry.0@ {
                    let i = choose|i: int| is_entry(after, k, i);
                    assert(is_entry(before, k, i));
                }
            }
            assert forall|k: Seq<char>| self@.contains_key(k) implies #[trigger] self@[k]
                == kept.insert(entry.0@, entry.1@)[k] by {
                let i = choose|i: int| is_entry(after, k, i);
                self.lemma_entry(i);
                if i < n {
                    kept_self.lemma_entry(i);
                }
            }
            assert(self@ =~= kept.insert(entry.0@, entry.1@));
            assert(kept.insert(entry.0@, entry.1@) =~= old(self)@.insert(entry.0@, entry.1@));
        }
    }
}

/// Whether one map holds all that another does.
pub open spec fn holds_all(map: Map<Seq<char>, Seq<char>>, of: Map<Seq<char>, Seq<char>>) -> bool {
    forall|key: Seq<char>| #[trigger]
        of.contains_key(key) ==> map.contains_key(key) && map[key] == of[key]
}

impl TextMap<String> {
    /// Whether the map holds all that another does.
    fn holds_all_of(&self, other: &TextMap<String>) -> (holds: bool)
        ensures
            holds == holds_all(self@, other@),
    {
        proof {
            use_type_invariant(other);
        }
        let mut i: usize = 0;
        while i < other.entries.len()
            invariant
                i <= other.entries@.len(),
                distinct_keys(other.entries@),
                forall|k: int|
                    0 <= k < i ==> self@.contains_key((#[trigger] other.entries@[k]).0@)
                        && self@[other.entries@[k].0@] == other.entries@[k].1@,
            decreases other.entries@.len() - i,
        {
            proof {
                other.lemma_entry(i as int);
            }
            match self.get(other.entries[i].0.as_str()) {
                Some(value) => {
                    if !same_text(value.as_str(), other.entries[i].1.as_str()) {
                        return false;
                    }
                },
                None => {
                    return false;
                },
            }
            i = i + 1;
        }
        assert forall|key: Seq<char>| #[trigger] other@.contains_key(key) implies self@.contains_key(
            key,
        ) && self@[key] == other@[key] by {
            let k = choose|k: int| is_entry(other.entries@, key, k);
            other.lemma_entry(k);
        }
        true
    }
}

impl PartialEq for TextMap<String> {
    fn eq(&self, other: &TextMap<String>) -> (equal: bool) {
        let equal = self.holds_all_of(other) && other.holds_all_of(self);
        proof {
            if equal {
                assert(self@ =~= other@);
            }
        }
        equal
    }
}

impl vstd::std_specs::cmp::PartialEqSpecImpl for TextMap<String> {
    open spec fn obeys_eq_spec() -> bool {
        true
    }

    /// The same values for the same keys.
    open spec fn eq_spec(&self, other: &TextMap<String>) -> bool {
        self@ == other@
    }
}

impl Eq for TextMap<String> {

}

impl Clone for TextMap<String> {
    fn clone(&self) -> (map: TextMap<String>)
        ensures
            map@ == self@,
    {
        proof {
            use_type_invariant(self);
        }
        let mut entries: Vec<(String, String)> = Vec::new();
        let mut i: usize = 0;
        while i < self.entries.len()
            invariant
                i <= self.entries@.len(),
                entries@.len() == i,
                forall|k: int|
                    0 <= k < i ==> (#[trigger] entries@[k]).0@ == self.entries@[k].0@
                        && entries@[k].1@ == self.entries@[k].1@,
            decreases self.entries@.len() - i,
        {
            entries.push((self.entries[i].0.clone(), self.entries[i].1.clone()));
            i = i + 1;
        }
        assert(distinct_keys(entries@));
        let map = TextMap { entries };
        proof {
            assert forall|key: Seq<char>| map@.contains_key(key) <==> #[trigger] self@.contains_key(
                key,
            ) by {
                if self@.contains_key(key) {
                    let k = choose|k: int| is_entry(self.entries@, key, k);
                    assert(is_entry(map.entries@, key, k));
                }
                if map@.contains_key(key) {
                    let k = choose|k: int| is_entry(map.entries@, key, k);
                    assert(is_entry(self.entries@, key, k));
                }
            }
            assert forall|key: Seq<char>| #[trigger] self@.contains_key(key) implies map@[key]
                == self@[key] by {
                let k = choose|k: int| is_entry(self.entries@, key, k);
                self.lemma_entry(k);
                map.lemma_entry(k);
            }
            assert(map@ =~= self@);
        }
        map
    }
}

/// Membership in a set of tab ids.
pub open spec fn among(alive: Set<usize>) -> spec_fn(usize) -> bool {
    |id: usize| alive.contains(id)
}

/// The waiters that are still alive; a key that none of them waits on is gone.
pub open spec fn live_waiters(
    pending: Map<Seq<char>, Seq<usize>>,
    alive: Set<usize>,
) -> Map<Seq<char>, Seq<usize>> {
    Map::new(
        |key: Seq<char>|
            pending.contains_key(key) && pending[key].filter(among(alive)).len() > 0,
        |key: Seq<char>| pending[key].filter(among(alive)),
    )
}

/// The ids of a list that are in the set, in order.
fn retain_alive(ids: &Vec<usize>, alive: &HashSet<usize>) -> (kept: Vec<usize>)
    ensures
        kept@ == ids@.filter(among(alive@)),
{
    let mut kept: Vec<usize> = Vec::new();
    let mut i: usize = 0;
    reveal(Seq::filter);
    while i < ids.len()
        invariant
            i <= ids.len(),
            kept@ == ids@.take(i as int).filter(among(alive@)),
        decreases ids.len() - i,
    {
        reveal(Seq::filter);
        assert(ids@.take(i + 1).drop_last() == ids@.take(i as int));
        if alive.contains(&ids[i]) {
            kept.push(ids[i]);
        }
        i = i + 1;
    }
    assert(ids@.take(i as int) == ids@);
    kept
}

impl TextMap<Vec<usize>> {
    /// Drops the waiters that are not alive, and the keys that are left without any.
    pub fn retain_waiters(&mut self, alive: &HashSet<usize>)
        ensures
            final(self)@ == live_waiters(old(self)@, alive@),
    {
        let ghost before = self@;
        let mut kept: TextMap<Vec<usize>> = TextMap::new();
        let mut done = false;
        while !done
            invariant
                forall|k: Seq<char>| #[trigger]
                    self@.contains_key(k) ==> before.contains_key(k) && self@[k] == before[k],
                forall|k: Seq<char>| #[trigger]
                    before.contains_key(k) && !self@.contains_key(k) ==> kept@.contains_key(k)
                        == live_waiters(before, alive@).contains_key(k),
                forall|k: Seq<char>| #[trigger]
                    kept@.contains_key(k) ==> before.contains_key(k) && !self@.contains_key(k)
                        && kept@[k] == live_waiters(before, alive@)[k],
                done ==> self@.is_empty(),
            decreases
                    self.size(),
                    (if done {
                        0int
                    } else {
                        1int
                    }),
        {
            match self.pop() {
                Some((cwd, waiters)) => {
                    let alive_waiters = retain_alive(&waiters, alive);
                    if alive_waiters.len() > 0 {
                        kept.insert(cwd, alive_waiters);
                    }
                },
                None => {
                    done = true;
                },
            }
        }
        assert(kept@ =~= live_waiters(before, alive@)) by {
            assert forall|k: Seq<char>| before.contains_key(k) implies !self@.contains_key(k) by {
                assert(!self@.dom().contains(k));
            }
        }
        *self = kept;
    }
}

} // verus!
