//! A map from strings to strings, kept in the order in which the keys came.

use vstd::prelude::*;

use crate::text;

verus! {

/// A map from strings to strings. No key occurs twice.
#[derive(Debug)]
pub struct StrMap {
    entries: Vec<(String, String)>,
}

/// The map that a list of pairs stands for.
spec fn pairs_map(entries: Seq<(String, String)>) -> Map<Seq<char>, Seq<char>>
    decreases entries.len(),
{
    if entries.len() == 0 {
        Map::empty()
    } else {
        pairs_map(entries.drop_last()).insert(entries.last().0@, entries.last().1@)
    }
}

spec fn distinct_keys(entries: Seq<(String, String)>) -> bool {
    forall|i: int, j: int|
        0 <= i < j < entries.len() ==> #[trigger] entries[i].0@ != #[trigger] entries[j].0@
}

impl View for StrMap {
    type V = Map<Seq<char>, Seq<char>>;

    closed spec fn view(&self) -> Map<Seq<char>, Seq<char>> {
        pairs_map(self.entries@)
    }
}

/// The map holds exactly the listed pairs.
proof fn lemma_pairs_map(entries: Seq<(String, String)>)
    requires
        distinct_keys(entries),
    ensures
        forall|i: int|
            0 <= i < entries.len() ==> pairs_map(entries).dom().contains(
                #[trigger] entries[i].0@,
            ) && pairs_map(entries)[entries[i].0@] == entries[i].1@,
        forall|k: Seq<char>| #[trigger]
            pairs_map(entries).dom().contains(k) ==> exists|i: int|
                0 <= i < entries.len() && #[trigger] entries[i].0@ == k,
    decreases entries.len(),
{
    if entries.len() > 0 {
        let rest = entries.drop_last();
        lemma_pairs_map(rest);
        assert forall|i: int| 0 <= i < entries.len() implies pairs_map(entries).dom().contains(
            #[trigger] entries[i].0@,
        ) && pairs_map(entries)[entries[i].0@] == entries[i].1@ by {
            if i < rest.len() {
                assert(rest[i].0@ == entries[i].0@);
            }
        }
        assert forall|k: Seq<char>| #[trigger]
            pairs_map(entries).dom().contains(k) implies exists|i: int|
            0 <= i < entries.len() && #[trigger] entries[i].0@ == k by {
            if k == entries.last().0@ {
                assert(entries[entries.len() - 1].0@ == k);
            } else {
                assert(pairs_map(rest).dom().contains(k));
                let i = choose|i: int| 0 <= i < rest.len() && #[trigger] rest[i].0@ == k;
                assert(entries[i].0@ == k);
            }
        }
    }
}

impl StrMap {
    #[verifier::type_invariant]
    spec fn well_formed(self) -> bool {
        distinct_keys(self.entries@)
    }

    /// The empty map.
    pub fn new() -> (m: StrMap)
        ensures
            m@ == Map::<Seq<char>, Seq<char>>::empty(),
    {
        StrMap { entries: Vec::new() }
    }

    /// The index of `key` in the list.
    fn position(&self, key: &str) -> (found: Option<usize>)
        ensures
            match found {
                Some(i) => i < self.entries@.len() && self.entries@[i as int].0@ == key@,
                None => forall|j: int|
                    0 <= j < self.entries@.len() ==> #[trigger] self.entries@[j].0@ != key@,
            },
    {
        let mut i: usize = 0;
        while i < self.entries.len()
            invariant
                i <= self.entries@.len(),
                forall|j: int| 0 <= j < i ==> #[trigger] self.entries@[j].0@ != key@,
            decreases self.entries@.len() - i,
        {
            if text::same_text(self.entries[i].0.as_str(), key) {
                return Some(i);
            }
            i += 1;
        }
        None
    }

    /// The value at `key`.
    pub fn get(&self, key: &str) -> (value: Option<&String>)
        ensures
            match value {
                Some(v) => self@.dom().contains(key@) && self@[key@] == v@,
                None => !self@.dom().contains(key@),
            },
    {
        proof {
            use_type_invariant(self);
            lemma_pairs_map(self.entries@);
        }
        match self.position(key) {
            Some(i) => Some(&self.entries[i].1),
            None => None,
        }
    }

    /// Sets the value at `key`.
    pub fn insert(&mut self, key: String, value: String)
        ensures
            final(self)@ == old(self)@.insert(key@, value@),
    {
        proof {
            use_type_invariant(&*self);
            lemma_pairs_map(self.entries@);
        }
        let found: Option<usize> = self.position(key.as_str());
        let ghost before = self.entries@;
        let ghost pair = (key, value);
        let mut entries: Vec<(String, String)> = Vec::new();
        std::mem::swap(&mut entries, &mut self.entries);
        match found {
            Some(i) => {
                entries.set(i, (key, value));
                proof {
                    let after = entries@;
                    assert(after == before.update(i as int, pair));
                    assert forall|a: int, b: int| 0 <= a < b < after.len() implies #[trigger] after[a].0@
                        != #[trigger] after[b].0@ by {
                        assert(before[a].0@ != before[b].0@);
                    }
                    lemma_pairs_map(after);
                    let m = pairs_map(before).insert(pair.0@, pair.1@);
                    assert forall|k: Seq<char>| #[trigger] pairs_map(after).dom().contains(k) <==> m.dom().contains(k) by {
                        if pairs_map(after).dom().contains(k) {
                            let x = choose|x: int| 0 <= x < after.len() && #[trigger] after[x].0@ == k;
                            assert(before[x].0@ == k);
                        }
                        if m.dom().contains(k) {
                            if k == pair.0@ {
                                assert(after[i as int].0@ == k);
                            } else {
                                let x = choose|x: int| 0 <= x < before.len() && #[trigger] before[x].0@ == k;
                                assert(after[x].0@ == k);
                            }
                        }
                    }
                    assert forall|k: Seq<char>| #[trigger] pairs_map(after).dom().contains(k) implies pairs_map(after)[k] == m[k] by {
                        let x = choose|x: int| 0 <= x < after.len() && #[trigger] after[x].0@ == k;
                        assert(before[x].0@ == k);
                        if x != i {
                            assert(before[x].0@ != before[i as int].0@);
                        }
                    }
                    assert(pairs_map(after) =~= m);
                }
            },
            None => {
                entries.push((key, value));
                proof {
                    let after = entries@;
                    assert(after.drop_last() =~= before);
                    assert forall|a: int, b: int| 0 <= a < b < after.len() implies #[trigger] after[a].0@
                        != #[trigger] after[b].0@ by {
                        assert(after[a] == before[a]);
                        if b < before.len() {
                            assert(before[a].0@ != before[b].0@);
                        }
                    }
                }
            },
        }
        self.entries = entries;
    }

    /// Every pair of this map is in the other.
    fn within(&self, other: &StrMap) -> (b: bool)
        ensures
            b == (forall|k: Seq<char>| #[trigger]
                self@.dom().contains(k) ==> other@.dom().contains(k) && other@[k] == self@[k]),
    {
        proof {
            use_type_invariant(self);
            lemma_pairs_map(self.entries@);
        }
        let mut i: usize = 0;
        while i < self.entries.len()
            invariant
                i <= self.entries@.len(),
                distinct_keys(self.entries@),
                forall|j: int|
                    0 <= j < i ==> {
                        &&& other@.dom().contains(#[trigger] self.entries@[j].0@)
                        &&& other@[self.entries@[j].0@] == self.entries@[j].1@
                    },
            decreases self.entries@.len() - i,
        {
            proof {
                lemma_pairs_map(self.entries@);
                assert(self@.dom().contains(self.entries@[i as int].0@));
            }
            match other.get(self.entries[i].0.as_str()) {
                Some(v) => {
                    if !text::same_text(v.as_str(), self.entries[i].1.as_str()) {
                        return false;
                    }
                },
                None => {
                    return false;
                },
            }
            i += 1;
        }
        assert forall|k: Seq<char>| #[trigger]
            self@.dom().contains(k) implies other@.dom().contains(k) && other@[k] == self@[k] by {
            let x = choose|x: int| 0 <= x < self.entries@.len() && #[trigger] self.entries@[x].0@ == k;
        }
        true
    }
}

impl Clone for StrMap {
    fn clone(&self) -> (copy: StrMap)
        ensures
            copy@ == self@,
    {
        proof {
            use_type_invariant(self);
        }
        let mut entries: Vec<(String, String)> = Vec::new();
        let mut i: usize = 0;
        while i < self.entries.len()
            invariant
                i <= self.entries@.len(),
                entries@ == self.entries@.take(i as int),
            decreases self.entries@.len() - i,
        {
            entries.push((self.entries[i].0.clone(), self.entries[i].1.clone()));
            assert(entries@ =~= self.entries@.take(i + 1));
            i += 1;
        }
        assert(entries@ =~= self.entries@);
        StrMap { entries }
    }
}

impl PartialEq for StrMap {
    fn eq(&self, other: &StrMap) -> (same: bool) {
        let same: bool = self.within(other) && other.within(self);
        assert(same ==> self@ =~= other@);
        same
    }
}

impl vstd::std_specs::cmp::PartialEqSpecImpl for StrMap {
    open spec fn obeys_eq_spec() -> bool {
        true
    }

    open spec fn eq_spec(&self, other: &StrMap) -> bool {
        self@ == other@
    }
}

} // verus!
