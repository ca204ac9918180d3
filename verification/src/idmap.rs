//! Dense ids for chromosome names, in the order in which the names were
//! first seen.

use vstd::hash_map::StringHashMap;
use vstd::prelude::*;
use vstd::string::StringExecFns;

verus! {

/// The id that `name` has once it was asked for, where `names` are the names
/// that have ids: the index of `name` among them, or else the next free id.
pub open spec fn spec_id(names: Seq<Seq<char>>, name: Seq<char>) -> int {
    if names.contains(name) {
        names.index_of(name)
    } else {
        names.len() as int
    }
}

/// Maps each name to the number of names that were seen before it.
pub struct IdMap {
    map: StringHashMap<u32>,
    names: Vec<String>,
}

impl View for IdMap {
    type V = Seq<Seq<char>>;

    /// The names in the order of their ids: the name at index `i` has id `i`.
    closed spec fn view(&self) -> Seq<Seq<char>> {
        self.names@.map_values(|name: String| name@)
    }
}

impl IdMap {
    /// The lookup table agrees with the list of names.
    pub closed spec fn wf(&self) -> bool {
        &&& self.names@.len() <= u32::MAX
        &&& forall|i: int|
            0 <= i < self.names@.len() ==> self.map@.contains_key(#[trigger] self.names@[i]@)
                && self.map@[self.names@[i]@] == i
        &&& forall|name: Seq<char>| #[trigger]
            self.map@.contains_key(name) ==> self.map@[name] < self.names@.len()
                && self.names@[self.map@[name] as int]@ == name
    }

    /// No name has two ids.
    pub proof fn lemma_names_distinct(&self)
        requires
            self.wf(),
        ensures
            self@.no_duplicates(),
            self@.len() <= u32::MAX,
    {
        assert forall|i: int, j: int|
            0 <= i < self@.len() && 0 <= j < self@.len() && i != j implies self@[i] != self@[j] by {
            assert(self@[i] == self.names@[i]@);
            assert(self@[j] == self.names@[j]@);
        }
    }

    /// A map without names.
    pub fn new() -> (r: IdMap)
        ensures
            r.wf(),
            r@ == Seq::<Seq<char>>::empty(),
    {
        IdMap { map: StringHashMap::new(), names: Vec::new() }
    }

    /// How many names have an id.
    pub fn len(&self) -> (n: usize)
        ensures
            n == self@.len(),
    {
        self.names.len()
    }

    /// The id of `name`: the one it has, or else the next free one, which it
    /// has from now on.
    pub fn get_id(&mut self, name: &str) -> (id: u32)
        requires
            old(self).wf(),
            old(self)@.len() < u32::MAX,
        ensures
            final(self).wf(),
            id == spec_id(old(self)@, name@),
            final(self)@[id as int] == name@,
            id < final(self)@.len(),
            if old(self)@.contains(name@) {
                final(self)@ == old(self)@
            } else {
                id == old(self)@.len() && final(self)@ == old(self)@.push(name@)
            },
    {
        match self.map.get(name) {
            Some(id) => {
                let id = *id;
                assert(self@[id as int] == self.names@[id as int]@);
                assert(self@.contains(name@));
                proof {
                    self.lemma_names_distinct();
                    let found = self@.index_of(name@);
                    assert(self@[found] == name@);
                }
                id
            },
            None => {
                proof {
                    if self@.contains(name@) {
                        let i = choose|i: int| 0 <= i < self@.len() && self@[i] == name@;
                        assert(self.names@[i]@ == name@);
                    }
                }
                let id: u32 = self.names.len() as u32;
                let ghost before = self.names@;
                self.map.insert(String::from_str(name), id);
                self.names.push(String::from_str(name));
                proof {
                    assert(self@ =~= old(self)@.push(name@));
                    assert forall|i: int| 0 <= i < self.names@.len() implies self.map@.contains_key(
                        #[trigger] self.names@[i]@,
                    ) && self.map@[self.names@[i]@] == i by {
                        if i < before.len() {
                            assert(self.names@[i] == before[i]);
                            assert(old(self).map@.contains_key(before[i]@));
                        }
                    }
                    assert forall|key: Seq<char>| #[trigger]
                        self.map@.contains_key(key) implies self.map@[key] < self.names@.len()
                        && self.names@[self.map@[key] as int]@ == key by {
                        if key != name@ {
                            assert(old(self).map@.contains_key(key));
                        }
                    }
                }
                id
            },
        }
    }

    /// The names with their ids, in the order of the ids.
    pub fn entries(&self) -> (r: Vec<(String, u32)>)
        requires
            self.wf(),
        ensures
            r@.len() == self@.len(),
            forall|i: int| 0 <= i < r@.len() ==> (#[trigger] r@[i]).0@ == self@[i] && r@[i].1 == i,
    {
        let mut out: Vec<(String, u32)> = Vec::new();
        let mut i: usize = 0;
        while i < self.names.len()
            invariant
                i <= self.names@.len(),
                self.names@.len() <= u32::MAX,
                out@.len() == i,
                forall|k: int|
                    0 <= k < out@.len() ==> (#[trigger] out@[k]).0@ == self@[k] && out@[k].1 == k,
            decreases self.names@.len() - i,
        {
            let name = self.names[i].clone();
            assert(name@ == self@[i as int]);
            out.push((name, i as u32));
            i = i + 1;
        }
        out
    }
}

/// The length of each chromosome that may be written, by name.
pub struct ChromSizes {
    map: StringHashMap<u32>,
}

impl View for ChromSizes {
    type V = Map<Seq<char>, u32>;

    closed spec fn view(&self) -> Map<Seq<char>, u32> {
        self.map@
    }
}

impl ChromSizes {
    /// A table without chromosomes.
    pub fn new() -> (r: ChromSizes)
        ensures
            r@ == Map::<Seq<char>, u32>::empty(),
    {
        ChromSizes { map: StringHashMap::new() }
    }

    /// Sets the length of `name`.
    pub fn insert(&mut self, name: String, length: u32)
        ensures
            final(self)@ == old(self)@.insert(name@, length),
    {
        self.map.insert(name, length);
    }

    /// The length of `name`, if the table has it.
    pub fn get(&self, name: &str) -> (r: Option<u32>)
        ensures
            r == if self@.contains_key(name@) {
                Some(self@[name@])
            } else {
                None
            },
    {
        match self.map.get(name) {
            Some(length) => Some(*length),
            None => None,
        }
    }
}

} // verus!
