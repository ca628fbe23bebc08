use vstd::prelude::*;

use crate::text::{
    has_substring, keys_unique, lemma_pairs_map_dom, lemma_pairs_map_len,
    lemma_pairs_map_remove, lemma_pairs_map_update, lemma_pairs_map_value, pairs_map, str_contains,
    str_eq,
};

verus! {

broadcast use vstd::string::group_string_axioms;

/// A spatial memory container holding described items, each under its own id.
#[derive(Debug, Clone)]
pub struct Room {
    pub id: String,
    pub name: String,
    /// Item id and description, at most one pair per item id.
    pub items: Vec<(String, String)>,
    /// Sensory cue for recall.
    pub atmosphere: String,
}

/// The (id, description) pair as character sequences.
pub open spec fn item_view(p: (String, String)) -> (Seq<char>, Seq<char>) {
    (p.0@, p.1@)
}

impl Room {
    /// The stored pairs, in the order they are kept.
    pub closed spec fn entries(&self) -> Seq<(Seq<char>, Seq<char>)> {
        self.items@.map_values(|p: (String, String)| item_view(p))
    }

    /// What the room holds: item id to description.
    pub open spec fn contents(&self) -> Map<Seq<char>, Seq<char>> {
        pairs_map(self.entries())
    }

    /// Well-formedness: no item id is stored twice.
    pub open spec fn wf(&self) -> bool {
        keys_unique(self.entries())
    }

    /// Create an empty room.
    pub fn new(id: &str, name: &str, atmosphere: &str) -> (r: Self)
        ensures
            r.wf(),
            r.id@ == id@,
            r.name@ == name@,
            r.atmosphere@ == atmosphere@,
            r.contents() == Map::<Seq<char>, Seq<char>>::empty(),
    {
        let r = Room {
            id: id.to_string(),
            name: name.to_string(),
            items: Vec::new(),
            atmosphere: atmosphere.to_string(),
        };
        assert(r.entries() =~= Seq::<(Seq<char>, Seq<char>)>::empty());
        r
    }

    /// Position of the pair stored for `item_id`, if any.
    fn find(&self, item_id: &str) -> (res: Option<usize>)
        ensures
            match res {
                Some(i) => i < self.items@.len() && self.entries()[i as int].0 == item_id@,
                None => forall|i: int| 0 <= i < self.items@.len() ==> self.entries()[i].0 != item_id@,
            },
    {
        let mut i: usize = 0;
        while i < self.items.len()
            invariant
                i <= self.items@.len(),
                forall|j: int| 0 <= j < i ==> self.entries()[j].0 != item_id@,
            decreases self.items@.len() - i,
        {
            if str_eq(self.items[i].0.as_str(), item_id) {
                return Some(i);
            }
            i = i + 1;
        }
        None
    }

    /// Place an item in this room, replacing the description of an item with the same id.
    pub fn place(&mut self, item_id: &str, description: &str)
        requires
            old(self).wf(),
        ensures
            final(self).wf(),
            final(self).contents() == old(self).contents().insert(item_id@, description@),
            final(self).id == old(self).id,
            final(self).name == old(self).name,
            final(self).atmosphere == old(self).atmosphere,
    {
        let ghost before = self.entries();
        let entry = (item_id.to_string(), description.to_string());
        match self.find(item_id) {
            Some(i) => {
                self.items.set(i, entry);
                proof {
                    lemma_pairs_map_update(before, i as int, description@);
                    assert(self.entries() =~= before.update(i as int, (before[i as int].0, description@)));
                }
            },
            None => {
                self.items.push(entry);
                proof {
                    assert(self.entries() =~= before.push((item_id@, description@)));
                    assert(self.entries().drop_last() =~= before);
                }
            },
        }
    }

    /// Retrieve the description of an item by id.
    pub fn retrieve(&self, item_id: &str) -> (res: Option<&str>)
        requires
            self.wf(),
        ensures
            match res {
                Some(d) => self.contents().contains_key(item_id@) && d@ == self.contents()[item_id@],
                None => !self.contents().contains_key(item_id@),
            },
    {
        proof {
            lemma_pairs_map_dom(self.entries());
        }
        match self.find(item_id) {
            Some(i) => {
                proof {
                    lemma_pairs_map_value(self.entries(), i as int);
                }
                Some(self.items[i].1.as_str())
            },
            None => None,
        }
    }

    /// Remove an item from the room, handing back its description.
    pub fn remove_item(&mut self, item_id: &str) -> (res: Option<String>)
        requires
            old(self).wf(),
        ensures
            final(self).wf(),
            final(self).contents() == old(self).contents().remove(item_id@),
            match res {
                Some(d) => old(self).contents().contains_key(item_id@) && d@ == old(self).contents()[item_id@],
                None => !old(self).contents().contains_key(item_id@),
            },
            final(self).id == old(self).id,
            final(self).name == old(self).name,
            final(self).atmosphere == old(self).atmosphere,
    {
        let ghost before = self.entries();
        proof {
            lemma_pairs_map_dom(before);
        }
        match self.find(item_id) {
            Some(i) => {
                proof {
                    lemma_pairs_map_value(before, i as int);
                    lemma_pairs_map_remove(before, i as int);
                }
                let (_, d) = self.items.remove(i);
                proof {
                    assert(self.entries() =~= before.remove(i as int));
                }
                Some(d)
            },
            None => {
                proof {
                    assert(pairs_map(before).remove(item_id@) =~= pairs_map(before));
                }
                None
            },
        }
    }

    /// Number of items in the room.
    pub fn len(&self) -> (n: usize)
        requires
            self.wf(),
        ensures
            self.contents().dom().finite(),
            n == self.contents().len(),
    {
        proof {
            lemma_pairs_map_len(self.entries());
        }
        self.items.len()
    }

    /// Is the room empty?
    pub fn is_empty(&self) -> (b: bool)
        requires
            self.wf(),
        ensures
            self.contents().dom().finite(),
            b == (self.contents().len() == 0),
    {
        proof {
            lemma_pairs_map_len(self.entries());
        }
        self.items.len() == 0
    }

    /// List all item ids.
    pub fn item_ids(&self) -> (ids: Vec<&str>)
        requires
            self.wf(),
        ensures
            ids@.len() == self.contents().len(),
            forall|i: int| 0 <= i < ids@.len() ==> self.contents().contains_key(#[trigger] ids@[i]@),
            forall|k: Seq<char>|
                self.contents().contains_key(k) ==> exists|i: int| 0 <= i < ids@.len() && #[trigger] ids@[i]@ == k,
            forall|i: int, j: int| 0 <= i < j < ids@.len() ==> ids@[i]@ != ids@[j]@,
    {
        let ghost e = self.entries();
        proof {
            lemma_pairs_map_len(e);
            lemma_pairs_map_dom(e);
        }
        let mut ids: Vec<&str> = Vec::new();
        let mut i: usize = 0;
        while i < self.items.len()
            invariant
                e == self.entries(),
                i <= self.items@.len(),
                ids@.len() == i,
                forall|j: int| 0 <= j < i ==> #[trigger] ids@[j]@ == e[j].0,
            decreases self.items@.len() - i,
        {
            ids.push(self.items[i].0.as_str());
            i = i + 1;
        }
        assert forall|k: Seq<char>| self.contents().contains_key(k) implies exists|i: int|
            0 <= i < ids@.len() && #[trigger] ids@[i]@ == k by {
            let j = choose|j: int| 0 <= j < e.len() && e[j].0 == k;
            assert(ids@[j]@ == k);
        }
        assert forall|j: int| 0 <= j < ids@.len() implies self.contents().contains_key(
            #[trigger] ids@[j]@,
        ) by {
            lemma_pairs_map_value(e, j);
        }
        ids
    }

    /// Search items whose description contains `query`, as (id, description) pairs.
    pub fn search(&self, query: &str) -> (found: Vec<(&str, &str)>)
        requires
            self.wf(),
        ensures
            forall|i: int|
                #![trigger found@[i]]
                0 <= i < found@.len() ==> {
                    &&& self.contents().contains_key(found@[i].0@)
                    &&& self.contents()[found@[i].0@] == found@[i].1@
                    &&& has_substring(found@[i].1@, query@)
                },
            forall|k: Seq<char>|
                self.contents().contains_key(k) && has_substring(self.contents()[k], query@)
                    ==> exists|i: int| 0 <= i < found@.len() && #[trigger] found@[i].0@ == k,
            forall|i: int, j: int| 0 <= i < j < found@.len() ==> found@[i].0@ != found@[j].0@,
    {
        let ghost e = self.entries();
        proof {
            lemma_pairs_map_dom(e);
        }
        let mut found: Vec<(&str, &str)> = Vec::new();
        let mut i: usize = 0;
        while i < self.items.len()
            invariant
                e == self.entries(),
                keys_unique(e),
                i <= self.items@.len(),
                forall|r: int|
                    #![trigger found@[r]]
                    0 <= r < found@.len() ==> exists|j: int|
                        0 <= j < i && e[j] == (found@[r].0@, found@[r].1@) && has_substring(
                            e[j].1,
                            query@,
                        ),
                forall|j: int|
                    0 <= j < i && has_substring(#[trigger] e[j].1, query@) ==> exists|r: int|
                        0 <= r < found@.len() && #[trigger] found@[r].0@ == e[j].0,
                forall|a: int, b: int| 0 <= a < b < found@.len() ==> found@[a].0@ != found@[b].0@,
            decreases self.items@.len() - i,
        {
            let id = self.items[i].0.as_str();
            let desc = self.items[i].1.as_str();
            assert(e[i as int] == (id@, desc@));
            if str_contains(desc, query) {
                let ghost prev = found@;
                found.push((id, desc));
                proof {
                    assert forall|a: int, b: int| 0 <= a < b < found@.len() implies found@[a].0@
                        != found@[b].0@ by {
                        if b == found@.len() - 1 {
                            assert(found@[a] == prev[a]);
                            let j = choose|j: int|
                                0 <= j < i && e[j] == (prev[a].0@, prev[a].1@) && has_substring(
                                    e[j].1,
                                    query@,
                                );
                        }
                    }
                    assert forall|r: int|
                        #![trigger found@[r]]
                        0 <= r < found@.len() implies exists|j: int|
                        0 <= j < i + 1 && e[j] == (found@[r].0@, found@[r].1@) && has_substring(
                            e[j].1,
                            query@,
                        ) by {
                        if r < found@.len() - 1 {
                            assert(found@[r] == prev[r]);
                        } else {
                            assert(e[i as int] == (found@[r].0@, found@[r].1@));
                        }
                    }
                    assert forall|j: int|
                        0 <= j < i + 1 && has_substring(#[trigger] e[j].1, query@) implies exists|r: int|
                        0 <= r < found@.len() && #[trigger] found@[r].0@ == e[j].0 by {
                        if j < i {
                            let r = choose|r: int| 0 <= r < prev.len() && #[trigger] prev[r].0@ == e[j].0;
                            assert(found@[r] == prev[r]);
                        } else {
                            assert(found@[found@.len() - 1].0@ == e[j].0);
                        }
                    }
                }
            }
            i = i + 1;
        }
        assert forall|r: int|
            #![trigger found@[r]]
            0 <= r < found@.len() implies {
            &&& self.contents().contains_key(found@[r].0@)
            &&& self.contents()[found@[r].0@] == found@[r].1@
            &&& has_substring(found@[r].1@, query@)
        } by {
            let j = choose|j: int|
                0 <= j < e.len() && e[j] == (found@[r].0@, found@[r].1@) && has_substring(
                    e[j].1,
                    query@,
                );
            lemma_pairs_map_value(e, j);
        }
        assert forall|k: Seq<char>|
            self.contents().contains_key(k) && has_substring(self.contents()[k], query@)
            implies exists|r: int| 0 <= r < found@.len() && #[trigger] found@[r].0@ == k by {
            let j = choose|j: int| 0 <= j < e.len() && e[j].0 == k;
            lemma_pairs_map_value(e, j);
            assert(has_substring(e[j].1, query@));
        }
        found
    }
}

/// Retrieving an item right after placing it gives the placed description.
pub proof fn law_retrieve_after_place(before: Room, after: Room, id: Seq<char>, desc: Seq<char>)
    requires
        after.contents() == before.contents().insert(id, desc),
    ensures
        after.contents().contains_key(id),
        after.contents()[id] == desc,
{
}

/// Removing an item that was just placed under a new id leaves the room
/// holding what it held before.
pub proof fn law_remove_undoes_place(r: Room, id: Seq<char>, desc: Seq<char>)
    requires
        !r.contents().contains_key(id),
    ensures
        r.contents().insert(id, desc).remove(id) == r.contents(),
{
    assert(r.contents().insert(id, desc).remove(id) =~= r.contents());
}

/// Placing an item adds one to the room's count for a new id and leaves the
/// count alone for an id already there.
pub proof fn law_place_count(r: Room, id: Seq<char>, desc: Seq<char>)
    requires
        r.wf(),
    ensures
        r.contents().insert(id, desc).len() == r.contents().len() + if r.contents().contains_key(id) {
            0int
        } else {
            1int
        },
{
    lemma_pairs_map_len(r.entries());
}

} // verus!
