//! A finite map from string identifiers to sets of string identifiers,
//! backed by a vector of entries with duplicate-free keys. Its view is
//! a `Map<Seq<char>, Set<Seq<char>>>`, the shape shared by the
//! bipartite graph, the distance-2 map and both connection graphs.

use crate::id_set::IdSet;
use vstd::prelude::*;

verus! {

/// `m` after adding a directed edge from `a` to `b`, creating `a`'s
/// adjacency set if it is absent.
pub open spec fn with_edge(
    m: Map<Seq<char>, Set<Seq<char>>>,
    a: Seq<char>,
    b: Seq<char>,
) -> Map<Seq<char>, Set<Seq<char>>> {
    m.insert(
        a,
        if m.dom().contains(a) {
            m[a].insert(b)
        } else {
            Set::empty().insert(b)
        },
    )
}

/// A map from identifiers to identifier sets. Well-formed values hold
/// each key once and only well-formed sets.
pub struct AdjacencyMap {
    entries: Vec<(String, IdSet)>,
}

impl View for AdjacencyMap {
    type V = Map<Seq<char>, Set<Seq<char>>>;

    closed spec fn view(&self) -> Map<Seq<char>, Set<Seq<char>>> {
        Map::new(
            |k: Seq<char>| self.keys().contains(k),
            |k: Seq<char>| self.entries@[self.keys().index_of(k)].1@,
        )
    }
}

impl AdjacencyMap {
    /// The stored keys, in insertion order.
    pub closed spec fn keys(&self) -> Seq<Seq<char>> {
        self.entries@.map_values(|e: (String, IdSet)| e.0@)
    }

    /// Keys are distinct and every adjacency set is well-formed.
    pub closed spec fn wf(&self) -> bool {
        &&& self.keys().no_duplicates()
        &&& forall|i: int| 0 <= i < self.entries@.len() ==> (#[trigger] self.entries@[i]).1.wf()
    }

    /// The domain is exactly the set of stored keys.
    pub proof fn lemma_dom(&self)
        ensures
            self@.dom() == self.keys().to_set(),
    {
        assert(self@.dom() =~= self.keys().to_set());
    }

    /// A well-formed map stores each key once.
    pub proof fn lemma_keys_distinct(&self)
        requires
            self.wf(),
        ensures
            self.keys().no_duplicates(),
    {
    }

    proof fn lemma_entry_view(&self, i: int)
        requires
            self.wf(),
            0 <= i < self.keys().len(),
        ensures
            self@.dom().contains(self.keys()[i]),
            self@[self.keys()[i]] == self.entries@[i].1@,
    {
        let k = self.keys()[i];
        assert(self.keys().contains(k));
        let j = self.keys().index_of(k);
        assert(0 <= j < self.keys().len() && self.keys()[j] == k);
        assert(j == i);
    }

    /// The empty map.
    pub fn new() -> (r: AdjacencyMap)
        ensures
            r.wf(),
            r@ == Map::<Seq<char>, Set<Seq<char>>>::empty(),
            r.keys() == Seq::<Seq<char>>::empty(),
    {
        let r = AdjacencyMap { entries: Vec::new() };
        proof {
            assert(r@ =~= Map::<Seq<char>, Set<Seq<char>>>::empty());
        }
        r
    }

    fn position_of(&self, k: &String) -> (r: Option<usize>)
        ensures
            match r {
                Some(i) => i < self.keys().len() && self.keys()[i as int] == k@,
                None => !self.keys().contains(k@),
            },
    {
        let mut i: usize = 0;
        while i < self.entries.len()
            invariant
                0 <= i <= self.entries.len(),
                forall|j: int| 0 <= j < i ==> self.keys()[j] != k@,
            decreases self.entries.len() - i,
        {
            if self.entries[i].0.eq(k) {
                proof {
                    assert(self.keys()[i as int] == k@);
                }
                return Some(i);
            }
            i = i + 1;
        }
        None
    }

    /// Number of keys.
    pub fn len(&self) -> (n: usize)
        ensures
            n == self.keys().len(),
    {
        self.entries.len()
    }

    /// The `i`-th stored key.
    pub fn key_at(&self, i: usize) -> (r: &String)
        requires
            self.wf(),
            i < self.keys().len(),
        ensures
            r@ == self.keys()[i as int],
            self@.dom().contains(r@),
    {
        proof {
            self.lemma_entry_view(i as int);
        }
        &self.entries[i].0
    }

    /// The adjacency set of the `i`-th stored key.
    pub fn neighbors_at(&self, i: usize) -> (r: &IdSet)
        requires
            self.wf(),
            i < self.keys().len(),
        ensures
            r.wf(),
            r@ == self@[self.keys()[i as int]],
    {
        proof {
            self.lemma_entry_view(i as int);
        }
        &self.entries[i].1
    }

    /// Look a key up.
    pub fn get(&self, k: &String) -> (r: Option<&IdSet>)
        requires
            self.wf(),
        ensures
            match r {
                Some(s) => self@.dom().contains(k@) && s.wf() && s@ == self@[k@],
                None => !self@.dom().contains(k@),
            },
    {
        match self.position_of(k) {
            Some(i) => {
                proof {
                    self.lemma_entry_view(i as int);
                }
                Some(&self.entries[i].1)
            },
            None => None,
        }
    }

    /// Add `k` with an empty adjacency set if it is absent.
    pub fn ensure_node(&mut self, k: &String)
        requires
            old(self).wf(),
        ensures
            final(self).wf(),
            old(self)@.dom().contains(k@) ==> final(self)@ == old(self)@ && final(self).keys()
                == old(self).keys(),
            !old(self)@.dom().contains(k@) ==> final(self)@ == old(self)@.insert(
                k@,
                Set::empty(),
            ) && final(self).keys() == old(self).keys().push(k@),
    {
        match self.position_of(k) {
            Some(_) => {
            },
            None => {
                self.entries.push((k.clone(), IdSet::new()));
                proof {
                    self.lemma_after_push(old(self), k@);
                }
            },
        }
    }

    /// Add a directed edge from `from` to `to`, creating `from`'s
    /// adjacency set if it is absent.
    pub fn insert_edge(&mut self, from: &String, to: &String)
        requires
            old(self).wf(),
        ensures
            final(self).wf(),
            final(self)@ == with_edge(old(self)@, from@, to@),
            old(self)@.dom().contains(from@) ==> final(self).keys() == old(self).keys(),
            !old(self)@.dom().contains(from@) ==> final(self).keys() == old(self).keys().push(
                from@,
            ),
    {
        match self.position_of(from) {
            Some(i) => {
                proof {
                    self.lemma_entry_view(i as int);
                    assert(self@.dom().contains(from@));
                }
                let e = &mut self.entries[i];
                e.1.insert(to);
                proof {
                    self.lemma_after_update(old(self), i as int, from@, to@);
                }
            },
            None => {
                let mut s = IdSet::new();
                s.insert(to);
                self.entries.push((from.clone(), s));
                proof {
                    self.lemma_after_push(old(self), from@);
                }
            },
        }
    }

    proof fn lemma_after_push(&self, prev: &AdjacencyMap, k: Seq<char>)
        requires
            prev.wf(),
            !prev.keys().contains(k),
            self.entries@.len() == prev.entries@.len() + 1,
            forall|j: int| 0 <= j < prev.entries@.len() ==> self.entries@[j] == prev.entries@[j],
            self.entries@.last().0@ == k,
            self.entries@.last().1.wf(),
        ensures
            self.wf(),
            self.keys() == prev.keys().push(k),
            self@ == prev@.insert(k, self.entries@.last().1@),
    {
        assert(self.keys() =~= prev.keys().push(k));
        assert forall|j: int, l: int|
            0 <= j < self.keys().len() && 0 <= l < self.keys().len() && j != l implies self.keys()[j]
            != self.keys()[l] by {
            if j == self.keys().len() - 1 {
                assert(prev.keys().contains(prev.keys()[l]));
            }
            if l == self.keys().len() - 1 {
                assert(prev.keys().contains(prev.keys()[j]));
            }
        }
        assert(self.wf());
        assert forall|x: Seq<char>| #[trigger] self.keys().contains(x) <==> (x == k
            || prev.keys().contains(x)) by {
            vstd::seq_lib::lemma_seq_contains_after_push(prev.keys(), k, x);
        }
        assert forall|x: Seq<char>| self@.dom().contains(x) implies self@[x] == prev@.insert(
            k,
            self.entries@.last().1@,
        )[x] by {
            let j = choose|j: int| 0 <= j < self.keys().len() && self.keys()[j] == x;
            self.lemma_entry_view(j);
            if x == k {
                assert(self.keys()[self.keys().len() - 1] == x);
                assert(j == self.keys().len() - 1);
            } else {
                assert(prev.keys()[j] == x);
                prev.lemma_entry_view(j);
            }
        }
        assert(self@ =~= prev@.insert(k, self.entries@.last().1@));
    }

    proof fn lemma_after_update(&self, prev: &AdjacencyMap, i: int, k: Seq<char>, b: Seq<char>)
        requires
            prev.wf(),
            0 <= i < prev.entries@.len(),
            prev.keys()[i] == k,
            self.entries@.len() == prev.entries@.len(),
            forall|j: int|
                0 <= j < prev.entries@.len() && j != i ==> self.entries@[j] == prev.entries@[j],
            self.entries@[i].0 == prev.entries@[i].0,
            self.entries@[i].1.wf(),
            self.entries@[i].1@ == prev.entries@[i].1@.insert(b),
        ensures
            self.wf(),
            self.keys() == prev.keys(),
            self@ == with_edge(prev@, k, b),
    {
        assert(self.keys() =~= prev.keys());
        assert(self.wf());
        prev.lemma_entry_view(i);
        assert forall|x: Seq<char>| self@.dom().contains(x) implies self@[x] == with_edge(
            prev@,
            k,
            b,
        )[x] by {
            let j = choose|j: int| 0 <= j < self.keys().len() && self.keys()[j] == x;
            self.lemma_entry_view(j);
            prev.lemma_entry_view(j);
            if x == k {
                assert(j == i);
            }
        }
        assert(self@.dom() =~= with_edge(prev@, k, b).dom());
        assert(self@ =~= with_edge(prev@, k, b));
    }
}

} // verus!
