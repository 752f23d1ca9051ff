//! A finite set of string identifiers, backed by a duplicate-free
//! vector. Its view is the set of identifier contents, so contracts
//! over it speak pure set language.

use vstd::prelude::*;

verus! {

/// A set of identifiers. Well-formed values hold each identifier once.
pub struct IdSet {
    items: Vec<String>,
}

impl View for IdSet {
    type V = Set<Seq<char>>;

    open spec fn view(&self) -> Set<Seq<char>> {
        self.ids().to_set()
    }
}

impl IdSet {
    /// The stored identifiers, in insertion order.
    pub closed spec fn ids(&self) -> Seq<Seq<char>> {
        self.items@.map_values(|s: String| s@)
    }

    /// No identifier is stored twice.
    pub closed spec fn wf(&self) -> bool {
        self.ids().no_duplicates()
    }

    /// The empty set.
    pub fn new() -> (r: IdSet)
        ensures
            r.wf(),
            r@ == Set::<Seq<char>>::empty(),
            r.ids() == Seq::<Seq<char>>::empty(),
    {
        let r = IdSet { items: Vec::new() };
        proof {
            assert(r@ =~= Set::<Seq<char>>::empty());
        }
        r
    }

    /// Membership test.
    pub fn contains(&self, id: &String) -> (b: bool)
        ensures
            b == self@.contains(id@),
    {
        let mut i: usize = 0;
        while i < self.items.len()
            invariant
                0 <= i <= self.items.len(),
                forall|j: int| 0 <= j < i ==> self.ids()[j] != id@,
            decreases self.items.len() - i,
        {
            if self.items[i].eq(id) {
                proof {
                    assert(self.ids()[i as int] == id@);
                }
                return true;
            }
            i = i + 1;
        }
        proof {
            assert(!self.ids().contains(id@));
        }
        false
    }

    /// Insert an identifier; inserting a member again changes nothing.
    pub fn insert(&mut self, id: &String)
        requires
            old(self).wf(),
        ensures
            final(self).wf(),
            final(self)@ == old(self)@.insert(id@),
            old(self)@.contains(id@) ==> final(self).ids() == old(self).ids(),
            !old(self)@.contains(id@) ==> final(self).ids() == old(self).ids().push(id@),
    {
        if !self.contains(id) {
            self.items.push(id.clone());
            proof {
                assert(self.ids() =~= old(self).ids().push(id@));
                assert forall|x: Seq<char>| #[trigger] self.ids().contains(x) <==> (x == id@
                    || old(self).ids().contains(x)) by {
                    vstd::seq_lib::lemma_seq_contains_after_push(old(self).ids(), id@, x);
                }
                assert(self@ =~= old(self)@.insert(id@));
            }
        } else {
            proof {
                assert(self@ =~= old(self)@.insert(id@));
            }
        }
    }

    /// Number of members.
    pub fn len(&self) -> (n: usize)
        requires
            self.wf(),
        ensures
            n == self.ids().len(),
            n == self@.len(),
    {
        proof {
            self.ids().unique_seq_to_set();
        }
        self.items.len()
    }

    /// The `i`-th stored identifier.
    pub fn item_at(&self, i: usize) -> (r: &String)
        requires
            i < self.ids().len(),
        ensures
            r@ == self.ids()[i as int],
            self@.contains(r@),
    {
        proof {
            assert(self.ids().contains(self.ids()[i as int]));
        }
        &self.items[i]
    }

    /// Every member is stored at some index, and conversely.
    pub proof fn lemma_ids_view(&self)
        ensures
            forall|x: Seq<char>|
                self@.contains(x) <==> exists|i: int| 0 <= i < self.ids().len() && self.ids()[i]
                    == x,
    {
    }
}

} // verus!
