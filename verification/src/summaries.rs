//! Count-valued maps over string identifiers: the per-user purchase
//! summary and the degree map, both backed by vectors with
//! duplicate-free keys, plus the spec-level sum of their counts.

use vstd::prelude::*;

verus! {

/// The count stored for `k`, or zero where `k` is absent.
pub open spec fn count_or_zero(m: Map<Seq<char>, int>, k: Seq<char>) -> int {
    if m.dom().contains(k) {
        m[k]
    } else {
        0
    }
}

/// Sum of the counts of `m` over the key sequence `keys`.
pub open spec fn sum_counts(keys: Seq<Seq<char>>, m: Map<Seq<char>, int>) -> int
    decreases keys.len(),
{
    if keys.len() == 0 {
        0
    } else {
        sum_counts(keys.drop_last(), m) + count_or_zero(m, keys.last())
    }
}

/// Maps that agree on every listed key sum alike.
pub proof fn lemma_sum_agree(
    keys: Seq<Seq<char>>,
    m1: Map<Seq<char>, int>,
    m2: Map<Seq<char>, int>,
)
    requires
        forall|x: Seq<char>|
            keys.contains(x) ==> count_or_zero(m1, x) == count_or_zero(m2, x),
    ensures
        sum_counts(keys, m1) == sum_counts(keys, m2),
    decreases keys.len(),
{
    if keys.len() > 0 {
        assert(keys.contains(keys.last()));
        assert(forall|x: Seq<char>| keys.drop_last().contains(x) ==> keys.contains(x));
        lemma_sum_agree(keys.drop_last(), m1, m2);
    }
}

/// Overwriting one listed key changes the sum by the difference.
pub proof fn lemma_sum_insert(keys: Seq<Seq<char>>, m: Map<Seq<char>, int>, k: Seq<char>, v: int)
    requires
        keys.no_duplicates(),
        keys.contains(k),
    ensures
        sum_counts(keys, m.insert(k, v)) == sum_counts(keys, m) + v - count_or_zero(m, k),
    decreases keys.len(),
{
    let rest = keys.drop_last();
    assert(forall|x: Seq<char>| rest.contains(x) ==> keys.contains(x));
    if keys.last() == k {
        assert forall|x: Seq<char>| rest.contains(x) implies count_or_zero(m.insert(k, v), x)
            == count_or_zero(m, x) by {
            let i = choose|i: int| 0 <= i < rest.len() && rest[i] == x;
            assert(keys[i] == x);
            assert(keys[keys.len() - 1] == k);
        }
        lemma_sum_agree(rest, m.insert(k, v), m);
    } else {
        let i = choose|i: int| 0 <= i < keys.len() && keys[i] == k;
        assert(keys[keys.len() - 1] != k);
        assert(rest[i] == k);
        assert(rest.contains(k));
        assert(rest.no_duplicates());
        lemma_sum_insert(rest, m, k, v);
    }
}

/// Inserting an unlisted key leaves the sum unchanged.
pub proof fn lemma_sum_absent(keys: Seq<Seq<char>>, m: Map<Seq<char>, int>, k: Seq<char>, v: int)
    requires
        !keys.contains(k),
    ensures
        sum_counts(keys, m.insert(k, v)) == sum_counts(keys, m),
{
    assert forall|x: Seq<char>| keys.contains(x) implies count_or_zero(m.insert(k, v), x)
        == count_or_zero(m, x) by {
        assert(x != k);
    }
    lemma_sum_agree(keys, m.insert(k, v), m);
}

/// A map from node identifiers to transaction-touch counts.
pub struct DegreeMap {
    entries: Vec<(String, usize)>,
}

impl View for DegreeMap {
    type V = Map<Seq<char>, int>;

    closed spec fn view(&self) -> Map<Seq<char>, int> {
        Map::new(
            |k: Seq<char>| self.keys().contains(k),
            |k: Seq<char>| self.entries@[self.keys().index_of(k)].1 as int,
        )
    }
}

impl DegreeMap {
    /// The stored keys, in insertion order.
    pub closed spec fn keys(&self) -> Seq<Seq<char>> {
        self.entries@.map_values(|e: (String, usize)| e.0@)
    }

    /// Each key is stored once.
    pub open spec fn wf(&self) -> bool {
        self.keys().no_duplicates()
    }

    /// Sum of all stored counts.
    pub open spec fn total(&self) -> int {
        sum_counts(self.keys(), self@)
    }

    /// The domain is exactly the set of stored keys.
    pub proof fn lemma_dom(&self)
        ensures
            self@.dom() == self.keys().to_set(),
    {
        assert(self@.dom() =~= self.keys().to_set());
    }

    proof fn lemma_entry_view(&self, i: int)
        requires
            self.wf(),
            0 <= i < self.keys().len(),
        ensures
            self@.dom().contains(self.keys()[i]),
            self@[self.keys()[i]] == self.entries@[i].1 as int,
    {
        let k = self.keys()[i];
        assert(self.keys().contains(k));
        let j = self.keys().index_of(k);
        assert(0 <= j < self.keys().len() && self.keys()[j] == k);
        assert(j == i);
    }

    /// The empty map.
    pub fn new() -> (r: DegreeMap)
        ensures
            r.wf(),
            r@ == Map::<Seq<char>, int>::empty(),
            r.keys() == Seq::<Seq<char>>::empty(),
            r.total() == 0,
    {
        let r = DegreeMap { entries: Vec::new() };
        proof {
            assert(r@ =~= Map::<Seq<char>, int>::empty());
        }
        r
    }

    fn position_of(&self, k: &String) -> (r: Option<usize>)
        ensures
            match r {
                Some(i) => i < self.keys().len() && self.keys()[i as int] == k@,
                None => !self.keys().contains(k@),
            },
    {
        let mut i: usize = 0;
        while i < self.entries.len()
            invariant
                0 <= i <= self.entries.len(),
                forall|j: int| 0 <= j < i ==> self.keys()[j] != k@,
            decreases self.entries.len() - i,
        {
            if self.entries[i].0.eq(k) {
                proof {
                    assert(self.keys()[i as int] == k@);
                }
                return Some(i);
            }
            i = i + 1;
        }
        None
    }

    /// Number of keys.
    pub fn len(&self) -> (n: usize)
        ensures
            n == self.keys().len(),
    {
        self.entries.len()
    }

    /// The `i`-th stored key.
    pub fn key_at(&self, i: usize) -> (r: &String)
        requires
            self.wf(),
            i < self.keys().len(),
        ensures
            r@ == self.keys()[i as int],
            self@.dom().contains(r@),
    {
        proof {
            self.lemma_entry_view(i as int);
        }
        &self.entries[i].0
    }

    /// The count stored with the `i`-th key.
    pub fn count_at(&self, i: usize) -> (r: usize)
        requires
            self.wf(),
            i < self.keys().len(),
        ensures
            r as int == self@[self.keys()[i as int]],
    {
        proof {
            self.lemma_entry_view(i as int);
        }
        self.entries[i].1
    }

    /// Look a key up.
    pub fn get(&self, k: &String) -> (r: Option<usize>)
        requires
            self.wf(),
        ensures
            match r {
                Some(c) => self@.dom().contains(k@) && c as int == self@[k@],
                None => !self@.dom().contains(k@),
            },
    {
        match self.position_of(k) {
            Some(i) => {
                proof {
                    self.lemma_entry_view(i as int);
                }
                Some(self.entries[i].1)
            },
            None => None,
        }
    }

    /// Store `v` under `k`, replacing any earlier count.
    pub fn set_count(&mut self, k: &String, v: usize)
        requires
            old(self).wf(),
        ensures
            final(self).wf(),
            final(self)@ == old(self)@.insert(k@, v as int),
            final(self).total() == old(self).total() + v - count_or_zero(old(self)@, k@),
            old(self)@.dom().contains(k@) ==> final(self).keys() == old(self).keys(),
            !old(self)@.dom().contains(k@) ==> final(self).keys() == old(self).keys().push(k@),
    {
        match self.position_of(k) {
            Some(i) => {
                let e = &mut self.entries[i];
                e.1 = v;
                proof {
                    self.lemma_after_update(old(self), i as int, k@);
                    lemma_sum_insert(old(self).keys(), old(self)@, k@, v as int);
                }
            },
            None => {
                self.entries.push((k.clone(), v));
                proof {
                    self.lemma_after_push(old(self), k@);
                    lemma_sum_absent(old(self).keys(), old(self)@, k@, v as int);
                    assert(self.keys().drop_last() == old(self).keys());
                    assert(count_or_zero(self@, k@) == v as int);
                }
            },
        }
    }

    /// Increment `k`'s count, starting it at zero where absent.
    pub fn bump(&mut self, k: &String)
        requires
            old(self).wf(),
            count_or_zero(old(self)@, k@) < usize::MAX,
        ensures
            final(self).wf(),
            final(self)@ == old(self)@.insert(k@, count_or_zero(old(self)@, k@) + 1),
            final(self).total() == old(self).total() + 1,
            old(self)@.dom().contains(k@) ==> final(self).keys() == old(self).keys(),
            !old(self)@.dom().contains(k@) ==> final(self).keys() == old(self).keys().push(k@),
    {
        let c = match self.get(k) {
            Some(c) => c,
            None => 0,
        };
        self.set_count(k, c + 1);
    }

    proof fn lemma_after_push(&self, prev: &DegreeMap, k: Seq<char>)
        requires
            prev.wf(),
            !prev.keys().contains(k),
            self.entries@.len() == prev.entries@.len() + 1,
            forall|j: int| 0 <= j < prev.entries@.len() ==> self.entries@[j] == prev.entries@[j],
            self.entries@.last().0@ == k,
        ensures
            self.wf(),
            self.keys() == prev.keys().push(k),
            self@ == prev@.insert(k, self.entries@.last().1 as int),
    {
        assert(self.keys() =~= prev.keys().push(k));
        assert forall|j: int, l: int|
            0 <= j < self.keys().len() && 0 <= l < self.keys().len() && j != l implies self.keys()[j]
            != self.keys()[l] by {
            if j == self.keys().len() - 1 {
                assert(prev.keys().contains(prev.keys()[l]));
            }
            if l == self.keys().len() - 1 {
                assert(prev.keys().contains(prev.keys()[j]));
            }
        }
        assert(self.wf());
        assert forall|x: Seq<char>| #[trigger] self.keys().contains(x) <==> (x == k
            || prev.keys().contains(x)) by {
            vstd::seq_lib::lemma_seq_contains_after_push(prev.keys(), k, x);
        }
        assert forall|x: Seq<char>| self@.dom().contains(x) implies self@[x] == prev@.insert(
            k,
            self.entries@.last().1 as int,
        )[x] by {
            let j = choose|j: int| 0 <= j < self.keys().len() && self.keys()[j] == x;
            self.lemma_entry_view(j);
            if x == k {
                assert(self.keys()[self.keys().len() - 1] == x);
                assert(j == self.keys().len() - 1);
            } else {
                assert(prev.keys()[j] == x);
                prev.lemma_entry_view(j);
            }
        }
        assert(self@ =~= prev@.insert(k, self.entries@.last().1 as int));
    }

    proof fn lemma_after_update(&self, prev: &DegreeMap, i: int, k: Seq<char>)
        requires
            prev.wf(),
            0 <= i < prev.entries@.len(),
            prev.keys()[i] == k,
            self.entries@.len() == prev.entries@.len(),
            forall|j: int|
                0 <= j < prev.entries@.len() && j != i ==> self.entries@[j] == prev.entries@[j],
            self.entries@[i].0 == prev.entries@[i].0,
        ensures
            self.wf(),
            self.keys() == prev.keys(),
            self@ == prev@.insert(k, self.entries@[i].1 as int),
    {
        assert(self.keys() =~= prev.keys());
        assert(self.wf());
        prev.lemma_entry_view(i);
        assert forall|x: Seq<char>| self@.dom().contains(x) implies self@[x] == prev@.insert(
            k,
            self.entries@[i].1 as int,
        )[x] by {
            let j = choose|j: int| 0 <= j < self.keys().len() && self.keys()[j] == x;
            self.lemma_entry_view(j);
            prev.lemma_entry_view(j);
            if x == k {
                assert(j == i);
            }
        }
        assert(self@.dom() =~= prev@.insert(k, self.entries@[i].1 as int).dom());
        assert(self@ =~= prev@.insert(k, self.entries@[i].1 as int));
    }
}

/// Per-key projection of a summary map onto its purchase counts.
pub open spec fn counts_of(m: Map<Seq<char>, (int, int)>) -> Map<Seq<char>, int> {
    m.map_values(|v: (int, int)| v.0)
}

/// The pair stored for `k`, or zeroes where `k` is absent.
pub open spec fn stats_or_zero(m: Map<Seq<char>, (int, int)>, k: Seq<char>) -> (int, int) {
    if m.dom().contains(k) {
        m[k]
    } else {
        (0, 0)
    }
}

/// A map from user identifiers to (purchase count, total spending).
/// Spending is held in minor currency units.
pub struct UserSummary {
    entries: Vec<(String, usize, u128)>,
}

impl View for UserSummary {
    type V = Map<Seq<char>, (int, int)>;

    closed spec fn view(&self) -> Map<Seq<char>, (int, int)> {
        Map::new(
            |k: Seq<char>| self.keys().contains(k),
            |k: Seq<char>|
                (
                    self.entries@[self.keys().index_of(k)].1 as int,
                    self.entries@[self.keys().index_of(k)].2 as int,
                ),
        )
    }
}

impl UserSummary {
    /// The stored keys, in insertion order.
    pub closed spec fn keys(&self) -> Seq<Seq<char>> {
        self.entries@.map_values(|e: (String, usize, u128)| e.0@)
    }

    /// Each key is stored once.
    pub open spec fn wf(&self) -> bool {
        self.keys().no_duplicates()
    }

    /// Sum of all stored purchase counts.
    pub open spec fn total_count(&self) -> int {
        sum_counts(self.keys(), counts_of(self@))
    }

    /// The domain is exactly the set of stored keys.
    pub proof fn lemma_dom(&self)
        ensures
            self@.dom() == self.keys().to_set(),
    {
        assert(self@.dom() =~= self.keys().to_set());
    }

    proof fn lemma_entry_view(&self, i: int)
        requires
            self.wf(),
            0 <= i < self.keys().len(),
        ensures
            self@.dom().contains(self.keys()[i]),
            self@[self.keys()[i]] == (self.entries@[i].1 as int, self.entries@[i].2 as int),
    {
        let k = self.keys()[i];
        assert(self.keys().contains(k));
        let j = self.keys().index_of(k);
        assert(0 <= j < self.keys().len() && self.keys()[j] == k);
        assert(j == i);
    }

    /// The empty summary.
    pub fn new() -> (r: UserSummary)
        ensures
            r.wf(),
            r@ == Map::<Seq<char>, (int, int)>::empty(),
            r.keys() == Seq::<Seq<char>>::empty(),
            r.total_count() == 0,
    {
        let r = UserSummary { entries: Vec::new() };
        proof {
            assert(r@ =~= Map::<Seq<char>, (int, int)>::empty());
        }
        r
    }

    fn position_of(&self, k: &String) -> (r: Option<usize>)
        ensures
            match r {
                Some(i) => i < self.keys().len() && self.keys()[i as int] == k@,
                None => !self.keys().contains(k@),
            },
    {
        let mut i: usize = 0;
        while i < self.entries.len()
            invariant
                0 <= i <= self.entries.len(),
                forall|j: int| 0 <= j < i ==> self.keys()[j] != k@,
            decreases self.entries.len() - i,
        {
            if self.entries[i].0.eq(k) {
                proof {
                    assert(self.keys()[i as int] == k@);
                }
                return Some(i);
            }
            i = i + 1;
        }
        None
    }

    /// Number of users.
    pub fn len(&self) -> (n: usize)
        ensures
            n == self.keys().len(),
    {
        self.entries.len()
    }

    /// The `i`-th stored user.
    pub fn key_at(&self, i: usize) -> (r: &String)
        requires
            self.wf(),
            i < self.keys().len(),
        ensures
            r@ == self.keys()[i as int],
            self@.dom().contains(r@),
    {
        proof {
            self.lemma_entry_view(i as int);
        }
        &self.entries[i].0
    }

    /// The pair stored with the `i`-th user.
    pub fn stats_at(&self, i: usize) -> (r: (usize, u128))
        requires
            self.wf(),
            i < self.keys().len(),
        ensures
            (r.0 as int, r.1 as int) == self@[self.keys()[i as int]],
    {
        proof {
            self.lemma_entry_view(i as int);
        }
        (self.entries[i].1, self.entries[i].2)
    }

    /// Look a user up.
    pub fn get(&self, k: &String) -> (r: Option<(usize, u128)>)
        requires
            self.wf(),
        ensures
            match r {
                Some(p) => self@.dom().contains(k@) && (p.0 as int, p.1 as int) == self@[k@],
                None => !self@.dom().contains(k@),
            },
    {
        match self.position_of(k) {
            Some(i) => {
                proof {
                    self.lemma_entry_view(i as int);
                }
                Some((self.entries[i].1, self.entries[i].2))
            },
            None => None,
        }
    }

    /// Store a pair under `k`, replacing any earlier one.
    pub fn insert(&mut self, k: &String, count: usize, spending: u128)
        requires
            old(self).wf(),
        ensures
            final(self).wf(),
            final(self)@ == old(self)@.insert(k@, (count as int, spending as int)),
            final(self).total_count() == old(self).total_count() + count - stats_or_zero(
                old(self)@,
                k@,
            ).0,
            old(self)@.dom().contains(k@) ==> final(self).keys() == old(self).keys(),
            !old(self)@.dom().contains(k@) ==> final(self).keys() == old(self).keys().push(k@),
    {
        match self.position_of(k) {
            Some(i) => {
                let e = &mut self.entries[i];
                e.1 = count;
                e.2 = spending;
                proof {
                    self.lemma_after_update(old(self), i as int, k@);
                    assert(counts_of(self@) =~= counts_of(old(self)@).insert(k@, count as int));
                    lemma_sum_insert(old(self).keys(), counts_of(old(self)@), k@, count as int);
                }
            },
            None => {
                self.entries.push((k.clone(), count, spending));
                proof {
                    self.lemma_after_push(old(self), k@);
                    assert(counts_of(self@) =~= counts_of(old(self)@).insert(k@, count as int));
                    lemma_sum_absent(old(self).keys(), counts_of(old(self)@), k@, count as int);
                    assert(self.keys().drop_last() == old(self).keys());
                    assert(count_or_zero(counts_of(self@), k@) == count as int);
                }
            },
        }
    }

    /// Record one purchase of `price` by user `k`: the count rises by
    /// one and the spending by `price`, from zeroes where `k` is new.
    pub fn record(&mut self, k: &String, price: u64)
        requires
            old(self).wf(),
            stats_or_zero(old(self)@, k@).0 < usize::MAX,
            stats_or_zero(old(self)@, k@).1 + price <= u128::MAX,
        ensures
            final(self).wf(),
            final(self)@ == old(self)@.insert(
                k@,
                (stats_or_zero(old(self)@, k@).0 + 1, stats_or_zero(old(self)@, k@).1 + price),
            ),
            final(self).total_count() == old(self).total_count() + 1,
            old(self)@.dom().contains(k@) ==> final(self).keys() == old(self).keys(),
            !old(self)@.dom().contains(k@) ==> final(self).keys() == old(self).keys().push(k@),
    {
        let (c, s) = match self.get(k) {
            Some(p) => p,
            None => (0, 0),
        };
        self.insert(k, c + 1, s + price as u128);
    }

    proof fn lemma_after_push(&self, prev: &UserSummary, k: Seq<char>)
        requires
            prev.wf(),
            !prev.keys().contains(k),
            self.entries@.len() == prev.entries@.len() + 1,
            forall|j: int| 0 <= j < prev.entries@.len() ==> self.entries@[j] == prev.entries@[j],
            self.entries@.last().0@ == k,
        ensures
            self.wf(),
            self.keys() == prev.keys().push(k),
            self@ == prev@.insert(
                k,
                (self.entries@.last().1 as int, self.entries@.last().2 as int),
            ),
    {
        assert(self.keys() =~= prev.keys().push(k));
        assert forall|j: int, l: int|
            0 <= j < self.keys().len() && 0 <= l < self.keys().len() && j != l implies self.keys()[j]
            != self.keys()[l] by {
            if j == self.keys().len() - 1 {
                assert(prev.keys().contains(prev.keys()[l]));
            }
            if l == self.keys().len() - 1 {
                assert(prev.keys().contains(prev.keys()[j]));
            }
        }
        assert(self.wf());
        assert forall|x: Seq<char>| #[trigger] self.keys().contains(x) <==> (x == k
            || prev.keys().contains(x)) by {
            vstd::seq_lib::lemma_seq_contains_after_push(prev.keys(), k, x);
        }
        let v = (self.entries@.last().1 as int, self.entries@.last().2 as int);
        assert forall|x: Seq<char>| self@.dom().contains(x) implies self@[x] == prev@.insert(
            k,
            v,
        )[x] by {
            let j = choose|j: int| 0 <= j < self.keys().len() && self.keys()[j] == x;
            self.lemma_entry_view(j);
            if x == k {
                assert(self.keys()[self.keys().len() - 1] == x);
                assert(j == self.keys().len() - 1);
            } else {
                assert(prev.keys()[j] == x);
                prev.lemma_entry_view(j);
            }
        }
        assert(self@ =~= prev@.insert(k, v));
    }

    proof fn lemma_after_update(&self, prev: &UserSummary, i: int, k: Seq<char>)
        requires
            prev.wf(),
            0 <= i < prev.entries@.len(),
            prev.keys()[i] == k,
            self.entries@.len() == prev.entries@.len(),
            forall|j: int|
                0 <= j < prev.entries@.len() && j != i ==> self.entries@[j] == prev.entries@[j],
            self.entries@[i].0 == prev.entries@[i].0,
        ensures
            self.wf(),
            self.keys() == prev.keys(),
            self@ == prev@.insert(k, (self.entries@[i].1 as int, self.entries@[i].2 as int)),
    {
        assert(self.keys() =~= prev.keys());
        assert(self.wf());
        prev.lemma_entry_view(i);
        let v = (self.entries@[i].1 as int, self.entries@[i].2 as int);
        assert forall|x: Seq<char>| self@.dom().contains(x) implies self@[x] == prev@.insert(
            k,
            v,
        )[x] by {
            let j = choose|j: int| 0 <= j < self.keys().len() && self.keys()[j] == x;
            self.lemma_entry_view(j);
            prev.lemma_entry_view(j);
            if x == k {
                assert(j == i);
            }
        }
        assert(self@.dom() =~= prev@.insert(k, v).dom());
        assert(self@ =~= prev@.insert(k, v));
    }
}

} // verus!
