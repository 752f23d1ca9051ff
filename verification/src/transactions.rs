//! The transaction record and the spec-level measures taken over a
//! transaction sequence: per-identifier counts, per-user spending, and
//! the sets of identifiers that occur.

use vstd::prelude::*;

verus! {

/// One validated purchase record. Identifiers are plain strings;
/// `final_price` is a positive amount in minor currency units.
pub struct Transaction {
    pub user_id: String,
    pub product_id: String,
    pub category: String,
    pub final_price: u64,
}

/// Number of transactions in `s` made by user `u`.
pub open spec fn user_count(s: Seq<Transaction>, u: Seq<char>) -> int
    decreases s.len(),
{
    if s.len() == 0 {
        0
    } else {
        user_count(s.drop_last(), u) + if s.last().user_id@ == u {
            1int
        } else {
            0int
        }
    }
}

/// Number of transactions in `s` touching product `p`.
pub open spec fn product_count(s: Seq<Transaction>, p: Seq<char>) -> int
    decreases s.len(),
{
    if s.len() == 0 {
        0
    } else {
        product_count(s.drop_last(), p) + if s.last().product_id@ == p {
            1int
        } else {
            0int
        }
    }
}

/// Total spending of user `u` over `s`.
pub open spec fn user_spend(s: Seq<Transaction>, u: Seq<char>) -> int
    decreases s.len(),
{
    if s.len() == 0 {
        0
    } else {
        user_spend(s.drop_last(), u) + if s.last().user_id@ == u {
            s.last().final_price as int
        } else {
            0int
        }
    }
}

/// The set of user identifiers occurring in `s`.
pub open spec fn users_of(s: Seq<Transaction>) -> Set<Seq<char>> {
    Set::new(|u: Seq<char>| exists|i: int| 0 <= i < s.len() && s[i].user_id@ == u)
}

/// The set of product identifiers occurring in `s`.
pub open spec fn products_of(s: Seq<Transaction>) -> Set<Seq<char>> {
    Set::new(|p: Seq<char>| exists|i: int| 0 <= i < s.len() && s[i].product_id@ == p)
}

/// The set of all node identifiers (users and products) occurring in `s`.
pub open spec fn nodes_of(s: Seq<Transaction>) -> Set<Seq<char>> {
    users_of(s).union(products_of(s))
}

proof fn lemma_user_count_bounds(s: Seq<Transaction>, u: Seq<char>)
    ensures
        0 <= user_count(s, u) <= s.len(),
        (exists|i: int| 0 <= i < s.len() && s[i].user_id@ == u) ==> user_count(s, u) >= 1,
    decreases s.len(),
{
    if s.len() > 0 {
        lemma_user_count_bounds(s.drop_last(), u);
        if exists|i: int| 0 <= i < s.len() && s[i].user_id@ == u {
            let i = choose|i: int| 0 <= i < s.len() && s[i].user_id@ == u;
            if i < s.len() - 1 {
                assert(s.drop_last()[i].user_id@ == u);
            }
        }
    }
}

/// A user's purchase count never exceeds the number of transactions,
/// and is positive exactly when the user occurs.
pub proof fn lemma_user_count_range(s: Seq<Transaction>, u: Seq<char>)
    ensures
        0 <= user_count(s, u) <= s.len(),
        users_of(s).contains(u) <==> user_count(s, u) >= 1,
    decreases s.len(),
{
    lemma_user_count_bounds(s, u);
    if user_count(s, u) >= 1 {
        lemma_count_positive_occurs(s, u);
    }
}

proof fn lemma_product_count_bounds(s: Seq<Transaction>, p: Seq<char>)
    ensures
        0 <= product_count(s, p) <= s.len(),
        (exists|i: int| 0 <= i < s.len() && s[i].product_id@ == p) ==> product_count(s, p) >= 1,
    decreases s.len(),
{
    if s.len() > 0 {
        lemma_product_count_bounds(s.drop_last(), p);
        if exists|i: int| 0 <= i < s.len() && s[i].product_id@ == p {
            let i = choose|i: int| 0 <= i < s.len() && s[i].product_id@ == p;
            if i < s.len() - 1 {
                assert(s.drop_last()[i].product_id@ == p);
            }
        }
    }
}

/// A product's degree never exceeds the number of transactions, and is
/// positive exactly when the product occurs.
pub proof fn lemma_product_count_range(s: Seq<Transaction>, p: Seq<char>)
    ensures
        0 <= product_count(s, p) <= s.len(),
        products_of(s).contains(p) <==> product_count(s, p) >= 1,
    decreases s.len(),
{
    lemma_product_count_bounds(s, p);
    if product_count(s, p) >= 1 {
        lemma_product_positive_occurs(s, p);
    }
}

proof fn lemma_product_positive_occurs(s: Seq<Transaction>, p: Seq<char>)
    requires
        product_count(s, p) >= 1,
    ensures
        exists|i: int| 0 <= i < s.len() && s[i].product_id@ == p,
    decreases s.len(),
{
    if s.last().product_id@ == p {
        assert(s[s.len() - 1].product_id@ == p);
    } else {
        lemma_product_positive_occurs(s.drop_last(), p);
        let i = choose|i: int|
            0 <= i < s.drop_last().len() && s.drop_last()[i].product_id@ == p;
        assert(s[i].product_id@ == p);
    }
}

/// A user's spending is bounded by the number of transactions times
/// the largest single price.
pub proof fn lemma_user_spend_range(s: Seq<Transaction>, u: Seq<char>)
    ensures
        0 <= user_spend(s, u) <= s.len() * (u64::MAX as int),
    decreases s.len(),
{
    if s.len() > 0 {
        lemma_user_spend_range(s.drop_last(), u);
        assert((s.len() - 1) * (u64::MAX as int) + (u64::MAX as int) == s.len() * (
        u64::MAX as int)) by (nonlinear_arith);
    }
}

spec fn count_step(u: Seq<char>) -> spec_fn(Transaction, int) -> int {
    |t: Transaction, acc: int|
        acc + if t.user_id@ == u {
            1int
        } else {
            0int
        }
}

spec fn spend_step(u: Seq<char>) -> spec_fn(Transaction, int) -> int {
    |t: Transaction, acc: int|
        acc + if t.user_id@ == u {
            t.final_price as int
        } else {
            0int
        }
}

proof fn lemma_user_count_as_fold(s: Seq<Transaction>, u: Seq<char>, b: int)
    ensures
        s.fold_right(count_step(u), b) == user_count(s, u) + b,
    decreases s.len(),
{
    if s.len() > 0 {
        lemma_user_count_as_fold(s.drop_last(), u, count_step(u)(s.last(), b));
    }
}

proof fn lemma_user_spend_as_fold(s: Seq<Transaction>, u: Seq<char>, b: int)
    ensures
        s.fold_right(spend_step(u), b) == user_spend(s, u) + b,
    decreases s.len(),
{
    if s.len() > 0 {
        lemma_user_spend_as_fold(s.drop_last(), u, spend_step(u)(s.last(), b));
    }
}

/// A permutation of the transactions leaves a user's purchase count
/// unchanged.
pub proof fn lemma_user_count_permutation(s1: Seq<Transaction>, s2: Seq<Transaction>, u: Seq<char>)
    requires
        s1.to_multiset() == s2.to_multiset(),
    ensures
        user_count(s1, u) == user_count(s2, u),
{
    assert(vstd::seq_lib::commutative_foldr(count_step(u)));
    vstd::seq_lib::lemma_fold_right_permutation(s1, s2, count_step(u), 0);
    lemma_user_count_as_fold(s1, u, 0);
    lemma_user_count_as_fold(s2, u, 0);
}

/// A permutation of the transactions leaves a user's spending
/// unchanged.
pub proof fn lemma_user_spend_permutation(s1: Seq<Transaction>, s2: Seq<Transaction>, u: Seq<char>)
    requires
        s1.to_multiset() == s2.to_multiset(),
    ensures
        user_spend(s1, u) == user_spend(s2, u),
{
    assert(vstd::seq_lib::commutative_foldr(spend_step(u)));
    vstd::seq_lib::lemma_fold_right_permutation(s1, s2, spend_step(u), 0);
    lemma_user_spend_as_fold(s1, u, 0);
    lemma_user_spend_as_fold(s2, u, 0);
}

/// A permutation of the transactions has the same users.
pub proof fn lemma_users_of_permutation(s1: Seq<Transaction>, s2: Seq<Transaction>)
    requires
        s1.to_multiset() == s2.to_multiset(),
    ensures
        users_of(s1) == users_of(s2),
{
    broadcast use vstd::seq_lib::group_to_multiset_ensures;

    assert forall|u: Seq<char>| #[trigger] users_of(s1).contains(u) implies users_of(s2).contains(
        u,
    ) by {
        let i = choose|i: int| 0 <= i < s1.len() && s1[i].user_id@ == u;
        let t = s1[i];
        assert(s1.contains(t));
        assert(s1.to_multiset().count(t) > 0);
        assert(s2.to_multiset().count(t) > 0);
        assert(s2.contains(t));
        let j = choose|j: int| 0 <= j < s2.len() && s2[j] == t;
        assert(s2[j].user_id@ == u);
    }
    assert forall|u: Seq<char>| #[trigger] users_of(s2).contains(u) implies users_of(s1).contains(
        u,
    ) by {
        let i = choose|i: int| 0 <= i < s2.len() && s2[i].user_id@ == u;
        let t = s2[i];
        assert(s2.contains(t));
        assert(s2.to_multiset().count(t) > 0);
        assert(s1.to_multiset().count(t) > 0);
        assert(s1.contains(t));
        let j = choose|j: int| 0 <= j < s1.len() && s1[j] == t;
        assert(s1[j].user_id@ == u);
    }
    assert(users_of(s1) =~= users_of(s2));
}

proof fn lemma_count_positive_occurs(s: Seq<Transaction>, u: Seq<char>)
    requires
        user_count(s, u) >= 1,
    ensures
        exists|i: int| 0 <= i < s.len() && s[i].user_id@ == u,
    decreases s.len(),
{
    if s.last().user_id@ == u {
        assert(s[s.len() - 1].user_id@ == u);
    } else {
        lemma_count_positive_occurs(s.drop_last(), u);
        let i = choose|i: int| 0 <= i < s.drop_last().len() && s.drop_last()[i].user_id@ == u;
        assert(s[i].user_id@ == u);
    }
}

} // verus!
