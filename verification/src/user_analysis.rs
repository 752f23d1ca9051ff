//! Per-user aggregation, super-buyer classification, degree analysis
//! and the power-law exponent fit.

use crate::summaries::{stats_or_zero, DegreeMap, UserSummary};
use crate::transactions::{
    lemma_product_count_range, lemma_user_count_range, lemma_user_spend_range, product_count,
    products_of, user_count, user_spend, users_of, Transaction,
};
use vstd::prelude::*;

verus! {

/// `m` is the per-user summary of `s`: one entry per user occurring in
/// `s`, holding that user's transaction count and total spending.
pub open spec fn is_user_summary_of(s: Seq<Transaction>, m: Map<Seq<char>, (int, int)>) -> bool {
    &&& m.dom() == users_of(s)
    &&& forall|u: Seq<char>|
        #[trigger] m.dom().contains(u) ==> m[u] == (user_count(s, u), user_spend(s, u))
}

/// Fold the transactions into per-user purchase counts and spending.
/// The summed counts equal the number of transactions.
pub fn analyze_users(transactions: &Vec<Transaction>) -> (summary: UserSummary)
    ensures
        summary.wf(),
        is_user_summary_of(transactions@, summary@),
        summary.total_count() == transactions@.len(),
{
    let s = transactions;
    let mut summary = UserSummary::new();
    proof {
        assert(summary@.dom() =~= users_of(s@.take(0)));
    }
    let mut i: usize = 0;
    while i < s.len()
        invariant
            summary.wf(),
            0 <= i <= s@.len(),
            summary@.dom() == users_of(s@.take(i as int)),
            forall|u: Seq<char>|
                #[trigger] summary@.dom().contains(u) ==> summary@[u] == (
                    user_count(s@.take(i as int), u),
                    user_spend(s@.take(i as int), u),
                ),
            summary.total_count() == i,
        decreases s@.len() - i,
    {
        let ghost prefix = s@.take(i as int);
        let ghost next = s@.take(i + 1);
        let t = &s[i];
        proof {
            assert(next.drop_last() =~= prefix);
            assert(next.last() == s@[i as int]);
            lemma_user_count_range(prefix, t.user_id@);
            lemma_user_spend_range(prefix, t.user_id@);
            assert(prefix.len() * (u64::MAX as int) <= (usize::MAX as int) * (
            u64::MAX as int)) by (nonlinear_arith)
                requires
                    0 <= prefix.len() <= usize::MAX as int,
            ;
            if summary@.dom().contains(t.user_id@) {
                assert(stats_or_zero(summary@, t.user_id@) == summary@[t.user_id@]);
            } else {
                assert(user_count(prefix, t.user_id@) == 0);
                assert(user_spend(prefix, t.user_id@) == 0) by {
                    if user_spend(prefix, t.user_id@) != 0 {
                        lemma_spend_positive_occurs(prefix, t.user_id@);
                    }
                }
            }
        }
        summary.record(&t.user_id, t.final_price);
        proof {
            assert(summary@.dom() =~= users_of(next)) by {
                assert forall|u: Seq<char>| #[trigger] users_of(next).contains(u) implies
                    users_of(prefix).contains(u) || u == s@[i as int].user_id@ by {
                    let j = choose|j: int| 0 <= j < next.len() && next[j].user_id@ == u;
                    if j < i {
                        assert(prefix[j].user_id@ == u);
                    }
                }
                assert forall|u: Seq<char>| users_of(prefix).contains(u) implies users_of(
                    next,
                ).contains(u) by {
                    let j = choose|j: int| 0 <= j < prefix.len() && prefix[j].user_id@ == u;
                    assert(next[j].user_id@ == u);
                }
                assert(users_of(next).contains(s@[i as int].user_id@)) by {
                    assert(next[i as int].user_id@ == s@[i as int].user_id@);
                }
            }
            assert forall|u: Seq<char>| #[trigger] summary@.dom().contains(u) implies summary@[u]
                == (user_count(next, u), user_spend(next, u)) by {
                if u != t.user_id@ {
                    assert(user_count(next, u) == user_count(prefix, u));
                    assert(user_spend(next, u) == user_spend(prefix, u));
                }
            }
        }
        i = i + 1;
    }
    proof {
        assert(s@.take(s@.len() as int) =~= s@);
    }
    summary
}

/// `m` maps each user occurring in `s` to that user's degree.
pub open spec fn is_user_degrees_of(s: Seq<Transaction>, m: Map<Seq<char>, int>) -> bool {
    &&& m.dom() == users_of(s)
    &&& forall|u: Seq<char>| #[trigger] m.dom().contains(u) ==> m[u] == user_count(s, u)
}

/// `m` maps each product occurring in `s` to that product's degree.
pub open spec fn is_product_degrees_of(s: Seq<Transaction>, m: Map<Seq<char>, int>) -> bool {
    &&& m.dom() == products_of(s)
    &&& forall|p: Seq<char>| #[trigger] m.dom().contains(p) ==> m[p] == product_count(s, p)
}

/// Count, in one pass, how many transactions touch each user and each
/// product. Both maps' counts sum to the number of transactions.
pub fn degree_distribution(transactions: &Vec<Transaction>) -> (r: (DegreeMap, DegreeMap))
    ensures
        r.0.wf(),
        r.1.wf(),
        is_user_degrees_of(transactions@, r.0@),
        is_product_degrees_of(transactions@, r.1@),
        r.0.total() == transactions@.len(),
        r.1.total() == transactions@.len(),
{
    let s = transactions;
    let mut user_degrees = DegreeMap::new();
    let mut product_degrees = DegreeMap::new();
    proof {
        assert(user_degrees@.dom() =~= users_of(s@.take(0)));
        assert(product_degrees@.dom() =~= products_of(s@.take(0)));
    }
    let mut i: usize = 0;
    while i < s.len()
        invariant
            user_degrees.wf(),
            product_degrees.wf(),
            0 <= i <= s@.len(),
            is_user_degrees_of(s@.take(i as int), user_degrees@),
            is_product_degrees_of(s@.take(i as int), product_degrees@),
            user_degrees.total() == i,
            product_degrees.total() == i,
        decreases s@.len() - i,
    {
        let ghost prefix = s@.take(i as int);
        let ghost next = s@.take(i + 1);
        let t = &s[i];
        proof {
            assert(next.drop_last() =~= prefix);
            assert(next.last() == s@[i as int]);
            lemma_user_count_range(prefix, t.user_id@);
            lemma_product_count_range(prefix, t.product_id@);
        }
        user_degrees.bump(&t.user_id);
        product_degrees.bump(&t.product_id);
        proof {
            assert(user_degrees@.dom() =~= users_of(next)) by {
                assert forall|u: Seq<char>| #[trigger] users_of(next).contains(u) implies
                    users_of(prefix).contains(u) || u == s@[i as int].user_id@ by {
                    let j = choose|j: int| 0 <= j < next.len() && next[j].user_id@ == u;
                    if j < i {
                        assert(prefix[j].user_id@ == u);
                    }
                }
                assert forall|u: Seq<char>| users_of(prefix).contains(u) implies users_of(
                    next,
                ).contains(u) by {
                    let j = choose|j: int| 0 <= j < prefix.len() && prefix[j].user_id@ == u;
                    assert(next[j].user_id@ == u);
                }
                assert(users_of(next).contains(s@[i as int].user_id@)) by {
                    assert(next[i as int].user_id@ == s@[i as int].user_id@);
                }
            }
            assert forall|u: Seq<char>| #[trigger] user_degrees@.dom().contains(u) implies
                user_degrees@[u] == user_count(next, u) by {
                if u != t.user_id@ {
                    assert(user_count(next, u) == user_count(prefix, u));
                }
            }
            assert(product_degrees@.dom() =~= products_of(next)) by {
                assert forall|p: Seq<char>| #[trigger] products_of(next).contains(p) implies
                    products_of(prefix).contains(p) || p == s@[i as int].product_id@ by {
                    let j = choose|j: int| 0 <= j < next.len() && next[j].product_id@ == p;
                    if j < i {
                        assert(prefix[j].product_id@ == p);
                    }
                }
                assert forall|p: Seq<char>| products_of(prefix).contains(p) implies products_of(
                    next,
                ).contains(p) by {
                    let j = choose|j: int| 0 <= j < prefix.len() && prefix[j].product_id@ == p;
                    assert(next[j].product_id@ == p);
                }
                assert(products_of(next).contains(s@[i as int].product_id@)) by {
                    assert(next[i as int].product_id@ == s@[i as int].product_id@);
                }
            }
            assert forall|p: Seq<char>| #[trigger] product_degrees@.dom().contains(p) implies
                product_degrees@[p] == product_count(next, p) by {
                if p != t.product_id@ {
                    assert(product_count(next, p) == product_count(prefix, p));
                }
            }
        }
        i = i + 1;
    }
    proof {
        assert(s@.take(s@.len() as int) =~= s@);
    }
    (user_degrees, product_degrees)
}

/// All degrees in `m` are one value: the maximum-likelihood log-sum is
/// zero and the exponent has no defined value.
pub open spec fn is_uniform(m: Map<Seq<char>, int>) -> bool {
    forall|u: Seq<char>, v: Seq<char>|
        m.dom().contains(u) && m.dom().contains(v) ==> m[u] == m[v]
}

/// Outcome of the power-law fit preparation: either the distribution
/// is degenerate (empty, or every degree equals the minimum, where the
/// estimator's denominator vanishes), or the node count and minimum
/// degree the estimate is computed from.
pub enum PowerLawFit {
    /// No exponent is defined for this degree map.
    Undefined,
    /// `n` nodes with minimum observed degree `k_min`.
    Fitted { n: usize, k_min: usize },
}

/// Prepare the maximum-likelihood power-law fit over a degree map:
/// reject the degenerate distributions explicitly, otherwise return
/// the node count and the global minimum degree.
pub fn fit_power_law(degrees: &DegreeMap) -> (r: PowerLawFit)
    requires
        degrees.wf(),
    ensures
        r == PowerLawFit::Undefined <==> is_uniform(degrees@),
        match r {
            PowerLawFit::Undefined => true,
            PowerLawFit::Fitted { n, k_min } => {
                &&& n == degrees@.dom().len()
                &&& n == degrees.keys().len()
                &&& exists|u: Seq<char>| #[trigger] degrees@.dom().contains(u) && degrees@[u] == k_min
                &&& forall|u: Seq<char>| #[trigger] degrees@.dom().contains(u) ==> degrees@[u] >= k_min
            },
        },
{
    let n = degrees.len();
    if n == 0 {
        proof {
            degrees.lemma_dom();
            assert(is_uniform(degrees@)) by {
                assert forall|u: Seq<char>, v: Seq<char>|
                    degrees@.dom().contains(u) && degrees@.dom().contains(v) implies degrees@[u]
                    == degrees@[v] by {
                    assert(degrees.keys().to_set().contains(u));
                }
            }
        }
        return PowerLawFit::Undefined;
    }
    let first = degrees.count_at(0);
    let mut min_val = first;
    let mut all_equal = true;
    let mut i: usize = 1;
    while i < n
        invariant
            degrees.wf(),
            n == degrees.keys().len(),
            1 <= i <= n,
            first as int == degrees@[degrees.keys()[0]],
            exists|j: int|
                0 <= j < i && degrees@[#[trigger] degrees.keys()[j]] == min_val as int,
            forall|j: int| 0 <= j < i ==> degrees@[#[trigger] degrees.keys()[j]] >= min_val as int,
            all_equal <==> forall|j: int|
                0 <= j < i ==> degrees@[#[trigger] degrees.keys()[j]] == first as int,
        decreases n - i,
    {
        let c = degrees.count_at(i);
        if c < min_val {
            min_val = c;
        }
        if c != first {
            all_equal = false;
        }
        i = i + 1;
    }
    proof {
        degrees.lemma_dom();
        assert forall|u: Seq<char>| #[trigger] degrees@.dom().contains(u) implies degrees@[u]
            >= min_val as int by {
            assert(degrees.keys().to_set().contains(u));
            let j = choose|j: int| 0 <= j < degrees.keys().len() && degrees.keys()[j] == u;
            assert(degrees@[degrees.keys()[j]] >= min_val as int);
        }
        let jm = choose|j: int|
            0 <= j < n && degrees@[#[trigger] degrees.keys()[j]] == min_val as int;
        assert(degrees.keys().contains(degrees.keys()[jm]));
        assert(degrees@.dom().contains(degrees.keys()[jm]));
        if all_equal {
            assert forall|u: Seq<char>, v: Seq<char>|
                degrees@.dom().contains(u) && degrees@.dom().contains(v) implies degrees@[u]
                == degrees@[v] by {
                assert(degrees.keys().to_set().contains(u));
                assert(degrees.keys().to_set().contains(v));
                let ju = choose|j: int| 0 <= j < degrees.keys().len() && degrees.keys()[j] == u;
                let jv = choose|j: int| 0 <= j < degrees.keys().len() && degrees.keys()[j] == v;
                assert(degrees@[degrees.keys()[ju]] == first as int);
                assert(degrees@[degrees.keys()[jv]] == first as int);
            }
        } else {
            let jd = choose|j: int|
                0 <= j < n && degrees@[#[trigger] degrees.keys()[j]] != first as int;
            assert(degrees@.dom().contains(degrees.keys()[jd]));
            assert(degrees@.dom().contains(degrees.keys()[0]));
            assert(!is_uniform(degrees@));
            degrees.keys().unique_seq_to_set();
        }
    }
    if all_equal {
        PowerLawFit::Undefined
    } else {
        PowerLawFit::Fitted { n, k_min: min_val }
    }
}

/// Aggregation is order-independent: the user summary of a sequence
/// is also the user summary of each of its permutations.
pub proof fn lemma_user_summary_order_independent(
    s1: Seq<Transaction>,
    s2: Seq<Transaction>,
    m: Map<Seq<char>, (int, int)>,
)
    requires
        s1.to_multiset() == s2.to_multiset(),
        is_user_summary_of(s1, m),
    ensures
        is_user_summary_of(s2, m),
{
    crate::transactions::lemma_users_of_permutation(s1, s2);
    assert forall|u: Seq<char>| #[trigger] m.dom().contains(u) implies m[u] == (
        user_count(s2, u),
        user_spend(s2, u),
    ) by {
        crate::transactions::lemma_user_count_permutation(s1, s2, u);
        crate::transactions::lemma_user_spend_permutation(s1, s2, u);
    }
}

/// Permuting the transactions yields an identical user summary: the
/// summaries of a sequence and of any permutation of it are equal.
pub proof fn lemma_permuted_inputs_same_summary(
    s1: Seq<Transaction>,
    s2: Seq<Transaction>,
    m1: Map<Seq<char>, (int, int)>,
    m2: Map<Seq<char>, (int, int)>,
)
    requires
        s1.to_multiset() == s2.to_multiset(),
        is_user_summary_of(s1, m1),
        is_user_summary_of(s2, m2),
    ensures
        m1 == m2,
{
    lemma_user_summary_order_independent(s1, s2, m1);
    lemma_user_summary_unique(s2, m1, m2);
}

/// One sequence has one user summary: any two maps meeting
/// `is_user_summary_of` for the same transactions are equal, so
/// rerunning the aggregation reproduces its result.
pub proof fn lemma_user_summary_unique(
    s: Seq<Transaction>,
    m1: Map<Seq<char>, (int, int)>,
    m2: Map<Seq<char>, (int, int)>,
)
    requires
        is_user_summary_of(s, m1),
        is_user_summary_of(s, m2),
    ensures
        m1 == m2,
{
    assert(m1 =~= m2);
}

/// One sequence has one pair of degree maps: any two maps meeting the
/// same degree predicate for the same transactions are equal, so
/// rerunning the analysis reproduces its result.
pub proof fn lemma_degree_maps_unique(
    s: Seq<Transaction>,
    u1: Map<Seq<char>, int>,
    u2: Map<Seq<char>, int>,
    p1: Map<Seq<char>, int>,
    p2: Map<Seq<char>, int>,
)
    requires
        is_user_degrees_of(s, u1),
        is_user_degrees_of(s, u2),
        is_product_degrees_of(s, p1),
        is_product_degrees_of(s, p2),
    ensures
        u1 == u2,
        p1 == p2,
{
    assert(u1 =~= u2);
    assert(p1 =~= p2);
}

proof fn lemma_spend_positive_occurs(s: Seq<Transaction>, u: Seq<char>)
    requires
        user_spend(s, u) != 0,
    ensures
        exists|i: int| 0 <= i < s.len() && s[i].user_id@ == u,
    decreases s.len(),
{
    if s.len() > 0 {
        if s.last().user_id@ == u {
            assert(s[s.len() - 1].user_id@ == u);
        } else {
            lemma_spend_positive_occurs(s.drop_last(), u);
            let i = choose|i: int|
                0 <= i < s.drop_last().len() && s.drop_last()[i].user_id@ == u;
            assert(s[i].user_id@ == u);
        }
    }
}

/// `u` meets at least one of the two inclusive thresholds.
pub open spec fn is_super_buyer(
    m: Map<Seq<char>, (int, int)>,
    purchase_threshold: int,
    spending_threshold: int,
    u: Seq<char>,
) -> bool {
    m.dom().contains(u) && (m[u].0 >= purchase_threshold || m[u].1 >= spending_threshold)
}

/// The identifier contents of a vector of strings.
pub open spec fn ids_of(s: Seq<String>) -> Seq<Seq<char>> {
    s.map_values(|x: String| x@)
}

/// The users whose purchase count reaches `purchase_threshold` or
/// whose spending reaches `spending_threshold`, each listed once;
/// a user meeting neither is left out.
pub fn identify_super_buyers(
    user_summary: &UserSummary,
    purchase_threshold: usize,
    spending_threshold: u64,
) -> (r: Vec<String>)
    requires
        user_summary.wf(),
    ensures
        ids_of(r@).no_duplicates(),
        forall|u: Seq<char>|
            #[trigger] ids_of(r@).contains(u) <==> is_super_buyer(
                user_summary@,
                purchase_threshold as int,
                spending_threshold as int,
                u,
            ),
{
    let m = user_summary;
    let mut r: Vec<String> = Vec::new();
    let n = m.len();
    let mut i: usize = 0;
    while i < n
        invariant
            user_summary.wf(),
            m == user_summary,
            n == m.keys().len(),
            0 <= i <= n,
            ids_of(r@).no_duplicates(),
            forall|u: Seq<char>|
                #[trigger] ids_of(r@).contains(u) <==> exists|j: int|
                    0 <= j < i && m.keys()[j] == u && is_super_buyer(
                        m@,
                        purchase_threshold as int,
                        spending_threshold as int,
                        u,
                    ),
        decreases n - i,
    {
        let (count, spending) = m.stats_at(i);
        if count >= purchase_threshold || spending >= spending_threshold as u128 {
            let key = m.key_at(i);
            proof {
                if ids_of(r@).contains(key@) {
                    let j = choose|j: int|
                        0 <= j < i && m.keys()[j] == key@ && is_super_buyer(
                            m@,
                            purchase_threshold as int,
                            spending_threshold as int,
                            key@,
                        );
                    assert(m.keys()[j] == m.keys()[i as int]);
                    assert(false);
                }
            }
            let ghost prev = r@;
            r.push(key.clone());
            proof {
                assert(ids_of(r@) =~= ids_of(prev).push(key@));
                assert forall|u: Seq<char>| #[trigger] ids_of(r@).contains(u) <==> (u == key@
                    || ids_of(prev).contains(u)) by {
                    vstd::seq_lib::lemma_seq_contains_after_push(ids_of(prev), key@, u);
                }
                assert forall|j: int, l: int|
                    0 <= j < ids_of(r@).len() && 0 <= l < ids_of(r@).len() && j != l implies ids_of(
                    r@,
                )[j] != ids_of(r@)[l] by {
                    if j == ids_of(r@).len() - 1 {
                        assert(ids_of(prev).contains(ids_of(prev)[l]));
                    }
                    if l == ids_of(r@).len() - 1 {
                        assert(ids_of(prev).contains(ids_of(prev)[j]));
                    }
                }
                assert forall|u: Seq<char>| #[trigger] ids_of(r@).contains(u) implies exists|j: int|
                    0 <= j <= i && m.keys()[j] == u && is_super_buyer(
                        m@,
                        purchase_threshold as int,
                        spending_threshold as int,
                        u,
                    ) by {
                    if u == key@ {
                        assert(m.keys()[i as int] == u && is_super_buyer(
                            m@,
                            purchase_threshold as int,
                            spending_threshold as int,
                            u,
                        ));
                    }
                }
            }
        } else {
            proof {
                assert forall|u: Seq<char>| #[trigger] ids_of(r@).contains(u) <==> exists|j: int|
                    0 <= j <= i && m.keys()[j] == u && is_super_buyer(
                        m@,
                        purchase_threshold as int,
                        spending_threshold as int,
                        u,
                    ) by {
                    if !ids_of(r@).contains(u) {
                        if exists|j: int|
                            0 <= j <= i && m.keys()[j] == u && is_super_buyer(
                                m@,
                                purchase_threshold as int,
                                spending_threshold as int,
                                u,
                            ) {
                            let j = choose|j: int|
                                0 <= j <= i && m.keys()[j] == u && is_super_buyer(
                                    m@,
                                    purchase_threshold as int,
                                    spending_threshold as int,
                                    u,
                                );
                            assert(j != i);
                        }
                    }
                }
            }
        }
        i = i + 1;
    }
    proof {
        m.lemma_dom();
        assert forall|u: Seq<char>|
            is_super_buyer(m@, purchase_threshold as int, spending_threshold as int, u) implies #[trigger] ids_of(
            r@,
        ).contains(u) by {
            assert(m.keys().to_set().contains(u));
            let j = choose|j: int| 0 <= j < m.keys().len() && m.keys()[j] == u;
            assert(0 <= j < n && m.keys()[j] == u && is_super_buyer(
                m@,
                purchase_threshold as int,
                spending_threshold as int,
                u,
            ));
        }
    }
    r
}

} // verus!
