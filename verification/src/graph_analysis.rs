//! The bipartite user/product graph, distance-2 neighborhoods, and
//! the category and product connection graphs.

use crate::adjacency::AdjacencyMap;
use crate::transactions::{nodes_of, products_of, users_of, Transaction};
use vstd::prelude::*;

verus! {

/// Some transaction in `s` pairs `a` and `b` (in either role).
pub open spec fn linked(s: Seq<Transaction>, a: Seq<char>, b: Seq<char>) -> bool {
    exists|i: int|
        0 <= i < s.len() && ((s[i].user_id@ == a && s[i].product_id@ == b) || (s[i].user_id@ == b
            && s[i].product_id@ == a))
}

/// `g` is the bipartite graph of `s`: its nodes are the identifiers
/// occurring in `s`, and two nodes are adjacent exactly when some
/// transaction pairs them.
pub open spec fn is_bipartite_graph_of(s: Seq<Transaction>, g: Map<Seq<char>, Set<Seq<char>>>) -> bool {
    &&& g.dom() == nodes_of(s)
    &&& forall|a: Seq<char>, b: Seq<char>|
        g.dom().contains(a) ==> (#[trigger] g[a].contains(b) <==> linked(s, a, b))
}

/// Build the undirected user/product adjacency structure: each
/// transaction links its user and its product both ways, and repeated
/// pairs collapse to one edge. The graph is symmetric.
pub fn build_bipartite_graph(transactions: &Vec<Transaction>) -> (g: AdjacencyMap)
    ensures
        g.wf(),
        is_bipartite_graph_of(transactions@, g@),
        forall|a: Seq<char>, b: Seq<char>|
            g@.dom().contains(a) && #[trigger] g@[a].contains(b) ==> g@.dom().contains(b)
                && #[trigger] g@[b].contains(a),
{
    let s = transactions;
    let mut graph = AdjacencyMap::new();
    proof {
        assert(graph@.dom() =~= nodes_of(s@.take(0)));
    }
    let mut i: usize = 0;
    while i < s.len()
        invariant
            graph.wf(),
            0 <= i <= s@.len(),
            is_bipartite_graph_of(s@.take(i as int), graph@),
        decreases s@.len() - i,
    {
        let ghost prefix = s@.take(i as int);
        let ghost next = s@.take(i + 1);
        let t = &s[i];
        let ghost g0 = graph@;
        graph.insert_edge(&t.user_id, &t.product_id);
        let ghost g1 = graph@;
        graph.insert_edge(&t.product_id, &t.user_id);
        proof {
            let u = t.user_id@;
            let p = t.product_id@;
            assert forall|a: Seq<char>, b: Seq<char>| #[trigger] linked(next, a, b) implies (linked(
                prefix,
                a,
                b,
            ) || (u == a && p == b) || (u == b && p == a)) by {
                let j = choose|j: int|
                    0 <= j < next.len() && ((next[j].user_id@ == a && next[j].product_id@ == b) || (
                    next[j].user_id@ == b && next[j].product_id@ == a));
                if j < i {
                    assert(prefix[j] == next[j]);
                    assert(linked(prefix, a, b));
                }
            }
            assert forall|a: Seq<char>, b: Seq<char>| #[trigger] linked(prefix, a, b) implies linked(
                next,
                a,
                b,
            ) by {
                let j = choose|j: int|
                    0 <= j < prefix.len() && ((prefix[j].user_id@ == a && prefix[j].product_id@
                        == b) || (prefix[j].user_id@ == b && prefix[j].product_id@ == a));
                assert(next[j] == prefix[j]);
            }
            assert(next[i as int] == s@[i as int]);
            assert(linked(next, u, p) && linked(next, p, u));
            assert(graph@.dom() =~= nodes_of(next)) by {
                assert forall|x: Seq<char>| #[trigger] nodes_of(next).contains(x) implies nodes_of(
                    prefix,
                ).contains(x) || x == u || x == p by {
                    if users_of(next).contains(x) {
                        let j = choose|j: int| 0 <= j < next.len() && next[j].user_id@ == x;
                        if j < i {
                            assert(prefix[j].user_id@ == x);
                            assert(users_of(prefix).contains(x));
                        }
                    } else {
                        let j = choose|j: int| 0 <= j < next.len() && next[j].product_id@ == x;
                        if j < i {
                            assert(prefix[j].product_id@ == x);
                            assert(products_of(prefix).contains(x));
                        }
                    }
                }
                assert forall|x: Seq<char>| nodes_of(prefix).contains(x) implies nodes_of(
                    next,
                ).contains(x) by {
                    if users_of(prefix).contains(x) {
                        let j = choose|j: int| 0 <= j < prefix.len() && prefix[j].user_id@ == x;
                        assert(next[j].user_id@ == x);
                        assert(users_of(next).contains(x));
                    } else {
                        let j = choose|j: int|
                            0 <= j < prefix.len() && prefix[j].product_id@ == x;
                        assert(next[j].product_id@ == x);
                        assert(products_of(next).contains(x));
                    }
                }
                assert(next[i as int].user_id@ == u && next[i as int].product_id@ == p);
                assert(users_of(next).contains(u));
                assert(products_of(next).contains(p));
            }
            assert forall|a: Seq<char>, b: Seq<char>| graph@.dom().contains(a) implies (
            #[trigger] graph@[a].contains(b) <==> linked(next, a, b)) by {
                if a == p {
                    if a == u {
                        assert(graph@[a] == (if g0.dom().contains(u) {
                            g0[u]
                        } else {
                            Set::empty()
                        }).insert(p).insert(u));
                    } else {
                        assert(graph@[a] == (if g0.dom().contains(p) {
                            g0[p]
                        } else {
                            Set::empty()
                        }).insert(u));
                    }
                } else if a == u {
                    assert(graph@[a] == (if g0.dom().contains(u) {
                        g0[u]
                    } else {
                        Set::empty()
                    }).insert(p));
                } else {
                    assert(graph@[a] == g0[a]);
                    assert(g0.dom().contains(a));
                }
            }
        }
        i = i + 1;
    }
    proof {
        assert(s@.take(s@.len() as int) =~= s@);
        assert forall|a: Seq<char>, b: Seq<char>|
            graph@.dom().contains(a) && #[trigger] graph@[a].contains(b) implies graph@.dom().contains(
            b,
        ) && #[trigger] graph@[b].contains(a) by {
            assert(linked(s@, a, b));
            let j = choose|j: int|
                0 <= j < s@.len() && ((s@[j].user_id@ == a && s@[j].product_id@ == b) || (
                s@[j].user_id@ == b && s@[j].product_id@ == a));
            assert(users_of(s@).contains(b) || products_of(s@).contains(b));
            assert(linked(s@, b, a));
        }
    }
    graph
}

proof fn lemma_adjacency_unique(m1: Map<Seq<char>, Set<Seq<char>>>, m2: Map<Seq<char>, Set<Seq<char>>>)
    requires
        m1.dom() == m2.dom(),
        forall|a: Seq<char>, b: Seq<char>|
            m1.dom().contains(a) ==> (#[trigger] m1[a].contains(b) <==> #[trigger] m2[a].contains(
                b,
            )),
    ensures
        m1 == m2,
{
    assert forall|a: Seq<char>| m1.dom().contains(a) implies m1[a] == m2[a] by {
        assert(m1[a] =~= m2[a]);
    }
    assert(m1 =~~= m2);
}

/// One sequence has one bipartite graph: any two maps meeting
/// `is_bipartite_graph_of` for the same transactions are equal, so
/// rebuilding the graph reproduces its result.
pub proof fn lemma_bipartite_graph_unique(
    s: Seq<Transaction>,
    g1: Map<Seq<char>, Set<Seq<char>>>,
    g2: Map<Seq<char>, Set<Seq<char>>>,
)
    requires
        is_bipartite_graph_of(s, g1),
        is_bipartite_graph_of(s, g2),
    ensures
        g1 == g2,
{
    lemma_adjacency_unique(g1, g2);
}

/// `x` lies at distance two from `v` in `g`: it is not `v` itself and
/// some neighbor `w` of `v` has `x` among its own neighbors.
pub open spec fn distance_two_in(g: Map<Seq<char>, Set<Seq<char>>>, v: Seq<char>, x: Seq<char>) -> bool {
    x != v && exists|w: Seq<char>|
        #[trigger] g[v].contains(w) && g.dom().contains(w) && g[w].contains(x)
}

/// `d` maps every node of `g` to its distance-2 neighbor set.
pub open spec fn is_distance_two_of(
    g: Map<Seq<char>, Set<Seq<char>>>,
    d: Map<Seq<char>, Set<Seq<char>>>,
) -> bool {
    &&& d.dom() == g.dom()
    &&& forall|v: Seq<char>, x: Seq<char>|
        d.dom().contains(v) ==> (#[trigger] d[v].contains(x) <==> distance_two_in(g, v, x))
}

/// The nodes at distance two from `v` found through `v`'s first `j`
/// neighbors `ws`.
spec fn d2_upto(
    g: Map<Seq<char>, Set<Seq<char>>>,
    v: Seq<char>,
    x: Seq<char>,
    ws: Seq<Seq<char>>,
    j: int,
) -> bool {
    x != v && exists|jj: int|
        0 <= jj < j && g.dom().contains(#[trigger] ws[jj]) && g[ws[jj]].contains(x)
}

/// For every node, collect the nodes reachable through exactly one
/// intermediate neighbor, excluding the node itself.
pub fn derive_distance_2(graph: &AdjacencyMap) -> (d: AdjacencyMap)
    requires
        graph.wf(),
    ensures
        d.wf(),
        is_distance_two_of(graph@, d@),
        forall|v: Seq<char>| #[trigger] d@.dom().contains(v) ==> !d@[v].contains(v),
{
    let g = graph;
    let mut d = AdjacencyMap::new();
    let n = g.len();
    proof {
        g.lemma_keys_distinct();
        assert(d.keys() =~= g.keys().take(0));
    }
    let mut i: usize = 0;
    while i < n
        invariant
            g.wf(),
            g == graph,
            g.keys().no_duplicates(),
            d.wf(),
            n == g.keys().len(),
            0 <= i <= n,
            d.keys() == g.keys().take(i as int),
            forall|l: int, x: Seq<char>|
                0 <= l < i ==> (#[trigger] d@[g.keys()[l]].contains(x) <==> distance_two_in(
                    g@,
                    g.keys()[l],
                    x,
                )),
        decreases n - i,
    {
        let v = g.key_at(i);
        let nbrs = g.neighbors_at(i);
        proof {
            d.lemma_dom();
            if d@.dom().contains(v@) {
                assert(d.keys().contains(v@));
                let l = choose|l: int| 0 <= l < d.keys().len() && d.keys()[l] == v@;
                assert(d.keys()[l] == g.keys().take(i as int)[l]);
                assert(g.keys()[l] == g.keys()[i as int]);
                assert(false);
            }
        }
        let ghost d_prev = d@;
        d.ensure_node(v);
        proof {
            assert(d.keys() =~= g.keys().take(i + 1));
            assert forall|x: Seq<char>| !(#[trigger] d@[v@].contains(x)) by {
                assert(d@[v@] == Set::<Seq<char>>::empty());
            }
            assert forall|l: int| 0 <= l < i implies d@[g.keys()[l]] == d_prev[g.keys()[l]] by {
                assert(g.keys()[l] != v@);
            }
        }
        let m = nbrs.len();
        let mut j: usize = 0;
        while j < m
            invariant
                g.wf(),
                g == graph,
                g.keys().no_duplicates(),
                d.wf(),
                n == g.keys().len(),
                0 <= i < n,
                v@ == g.keys()[i as int],
                nbrs.wf(),
                nbrs@ == g@[v@],
                m == nbrs.ids().len(),
                0 <= j <= m,
                d.keys() == g.keys().take(i + 1),
                d@.dom().contains(v@),
                forall|l: int, x: Seq<char>|
                    0 <= l < i ==> (#[trigger] d@[g.keys()[l]].contains(x) <==> distance_two_in(
                        g@,
                        g.keys()[l],
                        x,
                    )),
                forall|x: Seq<char>|
                    #[trigger] d@[v@].contains(x) <==> d2_upto(g@, v@, x, nbrs.ids(), j as int),
            decreases m - j,
        {
            let w = nbrs.item_at(j);
            match g.get(w) {
                None => {
                    proof {
                        assert forall|x: Seq<char>| #[trigger] d@[v@].contains(x) <==> d2_upto(
                            g@,
                            v@,
                            x,
                            nbrs.ids(),
                            j + 1,
                        ) by {
                            if d2_upto(g@, v@, x, nbrs.ids(), j + 1) {
                                let jj = choose|jj: int|
                                    0 <= jj < j + 1 && g@.dom().contains(nbrs.ids()[jj])
                                        && g@[nbrs.ids()[jj]].contains(x);
                                assert(jj != j);
                                assert(d2_upto(g@, v@, x, nbrs.ids(), j as int));
                            }
                        }
                    }
                },
                Some(second) => {
                    let p = second.len();
                    let mut k: usize = 0;
                    while k < p
                        invariant
                            g.wf(),
                            g == graph,
                            g.keys().no_duplicates(),
                            d.wf(),
                            n == g.keys().len(),
                            0 <= i < n,
                            v@ == g.keys()[i as int],
                            nbrs.wf(),
                            nbrs@ == g@[v@],
                            m == nbrs.ids().len(),
                            0 <= j < m,
                            w@ == nbrs.ids()[j as int],
                            g@.dom().contains(w@),
                            second.wf(),
                            second@ == g@[w@],
                            p == second.ids().len(),
                            0 <= k <= p,
                            d.keys() == g.keys().take(i + 1),
                            d@.dom().contains(v@),
                            forall|l: int, x: Seq<char>|
                                0 <= l < i ==> (#[trigger] d@[g.keys()[l]].contains(x)
                                    <==> distance_two_in(g@, g.keys()[l], x)),
                            forall|x: Seq<char>|
                                #[trigger] d@[v@].contains(x) <==> (d2_upto(
                                    g@,
                                    v@,
                                    x,
                                    nbrs.ids(),
                                    j as int,
                                ) || (x != v@ && exists|kk: int|
                                    0 <= kk < k && #[trigger] second.ids()[kk] == x)),
                        decreases p - k,
                    {
                        let x = second.item_at(k);
                        if !x.eq(v) {
                            let ghost d0 = d@;
                            d.insert_edge(v, x);
                            proof {
                                assert(d.keys() =~= g.keys().take(i + 1));
                                assert(d@[v@] == d0[v@].insert(x@));
                                assert forall|l: int|
                                    0 <= l < i implies d@[g.keys()[l]] == d0[g.keys()[l]] by {
                                    assert(g.keys()[l] != v@);
                                }
                                assert forall|y: Seq<char>| #[trigger] d@[v@].contains(y) implies (
                                d2_upto(g@, v@, y, nbrs.ids(), j as int) || (y != v@ && exists|
                                    kk: int,
                                |
                                    0 <= kk <= k && #[trigger] second.ids()[kk] == y)) by {
                                    if y == x@ {
                                        assert(second.ids()[k as int] == y);
                                    }
                                }
                                assert forall|y: Seq<char>|
                                    (d2_upto(g@, v@, y, nbrs.ids(), j as int) || (y != v@ && exists|
                                        kk: int,
                                    |
                                        0 <= kk <= k && #[trigger] second.ids()[kk]
                                            == y)) implies #[trigger] d@[v@].contains(y) by {
                                    if d2_upto(g@, v@, y, nbrs.ids(), j as int) {
                                        assert(d0[v@].contains(y));
                                    } else {
                                        let kk = choose|kk: int|
                                            0 <= kk <= k && #[trigger] second.ids()[kk] == y;
                                        if kk == k {
                                            assert(y == x@);
                                        } else {
                                            assert(d0[v@].contains(y));
                                        }
                                    }
                                }
                            }
                        } else {
                            proof {
                                assert forall|y: Seq<char>|
                                    (d2_upto(g@, v@, y, nbrs.ids(), j as int) || (y != v@ && exists|
                                        kk: int,
                                    |
                                        0 <= kk <= k && #[trigger] second.ids()[kk]
                                            == y)) implies #[trigger] d@[v@].contains(y) by {
                                    if y != v@ && exists|kk: int|
                                        0 <= kk <= k && #[trigger] second.ids()[kk] == y {
                                        let kk = choose|kk: int|
                                            0 <= kk <= k && #[trigger] second.ids()[kk] == y;
                                        if kk == k {
                                            assert(y == x@);
                                            assert(false);
                                        }
                                    }
                                }
                            }
                        }
                        k = k + 1;
                    }
                    proof {
                        assert forall|x: Seq<char>| #[trigger] d@[v@].contains(x) <==> d2_upto(
                            g@,
                            v@,
                            x,
                            nbrs.ids(),
                            j + 1,
                        ) by {
                            second.lemma_ids_view();
                            if d@[v@].contains(x) {
                                if d2_upto(g@, v@, x, nbrs.ids(), j as int) {
                                    let jj = choose|jj: int|
                                        0 <= jj < j && g@.dom().contains(nbrs.ids()[jj])
                                            && g@[nbrs.ids()[jj]].contains(x);
                                    assert(d2_upto(g@, v@, x, nbrs.ids(), j + 1));
                                } else {
                                    assert(g@[w@].contains(x));
                                    assert(nbrs.ids()[j as int] == w@);
                                    assert(d2_upto(g@, v@, x, nbrs.ids(), j + 1));
                                }
                            }
                            if d2_upto(g@, v@, x, nbrs.ids(), j + 1) {
                                let jj = choose|jj: int|
                                    0 <= jj < j + 1 && g@.dom().contains(nbrs.ids()[jj])
                                        && g@[nbrs.ids()[jj]].contains(x);
                                if jj < j {
                                    assert(d2_upto(g@, v@, x, nbrs.ids(), j as int));
                                } else {
                                    assert(nbrs.ids()[jj] == w@);
                                    assert(second@.contains(x));
                                    let kk = choose|kk: int|
                                        0 <= kk < second.ids().len() && second.ids()[kk] == x;
                                    assert(x != v@);
                                }
                            }
                        }
                    }
                },
            }
            j = j + 1;
        }
        proof {
            nbrs.lemma_ids_view();
            assert forall|x: Seq<char>| #[trigger] d@[v@].contains(x) <==> distance_two_in(
                g@,
                v@,
                x,
            ) by {
                if d@[v@].contains(x) {
                    let jj = choose|jj: int|
                        0 <= jj < m && g@.dom().contains(nbrs.ids()[jj]) && g@[nbrs.ids()[jj]].contains(
                            x,
                        );
                    let w = nbrs.ids()[jj];
                    assert(nbrs@.contains(w));
                    assert(g@[v@].contains(w) && g@.dom().contains(w) && g@[w].contains(x));
                }
                if distance_two_in(g@, v@, x) {
                    let w = choose|w: Seq<char>|
                        #[trigger] g@[v@].contains(w) && g@.dom().contains(w) && g@[w].contains(x);
                    assert(nbrs@.contains(w));
                    let jj = choose|jj: int| 0 <= jj < nbrs.ids().len() && nbrs.ids()[jj] == w;
                    assert(d2_upto(g@, v@, x, nbrs.ids(), m as int));
                }
            }
            assert forall|l: int, x: Seq<char>|
                0 <= l < i + 1 implies (#[trigger] d@[g.keys()[l]].contains(x) <==> distance_two_in(
                g@,
                g.keys()[l],
                x,
            )) by {
                if l == i {
                    assert(g.keys()[l] == v@);
                }
            }
        }
        i = i + 1;
    }
    proof {
        assert(d.keys() =~= g.keys());
        d.lemma_dom();
        g.lemma_dom();
        assert(d@.dom() == g@.dom());
        assert forall|v: Seq<char>, x: Seq<char>| d@.dom().contains(v) implies (
        #[trigger] d@[v].contains(x) <==> distance_two_in(g@, v, x)) by {
            assert(d.keys().contains(v));
            let l = choose|l: int| 0 <= l < g.keys().len() && g.keys()[l] == v;
            assert(d@[g.keys()[l]].contains(x) <==> distance_two_in(g@, g.keys()[l], x));
        }
    }
    d
}

/// `x` is a distance-2 neighbor of `v` in the bipartite graph of `s`.
pub open spec fn distance_two_txn(s: Seq<Transaction>, v: Seq<char>, x: Seq<char>) -> bool {
    x != v && exists|w: Seq<char>| #[trigger] linked(s, v, w) && linked(s, w, x)
}

/// Build the bipartite graph of the transactions and derive every
/// node's distance-2 neighbor set from it.
pub fn compute_distance_2_neighbors(transactions: &Vec<Transaction>) -> (d: AdjacencyMap)
    ensures
        d.wf(),
        d@.dom() == nodes_of(transactions@),
        forall|v: Seq<char>, x: Seq<char>|
            d@.dom().contains(v) ==> (#[trigger] d@[v].contains(x) <==> distance_two_txn(
                transactions@,
                v,
                x,
            )),
        forall|v: Seq<char>| #[trigger] d@.dom().contains(v) ==> !d@[v].contains(v),
{
    let s = transactions;
    let graph = build_bipartite_graph(s);
    let d = derive_distance_2(&graph);
    proof {
        assert forall|v: Seq<char>, x: Seq<char>| d@.dom().contains(v) implies (
        #[trigger] d@[v].contains(x) <==> distance_two_txn(s@, v, x)) by {
            if distance_two_in(graph@, v, x) {
                let w = choose|w: Seq<char>|
                    #[trigger] graph@[v].contains(w) && graph@.dom().contains(w)
                        && graph@[w].contains(x);
                assert(linked(s@, v, w) && linked(s@, w, x));
            }
            if distance_two_txn(s@, v, x) {
                let w = choose|w: Seq<char>| #[trigger] linked(s@, v, w) && linked(s@, w, x);
                assert(graph@[v].contains(w));
                let j = choose|j: int|
                    0 <= j < s@.len() && ((s@[j].user_id@ == w && s@[j].product_id@ == x) || (
                    s@[j].user_id@ == x && s@[j].product_id@ == w));
                assert(users_of(s@).contains(w) || products_of(s@).contains(w));
                assert(graph@.dom().contains(w));
                assert(graph@[w].contains(x));
                assert(distance_two_in(graph@, v, x));
            }
        }
    }
    d
}

/// One graph has one distance-2 map: any two maps meeting
/// `is_distance_two_of` for the same graph are equal, so deriving the
/// neighborhoods again reproduces the result.
pub proof fn lemma_distance_two_unique(
    g: Map<Seq<char>, Set<Seq<char>>>,
    d1: Map<Seq<char>, Set<Seq<char>>>,
    d2: Map<Seq<char>, Set<Seq<char>>>,
)
    requires
        is_distance_two_of(g, d1),
        is_distance_two_of(g, d2),
    ensures
        d1 == d2,
{
    lemma_adjacency_unique(d1, d2);
}

/// Users `u` and `v` both purchased within one category of `s`.
pub open spec fn share_category(s: Seq<Transaction>, u: Seq<char>, v: Seq<char>) -> bool {
    exists|i: int, j: int|
        0 <= i < s.len() && 0 <= j < s.len() && s[i].user_id@ == u && s[j].user_id@ == v
            && s[i].category@ == s[j].category@
}

/// `c` is the same-category co-purchase graph of `s`: every user of
/// `s` is a node, and two distinct users are connected exactly when
/// they share a category.
pub open spec fn is_category_connections_of(
    s: Seq<Transaction>,
    c: Map<Seq<char>, Set<Seq<char>>>,
) -> bool {
    &&& c.dom() == users_of(s)
    &&& forall|u: Seq<char>, v: Seq<char>|
        c.dom().contains(u) ==> (#[trigger] c[u].contains(v) <==> (v != u && share_category(
            s,
            u,
            v,
        )))
}

/// Some matching ordered transaction pair lexicographically below
/// `(a, b)` connects `u` to `v` by a shared category.
spec fn cat_pair_upto(s: Seq<Transaction>, u: Seq<char>, v: Seq<char>, a: int, b: int) -> bool {
    exists|i: int, j: int|
        0 <= i < s.len() && 0 <= j < s.len() && (i < a || (i == a && j < b)) && s[i].user_id@ == u
            && s[j].user_id@ == v && s[i].category@ == s[j].category@
}

/// Connect every pair of distinct users that purchased in a common
/// category, symmetrically; every user of the input is a node.
pub fn build_category_connections(transactions: &Vec<Transaction>) -> (c: AdjacencyMap)
    ensures
        c.wf(),
        is_category_connections_of(transactions@, c@),
        forall|u: Seq<char>| #[trigger] c@.dom().contains(u) ==> !c@[u].contains(u),
        forall|u: Seq<char>, v: Seq<char>|
            c@.dom().contains(u) && #[trigger] c@[u].contains(v) ==> c@.dom().contains(v)
                && #[trigger] c@[v].contains(u),
{
    let s = transactions;
    let n = s.len();
    let mut c = AdjacencyMap::new();
    proof {
        assert(c@.dom() =~= users_of(s@.take(0)));
    }
    let mut i: usize = 0;
    while i < n
        invariant
            c.wf(),
            n == s@.len(),
            0 <= i <= n,
            c@.dom() == users_of(s@.take(i as int)),
            forall|u: Seq<char>|
                #[trigger] c@.dom().contains(u) ==> c@[u] == Set::<Seq<char>>::empty(),
        decreases n - i,
    {
        let ghost prefix = s@.take(i as int);
        let ghost next = s@.take(i + 1);
        let ghost c0 = c@;
        c.ensure_node(&s[i].user_id);
        proof {
            assert(next.drop_last() =~= prefix);
            let u = s@[i as int].user_id@;
            assert(c@.dom() =~= users_of(next)) by {
                assert forall|x: Seq<char>| #[trigger] users_of(next).contains(x) implies
                    users_of(prefix).contains(x) || x == u by {
                    let j = choose|j: int| 0 <= j < next.len() && next[j].user_id@ == x;
                    if j < i {
                        assert(prefix[j].user_id@ == x);
                    }
                }
                assert forall|x: Seq<char>| users_of(prefix).contains(x) implies users_of(
                    next,
                ).contains(x) by {
                    let j = choose|j: int| 0 <= j < prefix.len() && prefix[j].user_id@ == x;
                    assert(next[j].user_id@ == x);
                }
                assert(next[i as int].user_id@ == u);
                assert(users_of(next).contains(u));
            }
        }
        i = i + 1;
    }
    proof {
        assert(s@.take(n as int) =~= s@);
        assert forall|u: Seq<char>, v: Seq<char>| c@.dom().contains(u) implies (
        #[trigger] c@[u].contains(v) <==> (v != u && cat_pair_upto(s@, u, v, 0, 0))) by {
            assert(c@[u] == Set::<Seq<char>>::empty());
        }
    }
    let mut a: usize = 0;
    while a < n
        invariant
            c.wf(),
            n == s@.len(),
            0 <= a <= n,
            c@.dom() == users_of(s@),
            forall|u: Seq<char>, v: Seq<char>|
                c@.dom().contains(u) ==> (#[trigger] c@[u].contains(v) <==> (v != u
                    && cat_pair_upto(s@, u, v, a as int, 0))),
        decreases n - a,
    {
        let mut b: usize = 0;
        while b < n
            invariant
                c.wf(),
                n == s@.len(),
                0 <= a < n,
                0 <= b <= n,
                c@.dom() == users_of(s@),
                forall|u: Seq<char>, v: Seq<char>|
                    c@.dom().contains(u) ==> (#[trigger] c@[u].contains(v) <==> (v != u
                        && cat_pair_upto(s@, u, v, a as int, b as int))),
            decreases n - b,
        {
            let same_cat = s[a].category.eq(&s[b].category);
            let same_user = s[a].user_id.eq(&s[b].user_id);
            if same_cat && !same_user {
                let ghost c0 = c@;
                proof {
                    assert(users_of(s@).contains(s@[a as int].user_id@));
                }
                c.insert_edge(&s[a].user_id, &s[b].user_id);
                proof {
                    let ua = s@[a as int].user_id@;
                    let ub = s@[b as int].user_id@;
                    assert(c@ == c0.insert(ua, c0[ua].insert(ub)));
                    assert(c@.dom() =~= users_of(s@));
                    assert forall|u: Seq<char>, v: Seq<char>| c@.dom().contains(u) implies (
                    #[trigger] c@[u].contains(v) <==> (v != u && cat_pair_upto(
                        s@,
                        u,
                        v,
                        a as int,
                        b + 1,
                    ))) by {
                        if u == ua {
                            if c@[u].contains(v) && v != ub {
                                assert(c0[u].contains(v));
                            }
                            if cat_pair_upto(s@, u, v, a as int, b + 1) && v != u && v != ub {
                                let (i2, j2) = choose|i2: int, j2: int|
                                    0 <= i2 < s@.len() && 0 <= j2 < s@.len() && (i2 < a || (i2 == a
                                        && j2 < b + 1)) && s@[i2].user_id@ == u && s@[j2].user_id@
                                        == v && s@[i2].category@ == s@[j2].category@;
                                assert(!(i2 == a && j2 == b));
                                assert(cat_pair_upto(s@, u, v, a as int, b as int));
                            }
                            if v == ub {
                                assert(s@[a as int].user_id@ == u && s@[b as int].user_id@ == v
                                    && s@[a as int].category@ == s@[b as int].category@);
                                assert(cat_pair_upto(s@, u, v, a as int, b + 1));
                            }
                        } else {
                            assert(c@[u] == c0[u]);
                            if cat_pair_upto(s@, u, v, a as int, b + 1) {
                                let (i2, j2) = choose|i2: int, j2: int|
                                    0 <= i2 < s@.len() && 0 <= j2 < s@.len() && (i2 < a || (i2 == a
                                        && j2 < b + 1)) && s@[i2].user_id@ == u && s@[j2].user_id@
                                        == v && s@[i2].category@ == s@[j2].category@;
                                assert(!(i2 == a && j2 == b));
                                assert(cat_pair_upto(s@, u, v, a as int, b as int));
                            }
                            if cat_pair_upto(s@, u, v, a as int, b as int) {
                                assert(cat_pair_upto(s@, u, v, a as int, b + 1));
                            }
                        }
                    }
                }
            } else {
                proof {
                    assert forall|u: Seq<char>, v: Seq<char>| c@.dom().contains(u) implies (
                    #[trigger] c@[u].contains(v) <==> (v != u && cat_pair_upto(
                        s@,
                        u,
                        v,
                        a as int,
                        b + 1,
                    ))) by {
                        if v != u && cat_pair_upto(s@, u, v, a as int, b + 1) {
                            let (i2, j2) = choose|i2: int, j2: int|
                                0 <= i2 < s@.len() && 0 <= j2 < s@.len() && (i2 < a || (i2 == a
                                    && j2 < b + 1)) && s@[i2].user_id@ == u && s@[j2].user_id@ == v
                                    && s@[i2].category@ == s@[j2].category@;
                            if i2 == a && j2 == b {
                                assert(s@[a as int].category@ == s@[b as int].category@ ==> u == v);
                                assert(false);
                            }
                            assert(cat_pair_upto(s@, u, v, a as int, b as int));
                        }
                        if v != u && cat_pair_upto(s@, u, v, a as int, b as int) {
                            assert(cat_pair_upto(s@, u, v, a as int, b + 1));
                        }
                    }
                }
            }
            b = b + 1;
        }
        proof {
            assert forall|u: Seq<char>, v: Seq<char>| c@.dom().contains(u) implies (
            #[trigger] c@[u].contains(v) <==> (v != u && cat_pair_upto(s@, u, v, a + 1, 0))) by {
                if v != u && cat_pair_upto(s@, u, v, a as int, n as int) {
                    assert(cat_pair_upto(s@, u, v, a + 1, 0));
                }
                if v != u && cat_pair_upto(s@, u, v, a + 1, 0) {
                    let (i2, j2) = choose|i2: int, j2: int|
                        0 <= i2 < s@.len() && 0 <= j2 < s@.len() && i2 < a + 1 && s@[i2].user_id@
                            == u && s@[j2].user_id@ == v && s@[i2].category@ == s@[j2].category@;
                    assert(i2 < a || (i2 == a && j2 < n));
                    assert(cat_pair_upto(s@, u, v, a as int, n as int));
                }
            }
        }
        a = a + 1;
    }
    proof {
        assert forall|u: Seq<char>, v: Seq<char>| c@.dom().contains(u) implies (
        #[trigger] c@[u].contains(v) <==> (v != u && share_category(s@, u, v))) by {
            if v != u && cat_pair_upto(s@, u, v, n as int, 0) {
                assert(share_category(s@, u, v));
            }
            if v != u && share_category(s@, u, v) {
                let (i2, j2) = choose|i2: int, j2: int|
                    0 <= i2 < s@.len() && 0 <= j2 < s@.len() && s@[i2].user_id@ == u
                        && s@[j2].user_id@ == v && s@[i2].category@ == s@[j2].category@;
                assert(i2 < n);
                assert(cat_pair_upto(s@, u, v, n as int, 0));
            }
        }
        assert forall|u: Seq<char>, v: Seq<char>|
            c@.dom().contains(u) && #[trigger] c@[u].contains(v) implies c@.dom().contains(v)
            && #[trigger] c@[v].contains(u) by {
            let (i2, j2) = choose|i2: int, j2: int|
                0 <= i2 < s@.len() && 0 <= j2 < s@.len() && s@[i2].user_id@ == u && s@[j2].user_id@
                    == v && s@[i2].category@ == s@[j2].category@;
            assert(users_of(s@).contains(v));
            assert(share_category(s@, v, u));
        }
    }
    c
}

/// One sequence has one category connection graph: any two maps
/// meeting `is_category_connections_of` for the same transactions are
/// equal, so rebuilding reproduces the result.
pub proof fn lemma_category_connections_unique(
    s: Seq<Transaction>,
    c1: Map<Seq<char>, Set<Seq<char>>>,
    c2: Map<Seq<char>, Set<Seq<char>>>,
)
    requires
        is_category_connections_of(s, c1),
        is_category_connections_of(s, c2),
    ensures
        c1 == c2,
{
    lemma_adjacency_unique(c1, c2);
}

/// Products `p` and `q` were both purchased by one user of `s`.
pub open spec fn share_purchaser(s: Seq<Transaction>, p: Seq<char>, q: Seq<char>) -> bool {
    exists|i: int, j: int|
        0 <= i < s.len() && 0 <= j < s.len() && s[i].product_id@ == p && s[j].product_id@ == q
            && s[i].user_id@ == s[j].user_id@
}

/// `c` is the co-purchaser graph of `s`: every product of `s` is a
/// node, and two distinct products are connected exactly when some
/// user purchased both.
pub open spec fn is_product_connections_of(
    s: Seq<Transaction>,
    c: Map<Seq<char>, Set<Seq<char>>>,
) -> bool {
    &&& c.dom() == products_of(s)
    &&& forall|p: Seq<char>, q: Seq<char>|
        c.dom().contains(p) ==> (#[trigger] c[p].contains(q) <==> (q != p && share_purchaser(
            s,
            p,
            q,
        )))
}

/// One sequence has one product connection graph: any two maps
/// meeting `is_product_connections_of` for the same transactions are
/// equal, so rebuilding reproduces the result.
pub proof fn lemma_product_connections_unique(
    s: Seq<Transaction>,
    c1: Map<Seq<char>, Set<Seq<char>>>,
    c2: Map<Seq<char>, Set<Seq<char>>>,
)
    requires
        is_product_connections_of(s, c1),
        is_product_connections_of(s, c2),
    ensures
        c1 == c2,
{
    lemma_adjacency_unique(c1, c2);
}

/// Some matching ordered transaction pair lexicographically below
/// `(a, b)` connects `p` to `q` by a common purchaser.
spec fn prod_pair_upto(s: Seq<Transaction>, p: Seq<char>, q: Seq<char>, a: int, b: int) -> bool {
    exists|i: int, j: int|
        0 <= i < s.len() && 0 <= j < s.len() && (i < a || (i == a && j < b)) && s[i].product_id@
            == p && s[j].product_id@ == q && s[i].user_id@ == s[j].user_id@
}

/// Connect every pair of distinct products purchased by a common
/// user, symmetrically; every product of the input is a node.
pub fn build_product_connections(transactions: &Vec<Transaction>) -> (c: AdjacencyMap)
    ensures
        c.wf(),
        is_product_connections_of(transactions@, c@),
        forall|p: Seq<char>| #[trigger] c@.dom().contains(p) ==> !c@[p].contains(p),
        forall|p: Seq<char>, q: Seq<char>|
            c@.dom().contains(p) && #[trigger] c@[p].contains(q) ==> c@.dom().contains(q)
                && #[trigger] c@[q].contains(p),
{
    let s = transactions;
    let n = s.len();
    let mut c = AdjacencyMap::new();
    proof {
        assert(c@.dom() =~= products_of(s@.take(0)));
    }
    let mut i: usize = 0;
    while i < n
        invariant
            c.wf(),
            n == s@.len(),
            0 <= i <= n,
            c@.dom() == products_of(s@.take(i as int)),
            forall|p: Seq<char>|
                #[trigger] c@.dom().contains(p) ==> c@[p] == Set::<Seq<char>>::empty(),
        decreases n - i,
    {
        let ghost prefix = s@.take(i as int);
        let ghost next = s@.take(i + 1);
        c.ensure_node(&s[i].product_id);
        proof {
            assert(next.drop_last() =~= prefix);
            let p = s@[i as int].product_id@;
            assert(c@.dom() =~= products_of(next)) by {
                assert forall|x: Seq<char>| #[trigger] products_of(next).contains(x) implies
                    products_of(prefix).contains(x) || x == p by {
                    let j = choose|j: int| 0 <= j < next.len() && next[j].product_id@ == x;
                    if j < i {
                        assert(prefix[j].product_id@ == x);
                    }
                }
                assert forall|x: Seq<char>| products_of(prefix).contains(x) implies products_of(
                    next,
                ).contains(x) by {
                    let j = choose|j: int| 0 <= j < prefix.len() && prefix[j].product_id@ == x;
                    assert(next[j].product_id@ == x);
                }
                assert(next[i as int].product_id@ == p);
                assert(products_of(next).contains(p));
            }
        }
        i = i + 1;
    }
    proof {
        assert(s@.take(n as int) =~= s@);
        assert forall|p: Seq<char>, q: Seq<char>| c@.dom().contains(p) implies (
        #[trigger] c@[p].contains(q) <==> (q != p && prod_pair_upto(s@, p, q, 0, 0))) by {
            assert(c@[p] == Set::<Seq<char>>::empty());
        }
    }
    let mut a: usize = 0;
    while a < n
        invariant
            c.wf(),
            n == s@.len(),
            0 <= a <= n,
            c@.dom() == products_of(s@),
            forall|p: Seq<char>, q: Seq<char>|
                c@.dom().contains(p) ==> (#[trigger] c@[p].contains(q) <==> (q != p
                    && prod_pair_upto(s@, p, q, a as int, 0))),
        decreases n - a,
    {
        let mut b: usize = 0;
        while b < n
            invariant
                c.wf(),
                n == s@.len(),
                0 <= a < n,
                0 <= b <= n,
                c@.dom() == products_of(s@),
                forall|p: Seq<char>, q: Seq<char>|
                    c@.dom().contains(p) ==> (#[trigger] c@[p].contains(q) <==> (q != p
                        && prod_pair_upto(s@, p, q, a as int, b as int))),
            decreases n - b,
        {
            let same_user = s[a].user_id.eq(&s[b].user_id);
            let same_product = s[a].product_id.eq(&s[b].product_id);
            if same_user && !same_product {
                let ghost c0 = c@;
                proof {
                    assert(products_of(s@).contains(s@[a as int].product_id@));
                }
                c.insert_edge(&s[a].product_id, &s[b].product_id);
                proof {
                    let pa = s@[a as int].product_id@;
                    let pb = s@[b as int].product_id@;
                    assert(c@ == c0.insert(pa, c0[pa].insert(pb)));
                    assert(c@.dom() =~= products_of(s@));
                    assert forall|p: Seq<char>, q: Seq<char>| c@.dom().contains(p) implies (
                    #[trigger] c@[p].contains(q) <==> (q != p && prod_pair_upto(
                        s@,
                        p,
                        q,
                        a as int,
                        b + 1,
                    ))) by {
                        if p == pa {
                            if c@[p].contains(q) && q != pb {
                                assert(c0[p].contains(q));
                            }
                            if prod_pair_upto(s@, p, q, a as int, b + 1) && q != p && q != pb {
                                let (i2, j2) = choose|i2: int, j2: int|
                                    0 <= i2 < s@.len() && 0 <= j2 < s@.len() && (i2 < a || (i2 == a
                                        && j2 < b + 1)) && s@[i2].product_id@ == p
                                        && s@[j2].product_id@ == q && s@[i2].user_id@
                                        == s@[j2].user_id@;
                                assert(!(i2 == a && j2 == b));
                                assert(prod_pair_upto(s@, p, q, a as int, b as int));
                            }
                            if q == pb {
                                assert(s@[a as int].product_id@ == p && s@[b as int].product_id@
                                    == q && s@[a as int].user_id@ == s@[b as int].user_id@);
                                assert(prod_pair_upto(s@, p, q, a as int, b + 1));
                            }
                        } else {
                            assert(c@[p] == c0[p]);
                            if prod_pair_upto(s@, p, q, a as int, b + 1) {
                                let (i2, j2) = choose|i2: int, j2: int|
                                    0 <= i2 < s@.len() && 0 <= j2 < s@.len() && (i2 < a || (i2 == a
                                        && j2 < b + 1)) && s@[i2].product_id@ == p
                                        && s@[j2].product_id@ == q && s@[i2].user_id@
                                        == s@[j2].user_id@;
                                assert(!(i2 == a && j2 == b));
                                assert(prod_pair_upto(s@, p, q, a as int, b as int));
                            }
                            if prod_pair_upto(s@, p, q, a as int, b as int) {
                                assert(prod_pair_upto(s@, p, q, a as int, b + 1));
                            }
                        }
                    }
                }
            } else {
                proof {
                    assert forall|p: Seq<char>, q: Seq<char>| c@.dom().contains(p) implies (
                    #[trigger] c@[p].contains(q) <==> (q != p && prod_pair_upto(
                        s@,
                        p,
                        q,
                        a as int,
                        b + 1,
                    ))) by {
                        if q != p && prod_pair_upto(s@, p, q, a as int, b + 1) {
                            let (i2, j2) = choose|i2: int, j2: int|
                                0 <= i2 < s@.len() && 0 <= j2 < s@.len() && (i2 < a || (i2 == a
                                    && j2 < b + 1)) && s@[i2].product_id@ == p && s@[j2].product_id@
                                    == q && s@[i2].user_id@ == s@[j2].user_id@;
                            if i2 == a && j2 == b {
                                assert(s@[a as int].user_id@ == s@[b as int].user_id@ ==> p == q);
                                assert(false);
                            }
                            assert(prod_pair_upto(s@, p, q, a as int, b as int));
                        }
                        if q != p && prod_pair_upto(s@, p, q, a as int, b as int) {
                            assert(prod_pair_upto(s@, p, q, a as int, b + 1));
                        }
                    }
                }
            }
            b = b + 1;
        }
        proof {
            assert forall|p: Seq<char>, q: Seq<char>| c@.dom().contains(p) implies (
            #[trigger] c@[p].contains(q) <==> (q != p && prod_pair_upto(s@, p, q, a + 1, 0))) by {
                if q != p && prod_pair_upto(s@, p, q, a as int, n as int) {
                    assert(prod_pair_upto(s@, p, q, a + 1, 0));
                }
                if q != p && prod_pair_upto(s@, p, q, a + 1, 0) {
                    let (i2, j2) = choose|i2: int, j2: int|
                        0 <= i2 < s@.len() && 0 <= j2 < s@.len() && i2 < a + 1 && s@[i2].product_id@
                            == p && s@[j2].product_id@ == q && s@[i2].user_id@ == s@[j2].user_id@;
                    assert(i2 < a || (i2 == a && j2 < n));
                    assert(prod_pair_upto(s@, p, q, a as int, n as int));
                }
            }
        }
        a = a + 1;
    }
    proof {
        assert forall|p: Seq<char>, q: Seq<char>| c@.dom().contains(p) implies (
        #[trigger] c@[p].contains(q) <==> (q != p && share_purchaser(s@, p, q))) by {
            if q != p && prod_pair_upto(s@, p, q, n as int, 0) {
                assert(share_purchaser(s@, p, q));
            }
            if q != p && share_purchaser(s@, p, q) {
                let (i2, j2) = choose|i2: int, j2: int|
                    0 <= i2 < s@.len() && 0 <= j2 < s@.len() && s@[i2].product_id@ == p
                        && s@[j2].product_id@ == q && s@[i2].user_id@ == s@[j2].user_id@;
                assert(i2 < n);
                assert(prod_pair_upto(s@, p, q, n as int, 0));
            }
        }
        assert forall|p: Seq<char>, q: Seq<char>|
            c@.dom().contains(p) && #[trigger] c@[p].contains(q) implies c@.dom().contains(q)
            && #[trigger] c@[q].contains(p) by {
            let (i2, j2) = choose|i2: int, j2: int|
                0 <= i2 < s@.len() && 0 <= j2 < s@.len() && s@[i2].product_id@ == p
                    && s@[j2].product_id@ == q && s@[i2].user_id@ == s@[j2].user_id@;
            assert(products_of(s@).contains(q));
            assert(share_purchaser(s@, q, p));
        }
    }
    c
}

} // verus!
