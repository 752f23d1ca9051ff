use ecommerce_analysis::graph_analysis::{
    build_bipartite_graph, build_category_connections, build_product_connections,
    compute_distance_2_neighbors,
};
use ecommerce_analysis::summaries::{DegreeMap, UserSummary};
use ecommerce_analysis::transactions::Transaction;
use ecommerce_analysis::user_analysis::{
    analyze_users, degree_distribution, fit_power_law, identify_super_buyers, PowerLawFit,
};

fn tx(user: &str, product: &str, category: &str, price: u64) -> Transaction {
    Transaction {
        user_id: user.to_string(),
        product_id: product.to_string(),
        category: category.to_string(),
        final_price: price,
    }
}

#[test]
fn test_super_buyers() {
    let mut user_summary = UserSummary::new();
    user_summary.insert(&"user1".to_string(), 10, 500);
    user_summary.insert(&"user2".to_string(), 3, 1200);
    user_summary.insert(&"user3".to_string(), 2, 800);
    user_summary.insert(&"user4".to_string(), 6, 1500);

    let purchase_threshold = 5;
    let spending_threshold = 1000;

    let super_buyers = identify_super_buyers(&user_summary, purchase_threshold, spending_threshold);

    assert!(super_buyers.contains(&"user1".to_string()));
    assert!(super_buyers.contains(&"user2".to_string()));
    assert!(super_buyers.contains(&"user4".to_string()));
    assert!(!super_buyers.contains(&"user3".to_string()));
}

#[test]
fn test_compute_distance_2_neighbors() {
    let transactions = vec![
        tx("user1", "product1", "category1", 100),
        tx("user2", "product1", "category1", 150),
        tx("user2", "product2", "category2", 200),
        tx("user3", "product2", "category2", 250),
    ];

    let distance_2_neighbors = compute_distance_2_neighbors(&transactions);

    // user1 reaches user2 through product1; user3 is four hops away.
    let user1 = distance_2_neighbors.get(&"user1".to_string()).unwrap();
    assert!(user1.contains(&"user2".to_string()));
    assert!(!user1.contains(&"user3".to_string()));

    let product1 = distance_2_neighbors.get(&"product1".to_string()).unwrap();
    assert!(product1.contains(&"product2".to_string()));
    assert!(!product1.contains(&"product1".to_string()));

    let user3 = distance_2_neighbors.get(&"user3".to_string()).unwrap();
    assert!(user3.contains(&"user2".to_string()));
    assert!(!user3.contains(&"user1".to_string()));
}

#[test]
fn test_category_connections() {
    let transactions = vec![
        tx("user1", "product1", "category1", 100),
        tx("user2", "product2", "category1", 150),
        tx("user3", "product3", "category2", 200),
    ];

    let category_connections = build_category_connections(&transactions);

    let user1 = category_connections.get(&"user1".to_string()).unwrap();
    assert!(user1.contains(&"user2".to_string()));
    assert!(!user1.contains(&"user3".to_string()));
}

#[test]
fn user_summary_has_exact_counts_and_spending() {
    let transactions = vec![
        tx("user1", "product1", "category1", 100),
        tx("user1", "product2", "category1", 200),
        tx("user2", "product1", "category2", 50),
    ];
    let summary = analyze_users(&transactions);
    assert_eq!(summary.len(), 2);
    assert_eq!(summary.get(&"user1".to_string()), Some((2, 300)));
    assert_eq!(summary.get(&"user2".to_string()), Some((1, 50)));
    assert_eq!(summary.get(&"user3".to_string()), None);
}

#[test]
fn counts_sum_to_transaction_total() {
    let transactions = vec![
        tx("user1", "product1", "category1", 100),
        tx("user1", "product2", "category1", 200),
        tx("user2", "product1", "category2", 50),
        tx("user3", "product3", "category2", 75),
    ];
    let summary = analyze_users(&transactions);
    let mut summary_total = 0usize;
    for i in 0..summary.len() {
        summary_total += summary.stats_at(i).0;
    }
    let (user_degrees, product_degrees) = degree_distribution(&transactions);
    let mut user_total = 0usize;
    for i in 0..user_degrees.len() {
        user_total += user_degrees.count_at(i);
    }
    let mut product_total = 0usize;
    for i in 0..product_degrees.len() {
        product_total += product_degrees.count_at(i);
    }
    assert_eq!(summary_total, transactions.len());
    assert_eq!(user_total, transactions.len());
    assert_eq!(product_total, transactions.len());
}

#[test]
fn user_summary_is_order_independent() {
    let forward = vec![
        tx("user1", "product1", "category1", 100),
        tx("user1", "product2", "category1", 200),
        tx("user2", "product1", "category2", 50),
    ];
    let backward = vec![
        tx("user2", "product1", "category2", 50),
        tx("user1", "product2", "category1", 200),
        tx("user1", "product1", "category1", 100),
    ];
    let s1 = analyze_users(&forward);
    let s2 = analyze_users(&backward);
    assert_eq!(s1.len(), s2.len());
    for user in ["user1", "user2"] {
        assert_eq!(s1.get(&user.to_string()), s2.get(&user.to_string()));
    }
}

#[test]
fn bipartite_graph_is_symmetric() {
    let transactions = vec![
        tx("user1", "product1", "category1", 100),
        tx("user2", "product1", "category1", 150),
        tx("user2", "product2", "category2", 200),
    ];
    let graph = build_bipartite_graph(&transactions);
    for (user, product) in [("user1", "product1"), ("user2", "product1"), ("user2", "product2")] {
        let u = user.to_string();
        let p = product.to_string();
        assert!(graph.get(&u).unwrap().contains(&p));
        assert!(graph.get(&p).unwrap().contains(&u));
    }
    assert!(!graph.get(&"user1".to_string()).unwrap().contains(&"product2".to_string()));
    assert!(!graph.get(&"product2".to_string()).unwrap().contains(&"user1".to_string()));
}

#[test]
fn distance_2_excludes_self_everywhere() {
    let transactions = vec![
        tx("user1", "product1", "category1", 100),
        tx("user2", "product1", "category1", 150),
        tx("user2", "product2", "category2", 200),
        tx("user3", "product2", "category2", 250),
        tx("user3", "product1", "category1", 300),
    ];
    let d2 = compute_distance_2_neighbors(&transactions);
    for i in 0..d2.len() {
        let node = d2.key_at(i).clone();
        assert!(!d2.neighbors_at(i).contains(&node));
    }
}

#[test]
fn category_connections_are_symmetric_and_self_free() {
    let transactions = vec![
        tx("user1", "product1", "category1", 100),
        tx("user2", "product2", "category1", 150),
        tx("user3", "product3", "category2", 200),
    ];
    let cc = build_category_connections(&transactions);
    assert!(cc.get(&"user2".to_string()).unwrap().contains(&"user1".to_string()));
    assert!(!cc.get(&"user1".to_string()).unwrap().contains(&"user1".to_string()));
    assert!(cc.get(&"user3".to_string()).unwrap().len() == 0);
}

#[test]
fn product_connections_link_co_purchased_products() {
    let transactions = vec![
        tx("user1", "product1", "category1", 100),
        tx("user1", "product2", "category2", 150),
        tx("user2", "product3", "category1", 200),
    ];
    let pc = build_product_connections(&transactions);
    assert!(pc.get(&"product1".to_string()).unwrap().contains(&"product2".to_string()));
    assert!(pc.get(&"product2".to_string()).unwrap().contains(&"product1".to_string()));
    assert!(!pc.get(&"product1".to_string()).unwrap().contains(&"product3".to_string()));
    assert!(pc.get(&"product3".to_string()).unwrap().len() == 0);
    assert!(!pc.get(&"product1".to_string()).unwrap().contains(&"product1".to_string()));
}

#[test]
fn power_law_fit_is_undefined_for_uniform_degrees() {
    let mut degrees = DegreeMap::new();
    degrees.set_count(&"a".to_string(), 3);
    degrees.set_count(&"b".to_string(), 3);
    degrees.set_count(&"c".to_string(), 3);
    assert!(matches!(fit_power_law(&degrees), PowerLawFit::Undefined));
}

#[test]
fn power_law_fit_is_undefined_for_empty_map() {
    let degrees = DegreeMap::new();
    assert!(matches!(fit_power_law(&degrees), PowerLawFit::Undefined));
}

#[test]
fn power_law_fit_reports_count_and_minimum() {
    let mut degrees = DegreeMap::new();
    degrees.set_count(&"a".to_string(), 4);
    degrees.set_count(&"b".to_string(), 1);
    degrees.set_count(&"c".to_string(), 2);
    match fit_power_law(&degrees) {
        PowerLawFit::Fitted { n, k_min } => {
            assert_eq!(n, 3);
            assert_eq!(k_min, 1);
        }
        PowerLawFit::Undefined => panic!("expected a fitted result"),
    }
}

#[test]
fn builders_are_idempotent_on_the_same_input() {
    let transactions = vec![
        tx("user1", "product1", "category1", 100),
        tx("user2", "product1", "category1", 150),
        tx("user2", "product2", "category2", 200),
    ];
    let g1 = build_bipartite_graph(&transactions);
    let g2 = build_bipartite_graph(&transactions);
    assert_eq!(g1.len(), g2.len());
    for i in 0..g1.len() {
        let node = g1.key_at(i);
        let n1 = g1.get(node).unwrap();
        let n2 = g2.get(node).unwrap();
        assert_eq!(n1.len(), n2.len());
        for j in 0..n1.len() {
            assert!(n2.contains(n1.item_at(j)));
        }
    }
    let c1 = build_category_connections(&transactions);
    let c2 = build_category_connections(&transactions);
    assert_eq!(c1.len(), c2.len());
    for i in 0..c1.len() {
        let node = c1.key_at(i);
        let n1 = c1.get(node).unwrap();
        let n2 = c2.get(node).unwrap();
        assert_eq!(n1.len(), n2.len());
        for j in 0..n1.len() {
            assert!(n2.contains(n1.item_at(j)));
        }
    }
}

#[test]
fn empty_input_yields_empty_results() {
    let transactions: Vec<Transaction> = Vec::new();
    assert_eq!(analyze_users(&transactions).len(), 0);
    let (ud, pd) = degree_distribution(&transactions);
    assert_eq!(ud.len(), 0);
    assert_eq!(pd.len(), 0);
    assert_eq!(build_bipartite_graph(&transactions).len(), 0);
    assert_eq!(compute_distance_2_neighbors(&transactions).len(), 0);
    assert_eq!(build_category_connections(&transactions).len(), 0);
    assert_eq!(build_product_connections(&transactions).len(), 0);
    let summary = UserSummary::new();
    assert!(identify_super_buyers(&summary, 0, 0).is_empty());
}

#[test]
fn classifier_uses_inclusive_bounds() {
    let mut summary = UserSummary::new();
    summary.insert(&"at_count".to_string(), 5, 0);
    summary.insert(&"at_spending".to_string(), 0, 1000);
    summary.insert(&"below_both".to_string(), 4, 999);
    let buyers = identify_super_buyers(&summary, 5, 1000);
    assert!(buyers.contains(&"at_count".to_string()));
    assert!(buyers.contains(&"at_spending".to_string()));
    assert!(!buyers.contains(&"below_both".to_string()));
}
