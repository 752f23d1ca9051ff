//! Graph-theoretic and statistical summaries over an e-commerce
//! transaction log: per-user purchase aggregates, super-buyer
//! classification, bipartite user/product degree analysis, a power-law
//! exponent fit over degree distributions, distance-2 neighborhoods,
//! and category/product co-occurrence graphs.

pub mod adjacency;
pub mod graph_analysis;
pub mod id_set;
pub mod summaries;
pub mod transactions;
pub mod user_analysis;
