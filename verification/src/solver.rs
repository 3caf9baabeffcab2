//! Solvers for the minimax value of a word list.
pub mod agree;
pub mod bounds;
pub mod canon;
pub mod canon_laws;
pub mod column_laws;
pub mod columns;
pub mod dag;
pub mod dag_graph;
pub mod dag_search;
pub mod data;
pub mod disk_cache;
pub mod dedup;
pub mod form_laws;
pub mod forms;
pub mod key_laws;
pub mod matrix;
pub mod memoized;
pub mod naive;
pub mod ordering;
pub mod partition;
pub mod pattern_store;
pub mod patterns;
pub mod permutation;
pub mod position_laws;
pub mod precomputed;
pub mod quick;
pub mod quick_laws;
pub mod required;
pub mod row_orders;
pub mod search;
pub mod search_laws;
pub mod serving;
pub mod signature;
pub mod small;
pub mod table;
pub mod trust;
pub mod tt;
pub mod warm;
pub mod word_hash;
pub mod wordset;

pub use dag::DagSolver;
pub use disk_cache::SaveStats;
pub use memoized::MemoizedSolver;
pub use naive::NaiveSolver;
pub use precomputed::PrecomputedDag;
pub use wordset::WordSet;
