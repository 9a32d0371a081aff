pub mod doublylist;
pub mod lru;
pub mod cache;
pub mod tree;
pub mod list;
pub mod heap;
pub mod graph;
