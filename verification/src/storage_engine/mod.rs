pub mod btree2;
pub mod btree4;
pub mod cache;
pub mod cache2;
pub mod doubly_linked;
pub mod linked_map;
pub mod page;
#[allow(non_snake_case)]
pub mod LSM;
