pub mod btree3;
pub mod text;
pub mod ordered;
pub mod page;
pub mod storage_engine;
