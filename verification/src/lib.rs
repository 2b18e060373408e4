pub mod key;
pub mod codec;
pub mod block;
pub mod iterators;
pub mod table;
pub mod lsm_iterator;
pub mod lsm_storage;
