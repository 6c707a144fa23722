pub mod blame;
pub mod diff;
pub mod history;
pub mod index;
pub mod objects;
pub mod refs;
pub mod search;
pub mod status;
pub mod store;
pub mod tree;
