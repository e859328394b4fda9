//! Activity records drawn from location-history documents, and the totals
//! and running balance computed over them.

pub mod activity;
pub mod decimal;
pub mod extract;
pub mod frame;
pub mod sort;
pub mod timestamp;
pub mod tree;
pub mod unpack;
