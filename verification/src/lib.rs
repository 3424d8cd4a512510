//! Verified core of an ice cream shop: the orders that clients place, the
//! stock that each flavor keeps, the shop's queue of pending orders and the
//! line protocol that clients and ice cream makers speak with the server.

pub mod order;
pub mod text;
pub mod client;
pub mod ice_cream;
pub mod ice_cream_shop;
pub mod protocol;
pub mod worker;
