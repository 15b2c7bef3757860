//! The stores: presence sessions and credentials.

pub mod api_key;
pub mod session;
