//! The sending half and the connection bookkeeping of the uTP transport protocol.

pub mod accounting;
pub mod cid;
pub mod congestion;
pub mod flight;
pub mod laws;
pub mod packet;
pub mod sent;
pub mod seq;
pub mod socket;
pub mod state;
pub mod time;
pub mod utils;
