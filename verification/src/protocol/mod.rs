pub mod message;
pub mod octets;
pub mod rr;
