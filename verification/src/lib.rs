pub mod decimal;
pub mod wire;
pub mod resp;
pub mod roundtrip;
pub mod finality;
pub mod store;
pub mod handler;
pub mod aof;
pub mod session;
pub mod laws;
