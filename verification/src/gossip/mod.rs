pub mod gossip;
pub mod protocol;
