pub mod address;
pub mod peer_id;
pub mod peer_info;
pub mod peer_key;
