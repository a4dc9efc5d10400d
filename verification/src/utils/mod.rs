pub mod random;
pub mod utils;
