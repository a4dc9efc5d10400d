pub mod hex_text;
pub mod protocol;
