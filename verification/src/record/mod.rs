pub mod record;
