pub mod routable;
