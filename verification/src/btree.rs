pub mod record;
pub mod tree;
