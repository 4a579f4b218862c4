pub mod page;
pub mod book;
