pub mod checksum;
pub mod compression;
pub mod header;
pub mod io;
pub mod tasks;
pub mod worker;
pub mod driver;
pub mod entry;
