pub mod segment;
pub mod wal;
