pub mod field;
pub mod sweeper;
pub mod tile;
