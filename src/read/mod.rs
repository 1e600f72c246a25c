pub mod block;
pub mod fields;
pub mod frames;
pub mod header;
