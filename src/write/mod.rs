pub mod bbox;
pub mod blob;
pub mod delta;
pub mod encode;
pub mod header;
pub mod strings;
pub mod wire;
pub mod write_block;
