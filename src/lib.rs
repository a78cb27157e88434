pub mod altitude;
pub mod chunk;
pub mod chunk_set;
pub mod compress;
pub mod coord;
pub mod entity;
pub mod terrain;
