pub mod animation;
pub mod tiles;
pub mod types;
