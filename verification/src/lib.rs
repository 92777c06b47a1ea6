pub mod animation;
pub mod codec;
pub mod input;
