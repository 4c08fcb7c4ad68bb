pub mod anvil;
pub mod bytes;
pub mod codec;
pub mod converter;
pub mod coords;
pub mod error;
pub mod linear;
pub mod region;
