//! Codecs for the binary formats of a handheld toy's firmware image and of its
//! removable data cards: the data pack of record tables, the sprite pack of
//! bit-packed indexed-colour images, and the containers that wrap both.

pub mod config;
pub mod data_pack;
pub mod data_view;
pub mod edit;
pub mod error;
pub mod export;
pub mod file;
pub mod firmware;
pub mod import;
pub mod request;
pub mod smacard;
pub mod sprite_pack;
pub mod strings;
pub mod text;
