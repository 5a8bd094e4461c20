//! Writing and reading `.goo` files, the containers that resin printers print from.
//!
//! A job comes as masks or runs of its layers and JSON metadata. `encoder` and `stream` make
//! a container of it, `reader` reads layers back. Proof functions whose names start with
//! `law_` state what holds across functions.

pub mod b64;
pub mod bytes;
pub mod calendar;
pub mod coding;
pub mod container;
pub mod container_v5;
pub mod contents;
pub mod contents_v5;
pub mod duration;
pub mod encoder;
pub mod error;
pub mod json;
pub mod layers;
pub mod layout;
pub mod metadata;
pub mod picture;
pub mod planning;
pub mod preview;
pub mod reader;
pub mod reading;
pub mod rle;
pub mod settings;
pub mod single;
pub mod stamp;
pub mod stream;
pub mod text;
pub mod thumbnail;
pub mod types;
