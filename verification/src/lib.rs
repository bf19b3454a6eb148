//! pimgext: reading PSB/PIMG layered images, decoding their TLG5 layers,
//! compositing them and writing PNG files.

pub mod error;
pub mod text;
pub mod psb;
pub mod value;
pub mod tlg5;
pub mod png;
pub mod compose;
pub mod literal;
pub mod pyfmt;
pub mod extract;
pub mod pypath;
pub mod normlaw;
pub mod args;
pub mod json;
pub mod ntpath;
pub mod num;
