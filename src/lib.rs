//! A UTF-8 string of two machine words that keeps short content inline,
//! longer content in an owned heap buffer, and `'static` text borrowed,
//! choosing among them by a discriminator in its last byte.

pub mod actions;
pub mod bytes;
pub mod layout;
pub mod laws;
pub mod repr;
pub mod utf8;
