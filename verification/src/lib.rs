//! A reversible text-envelope codec for content warnings.
//!
//! A CW2 line has the shape `[CW reason]content`. The reason may itself
//! contain bracket characters, so the encoder escapes any bracket that
//! would confuse the decoder's balance scanner with the control byte
//! `0x10` (DLE), and the decoder removes those escapes again.

pub mod model;

pub mod parsing;

pub mod laws;
