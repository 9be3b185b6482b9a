//! Cutting selected bytes, characters or fields out of the lines of a text.
//!
//! A run is configured by a position list such as `1,7,3-5`, read by
//! [`positions`], and a mode, see [`extract`]. Field mode reads each line as
//! a delimited record and writes the selected fields as one again, see
//! [`record`]. What each line becomes, and how failures end a run, is decided
//! in [`cut`]; [`config`] makes a run from what the user gave.
//!
//! Beside these stand two helpers of the same family of tools: [`count`]
//! counts the lines, words, bytes and characters of an input, and [`head`]
//! reads the count of lines or bytes to show.

pub mod text;
pub mod positions;
pub mod extract;
pub mod record;
pub mod cut;
pub mod config;
pub mod count;
pub mod head;
