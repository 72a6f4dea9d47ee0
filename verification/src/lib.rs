//! Highlights text by overlaying terminal foreground colors wherever one of
//! several regular expressions matches, including where matches of different
//! patterns overlap.

pub mod balance;
pub mod builder;
pub mod color;
pub mod highlight;
pub mod laws;
pub mod offsets;
pub mod opts;
pub mod pattern;
pub mod priority;
pub mod render;
pub mod resolver;
pub mod stack;
pub mod style;

pub use builder::build_events;
pub use color::Color;
pub use highlight::{hl, hl_line};
pub use opts::{InvalidRegex, Opts};
pub use pattern::Opt;
pub use render::{apply, encode, render, Piece};
pub use resolver::{resolve, EventIndex};
pub use stack::Stack;
pub use style::{Event, Operation, Style};
