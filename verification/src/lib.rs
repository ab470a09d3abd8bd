//! Ranks the directories of a `zsh-z` datafile by frecency and picks the
//! best ones to jump to.
//!
//! - [`datafile`] reads the datafile: where it is, its lines, its entries.
//! - [`rank`] weighs visits by their age and picks the top entries.
//! - [`display`] shows paths relative to the home directory.
//! - [`text`] holds the character-level helpers they share.

pub mod datafile;
pub mod display;
pub mod rank;
pub mod text;
