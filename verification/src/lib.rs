//! Helpers for the game's blueprint strings: the text codec, a document
//! tree, a tree walker, and the layout of a blueprint book as a directory.

pub mod blueprint;
pub mod json_walk;
pub mod layout;
pub mod load;
pub mod round_trip;
pub mod save;
pub mod text;
pub mod value;
