//! What the screens show and how keys change what they edit; the drawing
//! itself is done by the program around the library.
pub mod editor;
pub mod lines;
pub mod view;

pub use editor::{Editor, EditorEffect, Key};
