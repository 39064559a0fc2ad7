//! A slide deck read from a markdown document: slides are separated by a line of
//! dashes, directive lines (`!!!token`) attach interactive demo markers to a
//! slide, and a small state machine moves between the slides.

pub mod deck;
pub mod marker;
pub mod slide;
pub mod text;

pub use deck::{parse, FrameInput, Presentation, SavedState};
pub use marker::SlideMarker;
pub use slide::Slide;
