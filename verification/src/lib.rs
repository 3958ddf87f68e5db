//! Core of a terminal text marquee: glyph tables, big-text layout, and
//! display-width-aware viewport clipping, with the scroll state machine
//! that drives the animation.

pub mod clipping;
pub mod prepare_text;
pub mod scroll;
