//! Rendering of simple 2D shapes (points, lines, rectangles, text) onto a
//! rectangular text grid carved out of a terminal's visible area.
//!
//! The canvas ([`plot::Plot`]) does not touch a terminal itself: every drawing
//! operation returns the sequence of cursor and text commands
//! ([`screen::Command`]) that realises it, all relative to a single saved
//! anchor position. A verified in-memory surface ([`screen::Screen`]) applies
//! such command sequences to a character grid, so the exact effect of every
//! operation is both specified and testable without a live terminal.

pub mod data;
pub mod plot;
pub mod shapes;
pub mod screen;
pub mod text;
