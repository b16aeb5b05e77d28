//! Chord-name resolver and ASCII fretboard-diagram renderer for a
//! four-string instrument, with a greedy grid layout for the rendered
//! diagrams.

pub mod app;
pub mod chords;
pub mod grid;
pub mod text;
pub mod window;

