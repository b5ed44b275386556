//! Digital rain for modern terminals.
//!
//! [`rain`] owns the simulation, [`theme`] colours and how many of them a window
//! gets, [`charset`] the glyph repertoires, [`render`] is what produces bytes,
//! and [`session`] takes the event loop's decisions. [`rainfall`], [`screen`] and
//! [`wire`] hold no code that runs: they say what is true of the rain, of the
//! screen it is drawn on, and of the bytes on their way there.
//!
//! Randomness comes from a seed the caller supplies, so a given seed replays an
//! identical animation. Fractional numbers are held by their bit patterns
//! ([`bits`]); arithmetic on them, like the clock and the terminal, is outside.

pub mod ansi;
pub mod bench;
pub mod bits;
pub mod budget;
pub mod chance;
pub mod charset;
pub mod cli;
pub mod governor;
pub mod grid;
pub mod keys;
pub mod meter;
pub mod rain;
pub mod rainfall;
pub mod render;
pub mod screen;
pub mod session;
pub mod term;
pub mod text;
pub mod theme;
pub mod wire;

pub use charset::Charset;
pub use rain::{Config, Rain};
pub use render::{DrawStats, Renderer, DEFAULT_COLOR_TOLERANCE};
pub use theme::{auto_levels, BaseColor, Depth, Levels, Rgb, DEFAULT_LEVELS, MIN_AUTO_LEVELS};
