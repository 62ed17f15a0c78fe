//! Renders a stream of nested highlight events over source bytes as color-tag
//! markup, one line at a time, with the byte offset of each line.
//!
//! - `lossy`: decodes arbitrary bytes into valid UTF-8 chunks.
//! - `markup`: scopes, their attribute text, and the tags and escapes emitted.
//! - `renderer`: the event-to-markup renderer and its line index.
//! - `highlight`: one highlighting request, from the engine's events to an error code.
//! - `balance`: the tags of every rendered line are balanced.

pub mod balance;
pub mod highlight;
pub mod lossy;
pub mod markup;
pub mod renderer;
