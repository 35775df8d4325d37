//! Rule-and-animation engine of a patience card game.
//!
//! The library owns the authoritative table state: card stacks with their
//! roles, legal-move evaluation, the fixpoint rule-propagation loop, and
//! the time-based animation scheduler that defers card relocation until a
//! visual transition completes. Rendering, audio playback and window
//! plumbing stay outside; the caller consumes sound triggers and reads
//! snapshots of the stacks and the in-flight animations.

pub mod cards;
pub mod cardstack;
pub mod animation;
pub mod rules;
pub mod table;
pub mod lemmas;
