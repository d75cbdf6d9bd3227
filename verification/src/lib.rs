//! A formatter for Nushell scripts whose line-joining, spacing and
//! indentation rules are stated as specifications and proved.

pub mod cli;
pub mod configuration;
pub mod formatter;
pub mod joining;
pub mod laws;
pub mod line_formatter;
pub mod lines;
pub mod nushell;
pub mod runs;
pub mod spacing;
pub mod text;
pub mod visible;
