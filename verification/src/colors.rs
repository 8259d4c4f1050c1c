//! Terminal escape sequences used to tint the dump.

use vstd::prelude::*;

verus! {

/// Row labels.
pub const GRAY: &'static str = "\x1b[38;2;162;162;162m";

/// Printable bytes inside a pattern match.
pub const SKYBLUE: &'static str = "\x1b[38;2;125;196;246m";

/// Unprintable bytes outside every pattern match.
pub const RED: &'static str = "\x1b[38;2;191;76;63m";

/// Unprintable bytes inside a pattern match.
pub const PURPLE: &'static str = "\x1b[38;2;139;97;210m";

/// Bold face.
pub const BOLD: &'static str = "\x1b[1m";

/// Back to the terminal's own style.
pub const RESET: &'static str = "\x1b[0m";

} // verus!
