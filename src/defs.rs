//! Common character definitions.

use vstd::prelude::*;

verus! {

/// Whitespace character.
pub const WS: char = ' ';

/// Horizontal tabulator character.
pub const TAB: char = '\t';

/// Empty character (zero), used where no character applies.
pub const NULL: char = '\0';

} // verus!
