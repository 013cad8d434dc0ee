//! The sizes that every part of the notebook agrees on.

use vstd::prelude::*;

verus! {

/// The longest content of an item, in characters.
pub const MAX_ITEM_CHARS: usize = 100_000;

/// The longest name of a section, in characters.
pub const MAX_SECTION_CHARS: usize = 80;

/// The largest attachment: 250 MiB.
pub const MAX_ATTACHMENT_BYTES: u64 = 262_144_000;

} // verus!
