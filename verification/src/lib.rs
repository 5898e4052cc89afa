//! A verified engine for a personal task/note ledger.
//!
//! Items live in one ordered active ledger; each item belongs to a named
//! board, may be a note, and may be checked off.  Commands address items by
//! their current 1-based position.  The engine covers the identifier
//! resolver, board aggregation, the mutation operations, and the text codec
//! for the two store files; terminal rendering and file I/O stay outside.

pub mod boards;
pub mod clock;
pub mod codec;
pub mod engine;
pub mod error;
pub mod item;
pub mod ledger;
pub mod resolve;
pub mod text;

use vstd::prelude::*;

verus! {

/// The name of the default board, as a sequence of characters.
pub open spec fn default_board_name() -> Seq<char> {
    "Tasks"@
}

/// The default board name as an owned string.
pub fn default_board_string() -> (r: String)
    ensures
        r@ == default_board_name(),
{
    "Tasks".to_owned()
}

} // verus!
