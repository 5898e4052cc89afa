//! The entity model: a single ledger item (task or note).

use vstd::prelude::*;

verus! {

/// Mathematical model of an item: every field as a plain value.
pub ghost struct ItemModel {
    pub content: Seq<char>,
    pub checked: bool,
    pub is_note: bool,
    pub board_name: Seq<char>,
    pub created_at: Seq<char>,
}

/// A single entry of the ledger: a task, or a note when `is_note` is set.
///
/// An item has no persistent identity; it is addressed by its current
/// 1-based position in the active ledger.  `created_at` is a date-time
/// string fixed at creation and never changed afterwards.
#[derive(Debug, Clone)]
pub struct Item {
    pub content: String,
    pub checked: bool,
    pub is_note: bool,
    pub board_name: String,
    pub created_at: String,
}

impl View for Item {
    type V = ItemModel;

    open spec fn view(&self) -> ItemModel {
        ItemModel {
            content: self.content@,
            checked: self.checked,
            is_note: self.is_note,
            board_name: self.board_name@,
            created_at: self.created_at@,
        }
    }
}

impl Item {
    /// Construct a fresh, unchecked item.
    pub fn new(content: String, is_note: bool, board_name: String, created_at: String) -> (r: Item)
        ensures
            r@ == (ItemModel {
                content: content@,
                checked: false,
                is_note: is_note,
                board_name: board_name@,
                created_at: created_at@,
            }),
    {
        Item { content, checked: false, is_note, board_name, created_at }
    }

    /// A field-for-field copy whose model is provably the same.
    pub fn duplicate(&self) -> (r: Item)
        ensures
            r@ == self@,
    {
        Item {
            content: self.content.clone(),
            checked: self.checked,
            is_note: self.is_note,
            board_name: self.board_name.clone(),
            created_at: self.created_at.clone(),
        }
    }
}

/// Two items are equal exactly when their text payloads are equal; board,
/// state and date do not take part.  The sort-on-load step compares the
/// reordered ledger with the ledger as loaded through this relation.
impl PartialEq for Item {
    fn eq(&self, other: &Self) -> (r: bool) {
        self.content == other.content
    }
}

impl vstd::std_specs::cmp::PartialEqSpecImpl for Item {
    open spec fn obeys_eq_spec() -> bool {
        true
    }

    open spec fn eq_spec(&self, other: &Item) -> bool {
        self.content@ == other.content@
    }
}

/// The models of a sequence of items.
pub open spec fn models(s: Seq<Item>) -> Seq<ItemModel> {
    s.map_values(|it: Item| it@)
}

} // verus!
