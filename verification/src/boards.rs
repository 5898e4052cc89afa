//! The board aggregator: the flat item list grouped into named boards,
//! with per-board totals and completed counts.
//!
//! Board names are collected in first-seen order.  The custom boards come
//! first, in that order; the default board is always reported last.  Notes
//! count toward a board's total but never toward its completed count.

use vstd::prelude::*;

use crate::default_board_name;
use crate::item::{models, Item, ItemModel};
use crate::text::string_views;

verus! {

/// The distinct board names of `s`, each at its first appearance, in order.
pub open spec fn board_names(s: Seq<ItemModel>) -> Seq<Seq<char>>
    decreases s.len(),
{
    if s.len() == 0 {
        Seq::<Seq<char>>::empty()
    } else {
        let pre = board_names(s.drop_last());
        if pre.contains(s.last().board_name) {
            pre
        } else {
            pre.push(s.last().board_name)
        }
    }
}

/// The board names other than the default one, in first-seen order.
pub open spec fn custom_board_names(s: Seq<ItemModel>) -> Seq<Seq<char>> {
    board_names(s).filter(|b: Seq<char>| b != default_board_name())
}

/// The items of `s` on board `b`, in their ledger order.
pub open spec fn items_of_board(s: Seq<ItemModel>, b: Seq<char>) -> Seq<ItemModel> {
    s.filter(|m: ItemModel| m.board_name == b)
}

/// The completed tasks of board `b`: checked, and not a note.
pub open spec fn done_of_board(s: Seq<ItemModel>, b: Seq<char>) -> Seq<ItemModel> {
    s.filter(|m: ItemModel| m.board_name == b && m.checked && !m.is_note)
}

/// Mathematical model of one board aggregate.
pub ghost struct BoardModel {
    pub name: Seq<char>,
    pub total: int,
    pub completed: int,
    pub items: Seq<ItemModel>,
}

/// The aggregate of board `b` over the items `s`.
pub open spec fn board_model_of(s: Seq<ItemModel>, b: Seq<char>) -> BoardModel {
    BoardModel {
        name: b,
        total: items_of_board(s, b).len() as int,
        completed: done_of_board(s, b).len() as int,
        items: items_of_board(s, b),
    }
}

/// Every board aggregate of `s`: the custom boards in first-seen order,
/// then the default board, always reported and always last.
pub open spec fn boards_model(s: Seq<ItemModel>) -> Seq<BoardModel> {
    custom_board_names(s).map_values(|b: Seq<char>| board_model_of(s, b)).push(
        board_model_of(s, default_board_name()),
    )
}

/// One derived board aggregate: its name, how many items sit on it, how
/// many of them are completed tasks, and the items themselves.
pub struct Board {
    pub name: String,
    pub total: usize,
    pub completed: usize,
    pub items: Vec<Item>,
}

impl View for Board {
    type V = BoardModel;

    open spec fn view(&self) -> BoardModel {
        BoardModel {
            name: self.name@,
            total: self.total as int,
            completed: self.completed as int,
            items: models(self.items@),
        }
    }
}

/// The models of a sequence of boards.
pub open spec fn board_views(s: Seq<Board>) -> Seq<BoardModel> {
    s.map_values(|b: Board| b@)
}

/// Whether one of `names` reads `b`.
pub(crate) fn names_contain(names: &Vec<String>, b: &String) -> (r: bool)
    ensures
        r == string_views(names@).contains(b@),
{
    let mut j: usize = 0;
    while j < names.len()
        invariant
            j <= names@.len(),
            forall|w: int| 0 <= w < j ==> string_views(names@)[w] != b@,
        decreases names@.len() - j,
    {
        if names[j] == *b {
            proof {
                assert(string_views(names@)[j as int] == b@);
            }
            return true;
        }
        j = j + 1;
    }
    proof {
        if string_views(names@).contains(b@) {
            let w: int = choose|w: int|
                0 <= w < names@.len() && string_views(names@)[w] == b@;
            assert(string_views(names@)[w] != b@);
        }
    }
    false
}

/// The board names of the given items, each at its first appearance.
pub(crate) fn board_name_list(items: &Vec<Item>) -> (r: Vec<String>)
    ensures
        string_views(r@) == board_names(models(items@)),
{
    let ghost s: Seq<ItemModel> = models(items@);
    let mut r: Vec<String> = Vec::new();
    let mut i: usize = 0;
    while i < items.len()
        invariant
            i <= items@.len(),
            s == models(items@),
            string_views(r@) == board_names(models(items@.take(i as int))),
        decreases items@.len() - i,
    {
        let ghost pre: Seq<ItemModel> = models(items@.take(i as int));
        let ghost rpre: Seq<Seq<char>> = string_views(r@);
        let b = items[i].board_name.clone();
        let seen = names_contain(&r, &b);
        if !seen {
            r.push(b);
        }
        proof {
            let ext = models(items@.take(i + 1));
            assert(ext.drop_last() =~= pre);
            assert(ext.last() == items@[i as int]@);
            if !seen {
                assert(string_views(r@) =~= rpre.push(items@[i as int]@.board_name));
            }
        }
        i = i + 1;
    }
    proof {
        assert(items@.take(items@.len() as int) =~= items@);
    }
    r
}

/// The aggregate of one board: a single pass over the items.
fn aggregate_board(items: &Vec<Item>, name: &String) -> (r: Board)
    ensures
        r@ == board_model_of(models(items@), name@),
{
    let ghost s: Seq<ItemModel> = models(items@);
    let mut total: usize = 0;
    let mut completed: usize = 0;
    let mut picked: Vec<Item> = Vec::new();
    let mut i: usize = 0;
    while i < items.len()
        invariant
            i <= items@.len(),
            s == models(items@),
            models(picked@) == items_of_board(models(items@.take(i as int)), name@),
            total == items_of_board(models(items@.take(i as int)), name@).len(),
            completed == done_of_board(models(items@.take(i as int)), name@).len(),
            total <= i,
            completed <= i,
        decreases items@.len() - i,
    {
        let ghost pre: Seq<ItemModel> = models(items@.take(i as int));
        let ghost pickedpre: Seq<ItemModel> = models(picked@);
        let it = items[i].duplicate();
        let ghost itm = it@;
        let matches_board = it.board_name == *name;
        if matches_board {
            total = total + 1;
            picked.push(it.duplicate());
            if it.checked && !it.is_note {
                completed = completed + 1;
            }
        }
        proof {
            let ext = models(items@.take(i + 1));
            assert(ext.drop_last() =~= pre);
            assert(ext.last() == itm);
            reveal_with_fuel(Seq::filter, 2);
            if matches_board {
                assert(models(picked@) =~= pickedpre.push(itm));
            }
        }
        i = i + 1;
    }
    proof {
        assert(items@.take(items@.len() as int) =~= items@);
    }
    Board { name: name.clone(), total, completed, items: picked }
}

impl crate::ledger::Ledger {
    /// Groups the ledger into board aggregates: custom boards in
    /// first-seen order, then the default board, always present and
    /// always last.
    pub fn get_boards(&self) -> (r: Vec<Board>)
        ensures
            board_views(r@) == boards_model(self@),
    {
        let ghost s: Seq<ItemModel> = self@;
        let names = board_name_list(&self.items);
        let ghost allnames: Seq<Seq<char>> = string_views(names@);
        let defname = crate::default_board_string();
        let mut out: Vec<Board> = Vec::new();
        let mut n: usize = 0;
        while n < names.len()
            invariant
                n <= names@.len(),
                s == self@,
                allnames == string_views(names@),
                allnames == board_names(s),
                defname@ == default_board_name(),
                board_views(out@) == allnames.take(n as int).filter(
                    |b: Seq<char>| b != default_board_name(),
                ).map_values(|b: Seq<char>| board_model_of(s, b)),
            decreases names@.len() - n,
        {
            let ghost pre: Seq<Seq<char>> = allnames.take(n as int);
            let ghost outpre: Seq<BoardModel> = board_views(out@);
            let is_default = names[n] == defname;
            if !is_default {
                let b = aggregate_board(&self.items, &names[n]);
                out.push(b);
            }
            proof {
                let ext = allnames.take(n + 1);
                assert(ext.drop_last() =~= pre);
                assert(ext.last() == allnames[n as int]);
                reveal_with_fuel(Seq::filter, 2);
                let fpred = |b: Seq<char>| b != default_board_name();
                if !is_default {
                    assert(ext.filter(fpred) =~= pre.filter(fpred).push(allnames[n as int]));
                    assert(board_views(out@) =~= outpre.push(board_model_of(s, allnames[n as int])));
                    assert(board_views(out@) =~= ext.filter(fpred).map_values(
                        |b: Seq<char>| board_model_of(s, b),
                    ));
                } else {
                    assert(ext.filter(fpred) =~= pre.filter(fpred));
                }
            }
            n = n + 1;
        }
        let db = aggregate_board(&self.items, &defname);
        out.push(db);
        proof {
            assert(allnames.take(allnames.len() as int) =~= allnames);
            assert(board_views(out@) =~= boards_model(s));
        }
        out
    }
}

} // verus!
