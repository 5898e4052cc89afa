//! The ledger store: the authoritative ordered list of items, and the
//! mutation operations on it.
//!
//! Every operation is all-or-nothing: a validation failure leaves the
//! ledger exactly as it was, so the caller never persists a partial
//! mutation.

use vstd::prelude::*;

use crate::clock::now_string;
use crate::default_board_name;
use crate::error::LedgerError;
use crate::item::{models, Item, ItemModel};
use crate::text::{
    chars_of, contains_char, copy_range, find_char, first_index_of, join_from, join_spaces,
    remove_marks, string_of, string_views, strip_marks,
};

verus! {

/// The active ledger: an insertion-ordered sequence of items, addressed by
/// dense 1-based positions.
pub struct Ledger {
    pub items: Vec<Item>,
}

impl View for Ledger {
    type V = Seq<ItemModel>;

    open spec fn view(&self) -> Seq<ItemModel> {
        models(self.items@)
    }
}

/// How many entries of `ps` equal `x`.
pub open spec fn hits(ps: Seq<usize>, x: usize) -> nat {
    ps.filter(|p: usize| p == x).len()
}

/// Whether `ps` names position `x` an odd number of times; only then does
/// a toggle of all of `ps` change the item at `x`.
pub open spec fn odd_hits(ps: Seq<usize>, x: usize) -> bool {
    hits(ps, x) % 2 == 1
}

/// `m` with its checked flag flipped when `f` holds.
pub open spec fn flip_item(m: ItemModel, f: bool) -> ItemModel {
    ItemModel {
        content: m.content,
        checked: if f {
            !m.checked
        } else {
            m.checked
        },
        is_note: m.is_note,
        board_name: m.board_name,
        created_at: m.created_at,
    }
}

/// Position `p` can be toggled in `s`: it addresses an item, and that item
/// is a task, not a note.
pub open spec fn togglable(s: Seq<ItemModel>, p: usize) -> bool {
    1 <= p <= s.len() && !s[p - 1].is_note
}

/// Every position of `ps` can be toggled in `s`.
pub open spec fn toggle_ok(s: Seq<ItemModel>, ps: Seq<usize>) -> bool {
    forall|j: int| 0 <= j < ps.len() ==> togglable(s, #[trigger] ps[j])
}

/// The index into `ps` of the first position that cannot be toggled.
pub open spec fn first_untogglable(s: Seq<ItemModel>, ps: Seq<usize>) -> int
    decreases ps.len(),
{
    if ps.len() == 0 {
        0
    } else if !togglable(s, ps[0]) {
        0
    } else {
        1 + first_untogglable(s, ps.drop_first())
    }
}

pub proof fn lemma_first_untogglable(s: Seq<ItemModel>, ps: Seq<usize>)
    ensures
        0 <= first_untogglable(s, ps) <= ps.len(),
        first_untogglable(s, ps) < ps.len() ==> !togglable(s, ps[first_untogglable(s, ps)]),
        forall|j: int| 0 <= j < first_untogglable(s, ps) ==> togglable(s, #[trigger] ps[j]),
    decreases ps.len(),
{
    if ps.len() > 0 && togglable(s, ps[0]) {
        lemma_first_untogglable(s, ps.drop_first());
        assert forall|j: int| 0 <= j < first_untogglable(s, ps) implies togglable(
            s,
            #[trigger] ps[j],
        ) by {
            if j > 0 {
                assert(ps.drop_first()[j - 1] == ps[j]);
            }
        }
    }
}

/// The ledger after toggling every position of `ps`: an item flips exactly
/// when its position occurs an odd number of times.
pub open spec fn toggle_model(s: Seq<ItemModel>, ps: Seq<usize>) -> Seq<ItemModel> {
    Seq::new(s.len(), |i: int| flip_item(s[i], odd_hits(ps, (i + 1) as usize)))
}

/// Toggling the same set of positions twice restores every item: the
/// double toggle is the identity, whatever the positions are.
pub proof fn lemma_toggle_twice(s: Seq<ItemModel>, ps: Seq<usize>)
    ensures
        toggle_model(toggle_model(s, ps), ps) == s,
{
    assert(toggle_model(toggle_model(s, ps), ps) =~= s);
}

/// The board and the text payload of an add command.  The first token may
/// carry a `!board` marker: the marks are stripped to give the board name
/// and the rest of the tokens give the payload.  A lone first token with a
/// marker is split at its first space instead.  Without a marker the whole
/// input is the payload and the item goes on the default board.
pub open spec fn add_parts(args: Seq<Seq<char>>) -> (Seq<char>, Seq<char>) {
    if args.len() == 0 {
        (default_board_name(), Seq::<char>::empty())
    } else if args[0].contains('!') {
        if args.len() >= 2 {
            (strip_marks(args[0]), join_spaces(args.drop_first()))
        } else {
            let k = first_index_of(args[0], ' ');
            if k == args[0].len() {
                (strip_marks(args[0]), Seq::<char>::empty())
            } else {
                (strip_marks(args[0].take(k)), args[0].skip(k + 1))
            }
        }
    } else {
        (default_board_name(), join_spaces(args))
    }
}

impl Ledger {
    /// An empty ledger.
    pub fn new() -> (r: Ledger)
        ensures
            r@ == Seq::<ItemModel>::empty(),
    {
        let r = Ledger { items: Vec::new() };
        proof {
            assert(r@ =~= Seq::<ItemModel>::empty());
        }
        r
    }

    /// The number of items, which is also the highest valid position.
    pub fn len(&self) -> (r: usize)
        ensures
            r == self@.len(),
    {
        self.items.len()
    }

    /// Appends one item built from the raw add command, stamped with the
    /// given creation time.  Fails with `MissingContent`, and changes
    /// nothing, exactly when the text payload comes out empty.
    pub fn add_with_time(&mut self, args: &Vec<String>, is_note: bool, created_at: String) -> (r:
        Result<(), LedgerError>)
        ensures
            ({
                let parts = add_parts(string_views(args@));
                match r {
                    Ok(_) => parts.1.len() > 0 && final(self)@ == old(self)@.push(
                        ItemModel {
                            content: parts.1,
                            checked: false,
                            is_note: is_note,
                            board_name: parts.0,
                            created_at: created_at@,
                        },
                    ),
                    Err(e) => e matches LedgerError::MissingContent && final(self)@ == old(self)@
                        && parts.1.len() == 0,
                }
            }),
    {
        let ghost argvs: Seq<Seq<char>> = string_views(args@);
        if args.len() == 0 {
            return Err(LedgerError::MissingContent);
        }
        let board: String;
        let content: String;
        if contains_char(args[0].as_str(), '!') {
            let fv = chars_of(args[0].as_str());
            if args.len() >= 2 {
                let stripped = remove_marks(&fv, 0, fv.len());
                board = string_of(&stripped);
                content = join_from(args, 1);
                proof {
                    assert(fv@.subrange(0, fv@.len() as int) =~= argvs[0]);
                    assert(string_views(args@).skip(1) =~= argvs.drop_first());
                }
            } else {
                let k = find_char(&fv, ' ');
                proof {
                    crate::text::lemma_first_index_of(fv@, ' ');
                }
                if k == fv.len() {
                    return Err(LedgerError::MissingContent);
                }
                let stripped = remove_marks(&fv, 0, k);
                board = string_of(&stripped);
                content = string_of(&copy_range(&fv, k + 1, fv.len()));
                proof {
                    crate::text::lemma_first_index_of(argvs[0], ' ');
                    assert(fv@.subrange(0, k as int) =~= argvs[0].take(k as int));
                    assert(fv@.subrange(k + 1, fv@.len() as int) =~= argvs[0].skip(k + 1));
                }
            }
        } else {
            board = crate::default_board_string();
            content = join_from(args, 0);
            proof {
                assert(string_views(args@).skip(0) =~= argvs);
            }
        }
        if content.as_str().is_empty() {
            return Err(LedgerError::MissingContent);
        }
        let ghost before: Seq<ItemModel> = self@;
        let it = Item::new(content, is_note, board, created_at);
        let ghost itm = it@;
        self.items.push(it);
        proof {
            assert(self@ =~= before.push(itm));
        }
        Ok(())
    }

    /// Appends one item built from the raw add command, stamped with the
    /// current time.
    pub fn add(&mut self, args: &Vec<String>, is_note: bool) -> (r: Result<(), LedgerError>)
        ensures
            ({
                let parts = add_parts(string_views(args@));
                match r {
                    Ok(_) => parts.1.len() > 0 && final(self)@.len() == old(self)@.len() + 1
                        && final(self)@.take(old(self)@.len() as int) == old(self)@ && final(self)@.last().content
                        == parts.1 && final(self)@.last().board_name == parts.0 && final(self)@.last().checked
                        == false && final(self)@.last().is_note == is_note,
                    Err(e) => e matches LedgerError::MissingContent && final(self)@ == old(self)@
                        && parts.1.len() == 0,
                }
            }),
    {
        let stamp = now_string();
        let r = self.add_with_time(args, is_note, stamp);
        proof {
            if r is Ok {
                assert(self@.take(old(self)@.len() as int) =~= old(self)@);
            }
        }
        r
    }

    /// Flips the checked flag of every given position.  When any position
    /// is out of range or addresses a note, fails with `NotATask` on the
    /// first such position and changes nothing.
    pub fn toggle(&mut self, positions: &Vec<usize>) -> (r: Result<(), LedgerError>)
        ensures
            ({
                match r {
                    Ok(_) => toggle_ok(old(self)@, positions@) && final(self)@ == toggle_model(
                        old(self)@,
                        positions@,
                    ),
                    Err(e) => final(self)@ == old(self)@ && !toggle_ok(old(self)@, positions@) && (
                    e matches LedgerError::NotATask(p) && p == positions@[first_untogglable(
                        old(self)@,
                        positions@,
                    )]),
                }
            }),
    {
        let ghost s: Seq<ItemModel> = self@;
        let ghost ps: Seq<usize> = positions@;
        // Validate every position before touching any item.
        let mut k: usize = 0;
        while k < positions.len()
            invariant
                k <= ps.len(),
                s == self@,
                ps == positions@,
                forall|j: int| 0 <= j < k ==> togglable(s, #[trigger] ps[j]),
            decreases ps.len() - k,
        {
            let p = positions[k];
            let bad = p == 0 || p > self.items.len() || {
                let note = self.items[p - 1].is_note;
                note
            };
            if bad {
                proof {
                    assert(!togglable(s, p));
                    lemma_first_untogglable(s, ps);
                    let f = first_untogglable(s, ps);
                    if f < k {
                        assert(togglable(s, ps[f]));
                    } else if f > k {
                        assert(togglable(s, ps[k as int]));
                    }
                }
                return Err(LedgerError::NotATask(p));
            }
            k = k + 1;
        }
        // Rebuild the list, flipping where the position count is odd.
        let mut out: Vec<Item> = Vec::new();
        let mut i: usize = 0;
        while i < self.items.len()
            invariant
                i <= self.items@.len(),
                s == self@,
                ps == positions@,
                out@.len() == i,
                forall|j: int| 0 <= j < i ==> #[trigger] out@[j]@ == flip_item(
                    s[j],
                    odd_hits(ps, (j + 1) as usize),
                ),
            decreases self.items@.len() - i,
        {
            let c = count_hits(positions, i + 1);
            let mut it = self.items[i].duplicate();
            if c % 2 == 1 {
                it = Item {
                    content: it.content,
                    checked: !it.checked,
                    is_note: it.is_note,
                    board_name: it.board_name,
                    created_at: it.created_at,
                };
            }
            out.push(it);
            i = i + 1;
        }
        self.items = out;
        proof {
            assert(self@ =~= toggle_model(s, ps));
        }
        Ok(())
    }
}

/// Position `p` addresses an item of `s`.
pub open spec fn deletable(s: Seq<ItemModel>, p: usize) -> bool {
    1 <= p <= s.len()
}

/// Every position of `ps` addresses an item of `s`.
pub open spec fn delete_ok(s: Seq<ItemModel>, ps: Seq<usize>) -> bool {
    forall|j: int| 0 <= j < ps.len() ==> deletable(s, #[trigger] ps[j])
}

/// The index into `ps` of the first position that addresses no item.
pub open spec fn first_undeletable(s: Seq<ItemModel>, ps: Seq<usize>) -> int
    decreases ps.len(),
{
    if ps.len() == 0 {
        0
    } else if !deletable(s, ps[0]) {
        0
    } else {
        1 + first_undeletable(s, ps.drop_first())
    }
}

pub proof fn lemma_first_undeletable(s: Seq<ItemModel>, ps: Seq<usize>)
    ensures
        0 <= first_undeletable(s, ps) <= ps.len(),
        first_undeletable(s, ps) < ps.len() ==> !deletable(s, ps[first_undeletable(s, ps)]),
        forall|j: int| 0 <= j < first_undeletable(s, ps) ==> deletable(s, #[trigger] ps[j]),
    decreases ps.len(),
{
    if ps.len() > 0 && deletable(s, ps[0]) {
        lemma_first_undeletable(s, ps.drop_first());
        assert forall|j: int| 0 <= j < first_undeletable(s, ps) implies deletable(
            s,
            #[trigger] ps[j],
        ) by {
            if j > 0 {
                assert(ps.drop_first()[j - 1] == ps[j]);
            }
        }
    }
}

/// The items of `s` from index `i` on whose 1-based position is not named
/// in `ps`, in their original order.
pub open spec fn keep_from(s: Seq<ItemModel>, ps: Seq<usize>, i: int) -> Seq<ItemModel>
    decreases s.len() - i,
{
    if i < 0 || i >= s.len() {
        Seq::<ItemModel>::empty()
    } else if ps.contains((i + 1) as usize) {
        keep_from(s, ps, i + 1)
    } else {
        seq![s[i]] + keep_from(s, ps, i + 1)
    }
}

/// The ledger after deleting every position of `ps`: exactly the items
/// whose position is not named survive, keeping their order, so positions
/// stay dense.
pub open spec fn delete_model(s: Seq<ItemModel>, ps: Seq<usize>) -> Seq<ItemModel> {
    keep_from(s, ps, 0)
}

proof fn lemma_keep_from_same(s: Seq<ItemModel>, ps1: Seq<usize>, ps2: Seq<usize>, i: int)
    requires
        forall|x: usize| #[trigger] ps1.contains(x) <==> ps2.contains(x),
    ensures
        keep_from(s, ps1, i) == keep_from(s, ps2, i),
    decreases s.len() - i,
{
    if 0 <= i < s.len() {
        lemma_keep_from_same(s, ps1, ps2, i + 1);
    }
}

/// Deletion depends only on which positions are named, not on their order
/// or on how often they repeat: two position lists naming the same set
/// delete the same items.
pub proof fn lemma_delete_same_positions(s: Seq<ItemModel>, ps1: Seq<usize>, ps2: Seq<usize>)
    requires
        forall|x: usize| #[trigger] ps1.contains(x) <==> ps2.contains(x),
    ensures
        delete_model(s, ps1) == delete_model(s, ps2),
{
    lemma_keep_from_same(s, ps1, ps2, 0);
}

/// The items that survive a clear: every unchecked one, in order.
pub open spec fn active_after_clear(s: Seq<ItemModel>) -> Seq<ItemModel> {
    s.filter(|m: ItemModel| !m.checked)
}

/// The items that a clear moves to the archive: every checked one, in
/// order.
pub open spec fn cleared_items(s: Seq<ItemModel>) -> Seq<ItemModel> {
    s.filter(|m: ItemModel| m.checked)
}

proof fn lemma_unchecked_clears_nothing(s: Seq<ItemModel>)
    requires
        forall|i: int| 0 <= i < s.len() ==> !(#[trigger] s[i]).checked,
    ensures
        cleared_items(s) == Seq::<ItemModel>::empty(),
    decreases s.len(),
{
    reveal_with_fuel(Seq::filter, 2);
    if s.len() > 0 {
        assert forall|i: int| 0 <= i < s.drop_last().len() implies !(
        #[trigger] s.drop_last()[i]).checked by {
            assert(s.drop_last()[i] == s[i]);
        }
        lemma_unchecked_clears_nothing(s.drop_last());
    } else {
        assert(cleared_items(s) =~= Seq::<ItemModel>::empty());
    }
}

/// Clearing is exhausting: after one clear nothing checked remains, so a
/// second clear moves nothing and leaves the ledger as it is.
pub proof fn lemma_clear_twice(s: Seq<ItemModel>)
    ensures
        cleared_items(active_after_clear(s)) == Seq::<ItemModel>::empty(),
        active_after_clear(active_after_clear(s)) == active_after_clear(s),
    decreases s.len(),
{
    let a = active_after_clear(s);
    assert forall|i: int| 0 <= i < a.len() implies !(#[trigger] a[i]).checked by {
        s.lemma_filter_pred(|m: ItemModel| !m.checked, i);
    }
    lemma_unchecked_clears_nothing(a);
    lemma_no_checked_keeps_all(a);
}

proof fn lemma_no_checked_keeps_all(s: Seq<ItemModel>)
    requires
        forall|i: int| 0 <= i < s.len() ==> !(#[trigger] s[i]).checked,
    ensures
        active_after_clear(s) == s,
    decreases s.len(),
{
    reveal_with_fuel(Seq::filter, 2);
    if s.len() > 0 {
        assert forall|i: int| 0 <= i < s.drop_last().len() implies !(
        #[trigger] s.drop_last()[i]).checked by {
            assert(s.drop_last()[i] == s[i]);
        }
        lemma_no_checked_keeps_all(s.drop_last());
        assert(active_after_clear(s) =~= s);
    } else {
        assert(active_after_clear(s) =~= s);
    }
}

impl Ledger {
    /// Removes every named position, interpreting all of them against the
    /// ledger as it stands now; survivors keep their order and are
    /// renumbered densely.  When any position is out of range the ledger
    /// is left unchanged: position zero fails as an invalid number, one
    /// beyond the end as out of range, each reported for the first
    /// offending entry.
    pub fn delete(&mut self, positions: &Vec<usize>) -> (r: Result<(), LedgerError>)
        ensures
            ({
                match r {
                    Ok(_) => delete_ok(old(self)@, positions@) && final(self)@ == delete_model(
                        old(self)@,
                        positions@,
                    ),
                    Err(e) => final(self)@ == old(self)@ && !delete_ok(old(self)@, positions@)
                        && ({
                        let p = positions@[first_undeletable(old(self)@, positions@)];
                        if p == 0 {
                            e matches LedgerError::InvalidNumber(t) && t@ == "0"@
                        } else {
                            e matches LedgerError::PositionOutOfRange(q) && q == p
                        }
                    }),
                }
            }),
    {
        let ghost s: Seq<ItemModel> = self@;
        let ghost ps: Seq<usize> = positions@;
        // Validate every position before touching any item.
        let mut k: usize = 0;
        while k < positions.len()
            invariant
                k <= ps.len(),
                s == self@,
                ps == positions@,
                forall|j: int| 0 <= j < k ==> deletable(s, #[trigger] ps[j]),
            decreases ps.len() - k,
        {
            let p = positions[k];
            if p == 0 || p > self.items.len() {
                proof {
                    assert(!deletable(s, p));
                    lemma_first_undeletable(s, ps);
                    let f = first_undeletable(s, ps);
                    if f < k {
                        assert(deletable(s, ps[f]));
                    } else if f > k {
                        assert(deletable(s, ps[k as int]));
                    }
                }
                if p == 0 {
                    return Err(LedgerError::InvalidNumber("0".to_owned()));
                }
                return Err(LedgerError::PositionOutOfRange(p));
            }
            k = k + 1;
        }
        // Keep exactly the items whose position is not named.
        let mut out: Vec<Item> = Vec::new();
        let mut i: usize = 0;
        while i < self.items.len()
            invariant
                i <= self.items@.len(),
                s == self@,
                ps == positions@,
                models(out@) + keep_from(s, ps, i as int) == delete_model(s, ps),
            decreases self.items@.len() - i,
        {
            let ghost outpre: Seq<ItemModel> = models(out@);
            if !contains_pos(positions, i + 1) {
                let it = self.items[i].duplicate();
                out.push(it);
                proof {
                    assert(models(out@) =~= outpre.push(s[i as int]));
                    assert(outpre.push(s[i as int]) + keep_from(s, ps, i + 1) =~= outpre + (seq![
                        s[i as int],
                    ] + keep_from(s, ps, i + 1)));
                }
            }
            i = i + 1;
        }
        proof {
            assert(models(out@) + keep_from(s, ps, s.len() as int) =~= models(out@));
        }
        self.items = out;
        Ok(())
    }

    /// Moves every checked item out of the ledger, in order, and returns
    /// them for the caller to append to the archive; the unchecked items
    /// remain, in order.  An empty result means nothing was checked and no
    /// file needs writing.
    pub fn clear(&mut self) -> (moved: Vec<Item>)
        ensures
            final(self)@ == active_after_clear(old(self)@),
            models(moved@) == cleared_items(old(self)@),
    {
        let ghost s: Seq<ItemModel> = self@;
        let mut kept: Vec<Item> = Vec::new();
        let mut moved: Vec<Item> = Vec::new();
        let mut i: usize = 0;
        while i < self.items.len()
            invariant
                i <= self.items@.len(),
                s == self@,
                models(kept@) == active_after_clear(s.take(i as int)),
                models(moved@) == cleared_items(s.take(i as int)),
            decreases self.items@.len() - i,
        {
            let ghost pre: Seq<ItemModel> = s.take(i as int);
            let ghost keptpre: Seq<ItemModel> = models(kept@);
            let ghost movedpre: Seq<ItemModel> = models(moved@);
            let it = self.items[i].duplicate();
            let ghost itm = it@;
            if it.checked {
                moved.push(it);
            } else {
                kept.push(it);
            }
            proof {
                let ext = s.take(i + 1);
                assert(ext.drop_last() =~= pre);
                assert(ext.last() == itm);
                reveal_with_fuel(Seq::filter, 2);
                if itm.checked {
                    assert(models(moved@) =~= movedpre.push(itm));
                } else {
                    assert(models(kept@) =~= keptpre.push(itm));
                }
            }
            i = i + 1;
        }
        proof {
            assert(s.take(s.len() as int) =~= s);
        }
        self.items = kept;
        moved
    }
}

/// The notes among `s`.
pub open spec fn notes_of(s: Seq<ItemModel>) -> Seq<ItemModel> {
    s.filter(|m: ItemModel| m.is_note)
}

/// The completed tasks among `s`: checked and not a note.
pub open spec fn checked_tasks_of(s: Seq<ItemModel>) -> Seq<ItemModel> {
    s.filter(|m: ItemModel| m.checked && !m.is_note)
}

impl Ledger {
    /// How many items are notes.
    pub fn total_notes(&self) -> (r: usize)
        ensures
            r == notes_of(self@).len(),
    {
        let mut cnt: usize = 0;
        let mut i: usize = 0;
        while i < self.items.len()
            invariant
                i <= self.items@.len(),
                cnt == notes_of(self@.take(i as int)).len(),
                cnt <= i,
            decreases self.items@.len() - i,
        {
            let ghost pre: Seq<ItemModel> = self@.take(i as int);
            proof {
                let ext = self@.take(i + 1);
                assert(ext.drop_last() =~= pre);
                assert(ext.last() == self.items@[i as int]@);
                reveal_with_fuel(Seq::filter, 2);
            }
            if self.items[i].is_note {
                cnt = cnt + 1;
            }
            i = i + 1;
        }
        proof {
            assert(self@.take(self@.len() as int) =~= self@);
        }
        cnt
    }

    /// How many items are completed tasks: checked and not a note.
    pub fn total_checked(&self) -> (r: usize)
        ensures
            r == checked_tasks_of(self@).len(),
    {
        let mut cnt: usize = 0;
        let mut i: usize = 0;
        while i < self.items.len()
            invariant
                i <= self.items@.len(),
                cnt == checked_tasks_of(self@.take(i as int)).len(),
                cnt <= i,
            decreases self.items@.len() - i,
        {
            let ghost pre: Seq<ItemModel> = self@.take(i as int);
            proof {
                let ext = self@.take(i + 1);
                assert(ext.drop_last() =~= pre);
                assert(ext.last() == self.items@[i as int]@);
                reveal_with_fuel(Seq::filter, 2);
            }
            if self.items[i].checked && !self.items[i].is_note {
                cnt = cnt + 1;
            }
            i = i + 1;
        }
        proof {
            assert(self@.take(self@.len() as int) =~= self@);
        }
        cnt
    }

    /// How many items are tasks rather than notes.
    pub fn total_tasks(&self) -> (r: usize)
        ensures
            r == self@.len() - notes_of(self@).len(),
    {
        proof {
            self@.lemma_filter_len(|m: ItemModel| m.is_note);
        }
        let notes = self.total_notes();
        self.items.len() - notes
    }
}

/// The items of each named board, in the order the names are given,
/// concatenated.
pub open spec fn boards_concat(s: Seq<ItemModel>, names: Seq<Seq<char>>) -> Seq<ItemModel>
    decreases names.len(),
{
    if names.len() == 0 {
        Seq::<ItemModel>::empty()
    } else {
        crate::boards::items_of_board(s, names[0]) + boards_concat(s, names.drop_first())
    }
}

proof fn lemma_boards_concat_push(s: Seq<ItemModel>, names: Seq<Seq<char>>, b: Seq<char>)
    ensures
        boards_concat(s, names.push(b)) == boards_concat(s, names) + crate::boards::items_of_board(
            s,
            b,
        ),
    decreases names.len(),
{
    if names.len() == 0 {
        assert(names.push(b)[0] == b);
        assert(names.push(b).drop_first() =~= Seq::<Seq<char>>::empty());
        assert(boards_concat(s, Seq::<Seq<char>>::empty()) == Seq::<ItemModel>::empty());
        assert(boards_concat(s, names.push(b)) =~= crate::boards::items_of_board(s, b));
        assert(boards_concat(s, names) + crate::boards::items_of_board(s, b)
            =~= crate::boards::items_of_board(s, b));
    } else {
        lemma_boards_concat_push(s, names.drop_first(), b);
        assert(names.push(b).drop_first() =~= names.drop_first().push(b));
        assert(names.push(b)[0] == names[0]);
        assert(boards_concat(s, names.push(b)) =~= boards_concat(s, names)
            + crate::boards::items_of_board(s, b));
    }
}

/// The ledger in storage order: the default board's items first, then each
/// custom board's items, boards in first-seen order, every item keeping
/// its place within its board.
pub open spec fn sorted_model(s: Seq<ItemModel>) -> Seq<ItemModel> {
    crate::boards::items_of_board(s, default_board_name()) + boards_concat(
        s,
        crate::boards::custom_board_names(s),
    )
}

/// Two item sequences are content-equal when they list the same text
/// payloads in the same order; board, state and date do not take part.
pub open spec fn contents_equal(a: Seq<ItemModel>, b: Seq<ItemModel>) -> bool {
    a.len() == b.len() && forall|i: int|
        0 <= i < a.len() ==> (#[trigger] a[i]).content == b[i].content
}

/// Whether the two item lists carry the same text payloads in the same
/// order.
fn contents_match(a: &Vec<Item>, b: &Vec<Item>) -> (r: bool)
    ensures
        r == contents_equal(models(a@), models(b@)),
{
    if a.len() != b.len() {
        return false;
    }
    let mut i: usize = 0;
    while i < a.len()
        invariant
            i <= a@.len(),
            a@.len() == b@.len(),
            forall|j: int| 0 <= j < i ==> (#[trigger] models(a@)[j]).content == models(b@)[j].content,
        decreases a@.len() - i,
    {
        if !(a[i].content == b[i].content) {
            proof {
                assert(models(a@)[i as int].content == a@[i as int].content@);
                assert(models(b@)[i as int].content == b@[i as int].content@);
            }
            return false;
        }
        i = i + 1;
    }
    true
}

impl Ledger {
    /// Reorders the ledger into storage order: default-board items first,
    /// then the custom boards in first-seen order, each board's items
    /// keeping their relative order.  Returns whether the content list
    /// changed, which is when the store file needs rewriting.
    pub fn sort_on_load(&mut self) -> (changed: bool)
        ensures
            final(self)@ == sorted_model(old(self)@),
            changed == !contents_equal(old(self)@, final(self)@),
    {
        let ghost s: Seq<ItemModel> = self@;
        let names = crate::boards::board_name_list(&self.items);
        let ghost allnames: Seq<Seq<char>> = string_views(names@);
        let defname = crate::default_board_string();
        let mut out: Vec<Item> = Vec::new();
        // The default board's items, in order.
        let mut i: usize = 0;
        while i < self.items.len()
            invariant
                i <= self.items@.len(),
                s == self@,
                defname@ == default_board_name(),
                models(out@) == crate::boards::items_of_board(
                    models(self.items@.take(i as int)),
                    default_board_name(),
                ),
            decreases self.items@.len() - i,
        {
            let ghost pre: Seq<ItemModel> = models(self.items@.take(i as int));
            let ghost outpre: Seq<ItemModel> = models(out@);
            let it = self.items[i].duplicate();
            let ghost itm = it@;
            let matches_default = it.board_name == defname;
            if matches_default {
                out.push(it);
            }
            proof {
                let ext = models(self.items@.take(i + 1));
                assert(ext.drop_last() =~= pre);
                assert(ext.last() == itm);
                reveal_with_fuel(Seq::filter, 2);
                if matches_default {
                    assert(models(out@) =~= outpre.push(itm));
                }
            }
            i = i + 1;
        }
        proof {
            assert(self.items@.take(self.items@.len() as int) =~= self.items@);
        }
        // Then each custom board, boards in first-seen order.
        let ghost fpred = |b: Seq<char>| b != default_board_name();
        let mut n: usize = 0;
        while n < names.len()
            invariant
                n <= names@.len(),
                s == self@,
                allnames == string_views(names@),
                allnames == crate::boards::board_names(s),
                defname@ == default_board_name(),
                fpred == (|b: Seq<char>| b != default_board_name()),
                models(out@) == crate::boards::items_of_board(s, default_board_name())
                    + boards_concat(s, allnames.take(n as int).filter(fpred)),
            decreases names@.len() - n,
        {
            let ghost pre: Seq<Seq<char>> = allnames.take(n as int);
            let ghost base: Seq<ItemModel> = models(out@);
            let is_default = names[n] == defname;
            if !is_default {
                let ghost bview: Seq<char> = names@[n as int]@;
                let mut j: usize = 0;
                while j < self.items.len()
                    invariant
                        j <= self.items@.len(),
                        s == self@,
                        n < names@.len(),
                        bview == names@[n as int]@,
                        base == models(out@).take(base.len() as int),
                        models(out@) == base + crate::boards::items_of_board(
                            models(self.items@.take(j as int)),
                            bview,
                        ),
                    decreases self.items@.len() - j,
                {
                    let ghost prej: Seq<ItemModel> = models(self.items@.take(j as int));
                    let ghost outpre: Seq<ItemModel> = models(out@);
                    let it = self.items[j].duplicate();
                    let ghost itm = it@;
                    let matches_board = it.board_name == names[n];
                    if matches_board {
                        out.push(it);
                    }
                    proof {
                        let ext = models(self.items@.take(j + 1));
                        assert(ext.drop_last() =~= prej);
                        assert(ext.last() == itm);
                        reveal_with_fuel(Seq::filter, 2);
                        if matches_board {
                            assert(models(out@) =~= outpre.push(itm));
                            assert(outpre.push(itm) =~= base + crate::boards::items_of_board(
                                ext,
                                bview,
                            ));
                        }
                        assert(models(out@).take(base.len() as int) =~= base);
                    }
                    j = j + 1;
                }
                proof {
                    assert(self.items@.take(self.items@.len() as int) =~= self.items@);
                }
            }
            proof {
                let ext = allnames.take(n + 1);
                assert(ext.drop_last() =~= pre);
                assert(ext.last() == allnames[n as int]);
                reveal_with_fuel(Seq::filter, 2);
                if !is_default {
                    assert(allnames[n as int] == names@[n as int]@);
                    assert(ext.filter(fpred) =~= pre.filter(fpred).push(allnames[n as int]));
                    lemma_boards_concat_push(s, pre.filter(fpred), allnames[n as int]);
                    assert(models(out@) =~= crate::boards::items_of_board(
                        s,
                        default_board_name(),
                    ) + boards_concat(s, ext.filter(fpred)));
                } else {
                    assert(ext.filter(fpred) =~= pre.filter(fpred));
                }
            }
            n = n + 1;
        }
        proof {
            assert(allnames.take(allnames.len() as int) =~= allnames);
        }
        let changed = !contents_match(&self.items, &out);
        self.items = out;
        changed
    }
}

/// Whether `ps` names position `x`.
fn contains_pos(ps: &Vec<usize>, x: usize) -> (r: bool)
    ensures
        r == ps@.contains(x),
{
    let mut j: usize = 0;
    while j < ps.len()
        invariant
            j <= ps@.len(),
            forall|w: int| 0 <= w < j ==> ps@[w] != x,
        decreases ps@.len() - j,
    {
        if ps[j] == x {
            return true;
        }
        j = j + 1;
    }
    proof {
        if ps@.contains(x) {
            let w: int = choose|w: int| 0 <= w < ps@.len() && ps@[w] == x;
            assert(ps@[w] != x);
        }
    }
    false
}

/// How often `target` occurs in `ps`.
fn count_hits(ps: &Vec<usize>, target: usize) -> (r: usize)
    ensures
        r == hits(ps@, target),
{
    let mut cnt: usize = 0;
    let mut j: usize = 0;
    while j < ps.len()
        invariant
            j <= ps@.len(),
            cnt <= j,
            cnt == hits(ps@.take(j as int), target),
        decreases ps@.len() - j,
    {
        let ghost pre: Seq<usize> = ps@.take(j as int);
        let ghost ext: Seq<usize> = ps@.take(j + 1);
        proof {
            assert(ext.drop_last() =~= pre);
            assert(ext.last() == ps@[j as int]);
            reveal_with_fuel(Seq::filter, 2);
        }
        if ps[j] == target {
            cnt = cnt + 1;
        }
        j = j + 1;
    }
    proof {
        assert(ps@.take(ps@.len() as int) =~= ps@);
    }
    cnt
}

} // verus!
