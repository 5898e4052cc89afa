//! One command applied to the loaded ledger: the per-invocation state
//! machine.  The effect says which store files must be rewritten; after a
//! validation failure the ledger is unchanged and no file may be touched.

use vstd::prelude::*;

use crate::error::LedgerError;
use crate::item::{models, Item};
use crate::ledger::{
    active_after_clear, add_parts, cleared_items, delete_model, delete_ok, first_undeletable,
    first_untogglable, toggle_model, toggle_ok, Ledger,
};
use crate::resolve::{resolution, resolve, ResolutionModel};
use crate::text::string_views;

verus! {

/// One mutation command, already split off from the verb by the shell.
pub enum Command {
    /// Append a task, or a note, built from the raw tokens.
    Add { args: Vec<String>, is_note: bool },
    /// Flip the checked flag of the resolved positions.
    Toggle { tokens: Vec<String> },
    /// Remove the resolved positions.
    Delete { tokens: Vec<String> },
    /// Move every checked item to the archive.
    Clear,
}

/// What a command did: which files must be rewritten, what to append to
/// the archive, and the refusal when the command was invalid.
pub struct Effect {
    /// The items that the command moved out of the active ledger, to be
    /// appended to the archive store.
    pub archive_appendix: Vec<Item>,
    /// The active store must be rewritten.
    pub write_active: bool,
    /// The archive store must be rewritten (appended to).
    pub write_archive: bool,
    /// The refusal, when the command changed nothing.
    pub error: Option<LedgerError>,
}

impl Ledger {
    /// Applies one command.  A refused command leaves the ledger exactly
    /// as it was and asks for no file writes; a successful one says which
    /// stores to persist.
    pub fn apply(&mut self, cmd: Command) -> (e: Effect)
        ensures
            e.error is Some ==> final(self)@ == old(self)@ && !e.write_active && !e.write_archive,
            ({
                match cmd {
                    Command::Add { args, is_note } => {
                        let parts = add_parts(string_views(args@));
                        e.archive_appendix@.len() == 0 && !e.write_archive && if parts.1.len()
                            > 0 {
                            e.error is None && e.write_active && final(self)@.len() == old(
                                self,
                            )@.len() + 1 && final(self)@.take(old(self)@.len() as int) == old(
                                self,
                            )@ && final(self)@.last().content == parts.1
                                && final(self)@.last().board_name == parts.0
                                && final(self)@.last().checked == false
                                && final(self)@.last().is_note == is_note
                        } else {
                            e.error matches Some(err) && err matches LedgerError::MissingContent
                        }
                    },
                    Command::Toggle { tokens } => {
                        e.archive_appendix@.len() == 0 && !e.write_archive && (
                        match resolution(string_views(tokens@)) {
                            ResolutionModel::Positions(ps) => if toggle_ok(old(self)@, ps) {
                                e.error is None && e.write_active && final(self)@ == toggle_model(
                                    old(self)@,
                                    ps,
                                )
                            } else {
                                e.error matches Some(err) && err matches LedgerError::NotATask(p)
                                    && p == ps[first_untogglable(old(self)@, ps)]
                            },
                            ResolutionModel::BadNumber(t) => e.error matches Some(err)
                                && err matches LedgerError::InvalidNumber(u) && u@ == t,
                            ResolutionModel::BadRange(a, b) => e.error matches Some(err)
                                && err matches LedgerError::InvalidRange(x, y) && x == a && y == b,
                        })
                    },
                    Command::Delete { tokens } => {
                        e.archive_appendix@.len() == 0 && !e.write_archive && (
                        match resolution(string_views(tokens@)) {
                            ResolutionModel::Positions(ps) => if delete_ok(old(self)@, ps) {
                                e.error is None && e.write_active && final(self)@ == delete_model(
                                    old(self)@,
                                    ps,
                                )
                            } else {
                                e.error matches Some(err) && ({
                                    let p = ps[first_undeletable(old(self)@, ps)];
                                    if p == 0 {
                                        err matches LedgerError::InvalidNumber(t) && t@ == "0"@
                                    } else {
                                        err matches LedgerError::PositionOutOfRange(q) && q == p
                                    }
                                })
                            },
                            ResolutionModel::BadNumber(t) => e.error matches Some(err)
                                && err matches LedgerError::InvalidNumber(u) && u@ == t,
                            ResolutionModel::BadRange(a, b) => e.error matches Some(err)
                                && err matches LedgerError::InvalidRange(x, y) && x == a && y == b,
                        })
                    },
                    Command::Clear => {
                        e.error is None && final(self)@ == active_after_clear(old(self)@) && models(
                            e.archive_appendix@,
                        ) == cleared_items(old(self)@) && (e.write_active <==> cleared_items(
                            old(self)@,
                        ).len() > 0) && (e.write_archive <==> cleared_items(old(self)@).len() > 0)
                    },
                }
            }),
    {
        match cmd {
            Command::Add { args, is_note } => {
                match self.add(&args, is_note) {
                    Ok(_) => Effect {
                        archive_appendix: Vec::new(),
                        write_active: true,
                        write_archive: false,
                        error: None,
                    },
                    Err(err) => Effect {
                        archive_appendix: Vec::new(),
                        write_active: false,
                        write_archive: false,
                        error: Some(err),
                    },
                }
            },
            Command::Toggle { tokens } => {
                match resolve(&tokens) {
                    Err(err) => Effect {
                        archive_appendix: Vec::new(),
                        write_active: false,
                        write_archive: false,
                        error: Some(err),
                    },
                    Ok(ps) => match self.toggle(&ps) {
                        Ok(_) => Effect {
                            archive_appendix: Vec::new(),
                            write_active: true,
                            write_archive: false,
                            error: None,
                        },
                        Err(err) => Effect {
                            archive_appendix: Vec::new(),
                            write_active: false,
                            write_archive: false,
                            error: Some(err),
                        },
                    },
                }
            },
            Command::Delete { tokens } => {
                match resolve(&tokens) {
                    Err(err) => Effect {
                        archive_appendix: Vec::new(),
                        write_active: false,
                        write_archive: false,
                        error: Some(err),
                    },
                    Ok(ps) => match self.delete(&ps) {
                        Ok(_) => Effect {
                            archive_appendix: Vec::new(),
                            write_active: true,
                            write_archive: false,
                            error: None,
                        },
                        Err(err) => Effect {
                            archive_appendix: Vec::new(),
                            write_active: false,
                            write_archive: false,
                            error: Some(err),
                        },
                    },
                }
            },
            Command::Clear => {
                let moved = self.clear();
                let any = moved.len() > 0;
                Effect {
                    archive_appendix: moved,
                    write_active: any,
                    write_archive: any,
                    error: None,
                }
            },
        }
    }
}

/// The per-invocation context: the loaded ledger and the raw command-line
/// tokens, command verb first.  It replaces any ambient state: every
/// operation reads from here.
pub struct App {
    pub db: Ledger,
    pub args: Vec<String>,
}

/// The tokens that an add command reads: for a note the verb token is
/// dropped first, a task uses them all.
pub open spec fn add_tokens(args: Seq<Seq<char>>, is_note: bool) -> Seq<Seq<char>> {
    if is_note {
        if args.len() == 0 {
            args
        } else {
            args.drop_first()
        }
    } else {
        args
    }
}

impl App {
    /// Builds one item from the context's tokens and appends it to the
    /// ledger: the note verb token is skipped, a `!board` marker on the
    /// first remaining token names the board, and the rest is the text
    /// payload.  Fails with `MissingContent`, changing nothing, exactly
    /// when that payload comes out empty.
    pub fn add(&mut self, is_note: bool) -> (r: Result<(), LedgerError>)
        ensures
            final(self).args == old(self).args,
            ({
                let parts = add_parts(add_tokens(string_views(old(self).args@), is_note));
                match r {
                    Ok(_) => parts.1.len() > 0 && final(self).db@.len() == old(self).db@.len() + 1
                        && final(self).db@.take(old(self).db@.len() as int) == old(self).db@
                        && final(self).db@.last().content == parts.1
                        && final(self).db@.last().board_name == parts.0
                        && final(self).db@.last().checked == false
                        && final(self).db@.last().is_note == is_note,
                    Err(err) => err matches LedgerError::MissingContent && final(self).db@ == old(
                        self,
                    ).db@ && parts.1.len() == 0,
                }
            }),
    {
        let mut toks: Vec<String> = Vec::new();
        let start: usize = if is_note && self.args.len() > 0 {
            1
        } else {
            0
        };
        let mut i: usize = start;
        while i < self.args.len()
            invariant
                start <= i <= self.args@.len(),
                toks@.len() == i - start,
                forall|j: int| 0 <= j < toks@.len() ==> #[trigger] toks@[j]@ == self.args@[start
                    + j]@,
            decreases self.args@.len() - i,
        {
            toks.push(self.args[i].clone());
            i = i + 1;
        }
        proof {
            assert(string_views(toks@) =~= add_tokens(string_views(self.args@), is_note));
        }
        self.db.add(&toks, is_note)
    }
}

} // verus!
