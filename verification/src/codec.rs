//! The text codec for the two store files.
//!
//! A store document is a sequence of records, one per item:
//!
//! ```text
//! [[tasks]]
//! item = "the text payload"
//! checked = false
//! board_name = "Tasks"
//! note = false
//! date = "2024-01-01 12:00:00"
//! ```
//!
//! String values are quoted; a backslash escapes the backslash itself, the
//! quote, and the newline, tab and return characters.  The reader accepts
//! exactly what the writer emits: anything else is a corrupt store, and an
//! empty document is an empty ledger.

use vstd::prelude::*;

use crate::error::LedgerError;
use crate::item::{models, Item, ItemModel};
use crate::text::{chars_of, push_char, string_of};

verus! {

/// The record header line.
pub open spec fn header_text() -> Seq<char> {
    "[[tasks]]\n"@
}

/// The key and opening quote of the payload field.
pub open spec fn item_key() -> Seq<char> {
    "item = \""@
}

/// The closing quote and line end of a string field.
pub open spec fn quote_nl() -> Seq<char> {
    "\"\n"@
}

/// The checked field, set.
pub open spec fn checked_true_line() -> Seq<char> {
    "checked = true\n"@
}

/// The checked field, clear.
pub open spec fn checked_false_line() -> Seq<char> {
    "checked = false\n"@
}

/// The key and opening quote of the board field.
pub open spec fn board_key() -> Seq<char> {
    "board_name = \""@
}

/// The note field, set.
pub open spec fn note_true_line() -> Seq<char> {
    "note = true\n"@
}

/// The note field, clear.
pub open spec fn note_false_line() -> Seq<char> {
    "note = false\n"@
}

/// The key and opening quote of the date field.
pub open spec fn date_key() -> Seq<char> {
    "date = \""@
}

/// How one character is written inside a quoted value.
pub open spec fn escape_char(c: char) -> Seq<char> {
    if c == '\\' {
        seq!['\\', '\\']
    } else if c == '"' {
        seq!['\\', '"']
    } else if c == '\n' {
        seq!['\\', 'n']
    } else if c == '\t' {
        seq!['\\', 't']
    } else if c == '\r' {
        seq!['\\', 'r']
    } else {
        seq![c]
    }
}

/// A value as it is written inside quotes: every character escaped.
pub open spec fn escape(s: Seq<char>) -> Seq<char>
    decreases s.len(),
{
    if s.len() == 0 {
        Seq::<char>::empty()
    } else {
        escape_char(s[0]) + escape(s.drop_first())
    }
}

/// The character an escape pair stands for, if the pair is legal.
pub open spec fn unescape_char(c: char) -> Option<char> {
    if c == '\\' {
        Some('\\')
    } else if c == '"' {
        Some('"')
    } else if c == 'n' {
        Some('\n')
    } else if c == 't' {
        Some('\t')
    } else if c == 'r' {
        Some('\r')
    } else {
        None
    }
}

proof fn lemma_escape_push(s: Seq<char>, c: char)
    ensures
        escape(s.push(c)) == escape(s) + escape_char(c),
    decreases s.len(),
{
    if s.len() == 0 {
        assert(s.push(c)[0] == c);
        assert(s.push(c).drop_first() =~= Seq::<char>::empty());
        assert(escape(Seq::<char>::empty()) == Seq::<char>::empty());
        assert(escape(s.push(c)) == escape_char(c) + escape(Seq::<char>::empty()));
        assert(escape(s.push(c)) =~= escape(s) + escape_char(c));
    } else {
        lemma_escape_push(s.drop_first(), c);
        assert(s.push(c).drop_first() =~= s.drop_first().push(c));
        assert(s.push(c)[0] == s[0]);
        assert(escape(s.push(c)) =~= escape(s) + escape_char(c));
    }
}

/// Writes the characters of `v` in escaped form.
fn escape_exec(v: &Vec<char>) -> (r: Vec<char>)
    ensures
        r@ == escape(v@),
{
    let mut r: Vec<char> = Vec::new();
    let mut i: usize = 0;
    while i < v.len()
        invariant
            i <= v@.len(),
            r@ == escape(v@.take(i as int)),
        decreases v@.len() - i,
    {
        let ghost pre: Seq<char> = v@.take(i as int);
        let ghost rpre: Seq<char> = r@;
        let c = v[i];
        if c == '\\' {
            r.push('\\');
            r.push('\\');
        } else if c == '"' {
            r.push('\\');
            r.push('"');
        } else if c == '\n' {
            r.push('\\');
            r.push('n');
        } else if c == '\t' {
            r.push('\\');
            r.push('t');
        } else if c == '\r' {
            r.push('\\');
            r.push('r');
        } else {
            r.push(c);
        }
        proof {
            lemma_escape_push(pre, c);
            assert(v@.take(i + 1) =~= pre.push(c));
            assert(r@ =~= rpre + escape_char(c));
        }
        i = i + 1;
    }
    proof {
        assert(v@.take(v@.len() as int) =~= v@);
    }
    r
}

/// Reads a quoted value from the front of `s`, up to and over the closing
/// quote: the value read and what follows the quote.  Fails on a raw
/// newline, an unknown escape pair, or when the quote never comes.
pub open spec fn parse_string(s: Seq<char>) -> Option<(Seq<char>, Seq<char>)>
    decreases s.len(),
{
    if s.len() == 0 {
        None
    } else if s[0] == '"' {
        Some((Seq::<char>::empty(), s.drop_first()))
    } else if s[0] == '\\' {
        if s.len() < 2 {
            None
        } else {
            match unescape_char(s[1]) {
                None => None,
                Some(u) => match parse_string(s.skip(2)) {
                    None => None,
                    Some(p) => Some((seq![u] + p.0, p.1)),
                },
            }
        }
    } else if s[0] == '\n' {
        None
    } else {
        match parse_string(s.drop_first()) {
            None => None,
            Some(p) => Some((seq![s[0]] + p.0, p.1)),
        }
    }
}

/// Reading back an escaped value finds exactly the value: the quoted form
/// of any text round-trips.
pub proof fn lemma_parse_string_escape(v: Seq<char>, rest: Seq<char>)
    ensures
        parse_string(escape(v) + seq!['"'] + rest) == Some((v, rest)),
    decreases v.len(),
{
    let s = escape(v) + seq!['"'] + rest;
    if v.len() == 0 {
        assert(s[0] == '"');
        assert(s.drop_first() =~= rest);
        assert(v =~= Seq::<char>::empty());
    } else {
        lemma_parse_string_escape(v.drop_first(), rest);
        let tail = escape(v.drop_first()) + seq!['"'] + rest;
        let c = v[0];
        if c == '\\' || c == '"' || c == '\n' || c == '\t' || c == '\r' {
            assert(escape_char(c).len() == 2);
            assert(s[0] == '\\');
            assert(s[1] == escape_char(c)[1]);
            assert(unescape_char(escape_char(c)[1]) == Some(c));
            assert(s.skip(2) =~= tail);
            assert(seq![c] + v.drop_first() =~= v);
        } else {
            assert(s[0] == c);
            assert(s.drop_first() =~= tail);
            assert(seq![c] + v.drop_first() =~= v);
        }
    }
}

/// Reads a quoted value starting at `i`, which sits just after the opening
/// quote; gives the value and the index just past the closing quote.
fn parse_string_at(v: &Vec<char>, i: usize) -> (r: Option<(Vec<char>, usize)>)
    requires
        i <= v@.len(),
    ensures
        match r {
            Some(p) => i < p.1 <= v@.len() && parse_string(v@.skip(i as int)) == Some(
                (p.0@, v@.skip(p.1 as int)),
            ),
            None => parse_string(v@.skip(i as int)) is None,
        },
{
    let mut val: Vec<char> = Vec::new();
    let mut j: usize = i;
    proof {
        match parse_string(v@.skip(i as int)) {
            Some(p) => {
                assert(val@ + p.0 =~= p.0);
            },
            None => {},
        }
    }
    loop
        invariant_except_break
            i <= j <= v@.len(),
            parse_string(v@.skip(i as int)) == (match parse_string(v@.skip(j as int)) {
                Some(p) => Some((val@ + p.0, p.1)),
                None => None,
            }),
        ensures
            i < j <= v@.len(),
            parse_string(v@.skip(i as int)) == Some((val@, v@.skip(j as int))),
        decreases v@.len() - j,
    {
        let ghost cur: Seq<char> = v@.skip(j as int);
        if j == v.len() {
            proof {
                assert(cur.len() == 0);
            }
            return None;
        }
        let c = v[j];
        proof {
            assert(cur[0] == v@[j as int]);
        }
        if c == '"' {
            proof {
                assert(cur.drop_first() =~= v@.skip(j + 1));
                assert(val@ + Seq::<char>::empty() =~= val@);
            }
            j = j + 1;
            break ;
        } else if c == '\\' {
            if j + 1 == v.len() {
                proof {
                    assert(cur.len() < 2);
                }
                return None;
            }
            let e = v[j + 1];
            proof {
                assert(cur[1] == v@[j + 1]);
            }
            let u: char;
            if e == '\\' {
                u = '\\';
            } else if e == '"' {
                u = '"';
            } else if e == 'n' {
                u = '\n';
            } else if e == 't' {
                u = '\t';
            } else if e == 'r' {
                u = '\r';
            } else {
                proof {
                    assert(unescape_char(e) is None);
                }
                return None;
            }
            let ghost valpre: Seq<char> = val@;
            val.push(u);
            proof {
                assert(unescape_char(cur[1]) == Some(u));
                assert(cur.skip(2) =~= v@.skip(j + 2));
                assert(valpre.push(u) =~= valpre + seq![u]);
                match parse_string(v@.skip(j + 2)) {
                    Some(p) => {
                        assert(valpre + (seq![u] + p.0) =~= val@ + p.0);
                    },
                    None => {},
                }
            }
            j = j + 2;
        } else if c == '\n' {
            return None;
        } else {
            let ghost valpre: Seq<char> = val@;
            val.push(c);
            proof {
                assert(cur.drop_first() =~= v@.skip(j + 1));
                assert(valpre.push(c) =~= valpre + seq![c]);
                match parse_string(v@.skip(j + 1)) {
                    Some(p) => {
                        assert(valpre + (seq![c] + p.0) =~= val@ + p.0);
                    },
                    None => {},
                }
            }
            j = j + 1;
        }
    }
    Some((val, j))
}

/// A line end on its own.
pub open spec fn nl_text() -> Seq<char> {
    "\n"@
}

/// Consumes the exact prefix `p` of `s`, or fails.
pub open spec fn expect(s: Seq<char>, p: Seq<char>) -> Option<Seq<char>> {
    if p.len() <= s.len() && s.take(p.len() as int) == p {
        Some(s.skip(p.len() as int))
    } else {
        None
    }
}

/// Consumes one whole boolean field line, written as `tline` for true and
/// as `fline` for false.
pub open spec fn parse_bool(s: Seq<char>, tline: Seq<char>, fline: Seq<char>) -> Option<
    (bool, Seq<char>),
> {
    match expect(s, tline) {
        Some(r) => Some((true, r)),
        None => match expect(s, fline) {
            Some(r) => Some((false, r)),
            None => None,
        },
    }
}

/// Reads one record from the front of `s`: the item and what follows.
pub open spec fn parse_block(s: Seq<char>) -> Option<(ItemModel, Seq<char>)> {
    match expect(s, header_text()) {
        None => None,
        Some(s1) => match expect(s1, item_key()) {
            None => None,
            Some(s2) => match parse_string(s2) {
                None => None,
                Some(pc) => match expect(pc.1, nl_text()) {
                    None => None,
                    Some(s3) => match parse_bool(s3, checked_true_line(), checked_false_line()) {
                        None => None,
                        Some(pb) => match expect(pb.1, board_key()) {
                            None => None,
                            Some(s4) => match parse_string(s4) {
                                None => None,
                                Some(pn) => match expect(pn.1, nl_text()) {
                                    None => None,
                                    Some(s5) => match parse_bool(
                                        s5,
                                        note_true_line(),
                                        note_false_line(),
                                    ) {
                                        None => None,
                                        Some(pq) => match expect(pq.1, date_key()) {
                                            None => None,
                                            Some(s6) => match parse_string(s6) {
                                                None => None,
                                                Some(pd) => match expect(pd.1, nl_text()) {
                                                    None => None,
                                                    Some(s7) => Some(
                                                        (
                                                            ItemModel {
                                                                content: pc.0,
                                                                checked: pb.0,
                                                                is_note: pq.0,
                                                                board_name: pn.0,
                                                                created_at: pd.0,
                                                            },
                                                            s7,
                                                        ),
                                                    ),
                                                },
                                            },
                                        },
                                    },
                                },
                            },
                        },
                    },
                },
            },
        },
    }
}

/// Reads a whole document: every record in order, or nothing when any
/// part of the text fails to parse.  The empty document is the empty
/// ledger.
pub open spec fn parse_items(s: Seq<char>) -> Option<Seq<ItemModel>>
    decreases s.len(),
{
    if s.len() == 0 {
        Some(Seq::<ItemModel>::empty())
    } else {
        match parse_block(s) {
            None => None,
            Some(p) => if p.1.len() < s.len() {
                match parse_items(p.1) {
                    None => None,
                    Some(tail) => Some(seq![p.0] + tail),
                }
            } else {
                None
            },
        }
    }
}

/// One record as it is written.
pub open spec fn render_block(m: ItemModel) -> Seq<char> {
    header_text() + item_key() + escape(m.content) + quote_nl() + (if m.checked {
        checked_true_line()
    } else {
        checked_false_line()
    }) + board_key() + escape(m.board_name) + quote_nl() + (if m.is_note {
        note_true_line()
    } else {
        note_false_line()
    }) + date_key() + escape(m.created_at) + quote_nl()
}

/// A whole document as it is written: every record in order.
pub open spec fn render_model(items: Seq<ItemModel>) -> Seq<char>
    decreases items.len(),
{
    if items.len() == 0 {
        Seq::<char>::empty()
    } else {
        render_block(items[0]) + render_model(items.drop_first())
    }
}

proof fn lemma_expect_prefix(p: Seq<char>, rest: Seq<char>)
    ensures
        expect(p + rest, p) == Some(rest),
{
    let s = p + rest;
    assert(s.take(p.len() as int) =~= p);
    assert(s.skip(p.len() as int) =~= rest);
}

proof fn lemma_expect_mismatch(s: Seq<char>, p: Seq<char>, k: int)
    requires
        0 <= k < p.len(),
        k < s.len(),
        s[k] != p[k],
    ensures
        expect(s, p) is None,
{
    if p.len() <= s.len() {
        assert(s.take(p.len() as int)[k] == s[k]);
    }
}

proof fn lemma_strlits()
    ensures
        header_text().len() == 10,
        item_key().len() == 8,
        quote_nl() == seq!['"'] + nl_text(),
        checked_true_line().len() == 15,
        checked_false_line().len() == 16,
        checked_true_line()[10] == 't',
        checked_false_line()[10] == 'f',
        note_true_line().len() == 12,
        note_false_line().len() == 13,
        note_true_line()[7] == 't',
        note_false_line()[7] == 'f',
        board_key().len() == 14,
        date_key().len() == 8,
        nl_text().len() == 1,
{
    reveal_strlit("[[tasks]]\n");
    reveal_strlit("item = \"");
    reveal_strlit("\"\n");
    reveal_strlit("checked = true\n");
    reveal_strlit("checked = false\n");
    reveal_strlit("board_name = \"");
    reveal_strlit("note = true\n");
    reveal_strlit("note = false\n");
    reveal_strlit("date = \"");
    reveal_strlit("\n");
    assert(quote_nl() =~= seq!['"'] + nl_text());
}

proof fn lemma_parse_bool_render(b: bool, tline: Seq<char>, fline: Seq<char>, rest: Seq<char>, k: int)
    requires
        0 <= k < tline.len(),
        k < fline.len(),
        tline[k] != fline[k],
    ensures
        parse_bool((if b { tline } else { fline }) + rest, tline, fline) == Some((b, rest)),
{
    if b {
        lemma_expect_prefix(tline, rest);
    } else {
        let s = fline + rest;
        assert(s[k] == fline[k]);
        lemma_expect_mismatch(s, tline, k);
        lemma_expect_prefix(fline, rest);
    }
}

/// Reading back a written record finds exactly the item that was written,
/// and leaves exactly what followed it.
#[verifier::rlimit(60)]
proof fn lemma_parse_block_render(m: ItemModel, rest: Seq<char>)
    ensures
        parse_block(render_block(m) + rest) == Some((m, rest)),
        render_block(m).len() > 0,
{
    lemma_strlits();
    let cline = if m.checked {
        checked_true_line()
    } else {
        checked_false_line()
    };
    let qline = if m.is_note {
        note_true_line()
    } else {
        note_false_line()
    };
    let t6 = date_key() + escape(m.created_at) + quote_nl() + rest;
    let t5 = qline + t6;
    let t4 = board_key() + escape(m.board_name) + quote_nl() + t5;
    let t3 = cline + t4;
    let t2 = item_key() + escape(m.content) + quote_nl() + t3;
    let s = render_block(m) + rest;
    assert(s =~= header_text() + t2);
    lemma_expect_prefix(header_text(), t2);
    assert(expect(s, header_text()) == Some(t2));
    let u2 = escape(m.content) + seq!['"'] + (nl_text() + t3);
    assert(t2 =~= item_key() + u2);
    lemma_expect_prefix(item_key(), u2);
    assert(expect(t2, item_key()) == Some(u2));
    lemma_parse_string_escape(m.content, nl_text() + t3);
    assert(parse_string(u2) == Some((m.content, nl_text() + t3)));
    lemma_expect_prefix(nl_text(), t3);
    assert(expect(nl_text() + t3, nl_text()) == Some(t3));
    lemma_parse_bool_render(m.checked, checked_true_line(), checked_false_line(), t4, 10);
    assert(t3 == (if m.checked {
        checked_true_line()
    } else {
        checked_false_line()
    }) + t4);
    assert(parse_bool(t3, checked_true_line(), checked_false_line()) == Some((m.checked, t4)));
    let u4 = escape(m.board_name) + seq!['"'] + (nl_text() + t5);
    assert(t4 =~= board_key() + u4);
    lemma_expect_prefix(board_key(), u4);
    assert(expect(t4, board_key()) == Some(u4));
    lemma_parse_string_escape(m.board_name, nl_text() + t5);
    assert(parse_string(u4) == Some((m.board_name, nl_text() + t5)));
    lemma_expect_prefix(nl_text(), t5);
    assert(expect(nl_text() + t5, nl_text()) == Some(t5));
    lemma_parse_bool_render(m.is_note, note_true_line(), note_false_line(), t6, 7);
    assert(t5 == (if m.is_note {
        note_true_line()
    } else {
        note_false_line()
    }) + t6);
    assert(parse_bool(t5, note_true_line(), note_false_line()) == Some((m.is_note, t6)));
    let u6 = escape(m.created_at) + seq!['"'] + (nl_text() + rest);
    assert(t6 =~= date_key() + u6);
    lemma_expect_prefix(date_key(), u6);
    assert(expect(t6, date_key()) == Some(u6));
    lemma_parse_string_escape(m.created_at, nl_text() + rest);
    assert(parse_string(u6) == Some((m.created_at, nl_text() + rest)));
    lemma_expect_prefix(nl_text(), rest);
    assert(expect(nl_text() + rest, nl_text()) == Some(rest));
    assert(parse_block(s) == Some((m, rest)));
}

/// Reading back a written document finds exactly the items that were
/// written: the store codec round-trips on every ledger.
pub proof fn lemma_parse_render(items: Seq<ItemModel>)
    ensures
        parse_items(render_model(items)) == Some(items),
    decreases items.len(),
{
    if items.len() == 0 {
        assert(render_model(items).len() == 0);
        assert(items =~= Seq::<ItemModel>::empty());
    } else {
        let rest = render_model(items.drop_first());
        lemma_parse_block_render(items[0], rest);
        lemma_parse_render(items.drop_first());
        let s = render_model(items);
        assert(s == render_block(items[0]) + rest);
        assert(s.len() > 0);
        assert(rest.len() < s.len());
        assert(seq![items[0]] + items.drop_first() =~= items);
    }
}

proof fn lemma_render_push(items: Seq<ItemModel>, m: ItemModel)
    ensures
        render_model(items.push(m)) == render_model(items) + render_block(m),
    decreases items.len(),
{
    if items.len() == 0 {
        assert(items.push(m)[0] == m);
        assert(items.push(m).drop_first() =~= Seq::<ItemModel>::empty());
        assert(render_model(Seq::<ItemModel>::empty()) == Seq::<char>::empty());
        assert(render_model(items.push(m)) =~= render_model(items) + render_block(m));
    } else {
        lemma_render_push(items.drop_first(), m);
        assert(items.push(m).drop_first() =~= items.drop_first().push(m));
        assert(items.push(m)[0] == items[0]);
        assert(render_model(items.push(m)) =~= render_model(items) + render_block(m));
    }
}

/// Writes one record.
#[verifier::rlimit(60)]
fn render_block_exec(it: &Item) -> (r: String)
    ensures
        r@ == render_block(it@),
{
    let mut r = String::new();
    r.append("[[tasks]]\n");
    r.append("item = \"");
    let cv = chars_of(it.content.as_str());
    let ce = escape_exec(&cv);
    let cs = string_of(&ce);
    r.append(cs.as_str());
    r.append("\"\n");
    proof {
        assert(r@ =~= header_text() + item_key() + escape(it@.content) + quote_nl());
    }
    if it.checked {
        r.append("checked = true\n");
    } else {
        r.append("checked = false\n");
    }
    r.append("board_name = \"");
    let bv = chars_of(it.board_name.as_str());
    let be = escape_exec(&bv);
    let bs = string_of(&be);
    r.append(bs.as_str());
    r.append("\"\n");
    proof {
        assert(r@ =~= header_text() + item_key() + escape(it@.content) + quote_nl() + (
        if it@.checked {
            checked_true_line()
        } else {
            checked_false_line()
        }) + board_key() + escape(it@.board_name) + quote_nl());
    }
    if it.is_note {
        r.append("note = true\n");
    } else {
        r.append("note = false\n");
    }
    r.append("date = \"");
    let dv = chars_of(it.created_at.as_str());
    let de = escape_exec(&dv);
    let ds = string_of(&de);
    r.append(ds.as_str());
    r.append("\"\n");
    proof {
        assert(r@ =~= render_block(it@));
    }
    r
}

/// Writes the whole document for the given items.
pub fn render_store(items: &Vec<Item>) -> (r: String)
    ensures
        r@ == render_model(models(items@)),
{
    let mut r = String::new();
    let mut i: usize = 0;
    while i < items.len()
        invariant
            i <= items@.len(),
            r@ == render_model(models(items@.take(i as int))),
        decreases items@.len() - i,
    {
        let ghost pre: Seq<ItemModel> = models(items@.take(i as int));
        let ghost m: ItemModel = items@[i as int]@;
        let block = render_block_exec(&items[i]);
        r.append(block.as_str());
        proof {
            lemma_render_push(pre, m);
            assert(models(items@.take(i + 1)) =~= pre.push(m));
        }
        i = i + 1;
    }
    proof {
        assert(items@.take(items@.len() as int) =~= items@);
    }
    r
}

/// Matches the literal `pat` at position `i`, giving the position just
/// past it.
fn match_at(v: &Vec<char>, i: usize, pat: &str) -> (r: Option<usize>)
    requires
        i <= v@.len(),
    ensures
        match r {
            Some(j) => i <= j <= v@.len() && j == i + pat@.len() && expect(
                v@.skip(i as int),
                pat@,
            ) == Some(v@.skip(j as int)),
            None => expect(v@.skip(i as int), pat@) is None,
        },
{
    let p = chars_of(pat);
    if p.len() > v.len() - i {
        proof {
            assert(v@.skip(i as int).len() < pat@.len());
        }
        return None;
    }
    let mut k: usize = 0;
    while k < p.len()
        invariant
            i <= v@.len(),
            k <= p@.len(),
            p@ == pat@,
            p@.len() <= v@.len() - i,
            i + p@.len() <= v@.len() <= usize::MAX,
            forall|w: int| 0 <= w < k ==> v@[i + w] == p@[w],
        decreases p@.len() - k,
    {
        proof {
            assert(i + k < v@.len());
        }
        if !(v[i + k] == p[k]) {
            proof {
                assert(v@.skip(i as int)[k as int] == v@[i + k]);
                lemma_expect_mismatch(v@.skip(i as int), pat@, k as int);
            }
            return None;
        }
        k = k + 1;
    }
    proof {
        assert(v@.skip(i as int).take(pat@.len() as int) =~= pat@);
        assert(v@.skip(i as int).skip(pat@.len() as int) =~= v@.skip(i + pat@.len()));
    }
    Some(i + p.len())
}

/// Reads one record starting at `i`, giving the item and the position
/// just past the record.
fn parse_block_at(v: &Vec<char>, i: usize) -> (r: Option<(Item, usize)>)
    requires
        i <= v@.len(),
    ensures
        match r {
            Some(p) => i < p.1 <= v@.len() && parse_block(v@.skip(i as int)) == Some(
                (p.0@, v@.skip(p.1 as int)),
            ),
            None => parse_block(v@.skip(i as int)) is None,
        },
{
    proof {
        lemma_strlits();
    }
    let j0 = match match_at(v, i, "[[tasks]]\n") {
        Some(j) => j,
        None => {
            return None;
        },
    };
    let j1 = match match_at(v, j0, "item = \"") {
        Some(j) => j,
        None => {
            return None;
        },
    };
    let (cval, j2) = match parse_string_at(v, j1) {
        Some(p) => p,
        None => {
            return None;
        },
    };
    let j3 = match match_at(v, j2, "\n") {
        Some(j) => j,
        None => {
            return None;
        },
    };
    let checked: bool;
    let j4: usize;
    match match_at(v, j3, "checked = true\n") {
        Some(j) => {
            checked = true;
            j4 = j;
        },
        None => match match_at(v, j3, "checked = false\n") {
            Some(j) => {
                checked = false;
                j4 = j;
            },
            None => {
                return None;
            },
        },
    }
    let j5 = match match_at(v, j4, "board_name = \"") {
        Some(j) => j,
        None => {
            return None;
        },
    };
    let (bval, j6) = match parse_string_at(v, j5) {
        Some(p) => p,
        None => {
            return None;
        },
    };
    let j7 = match match_at(v, j6, "\n") {
        Some(j) => j,
        None => {
            return None;
        },
    };
    let is_note: bool;
    let j8: usize;
    match match_at(v, j7, "note = true\n") {
        Some(j) => {
            is_note = true;
            j8 = j;
        },
        None => match match_at(v, j7, "note = false\n") {
            Some(j) => {
                is_note = false;
                j8 = j;
            },
            None => {
                return None;
            },
        },
    }
    let j9 = match match_at(v, j8, "date = \"") {
        Some(j) => j,
        None => {
            return None;
        },
    };
    let (dval, j10) = match parse_string_at(v, j9) {
        Some(p) => p,
        None => {
            return None;
        },
    };
    let j11 = match match_at(v, j10, "\n") {
        Some(j) => j,
        None => {
            return None;
        },
    };
    let it = Item {
        content: string_of(&cval),
        checked,
        is_note,
        board_name: string_of(&bval),
        created_at: string_of(&dval),
    };
    Some((it, j11))
}

/// Reads a whole store document.  An empty text is an empty item list;
/// any text that does not follow the record format is a corrupt store.
pub fn parse_store(text: &str) -> (r: Result<Vec<Item>, LedgerError>)
    ensures
        match r {
            Ok(v) => parse_items(text@) == Some(models(v@)),
            Err(e) => e matches LedgerError::CorruptStore && parse_items(text@) is None,
        },
{
    let v = chars_of(text);
    let mut items: Vec<Item> = Vec::new();
    let mut i: usize = 0;
    proof {
        match parse_items(v@.skip(0)) {
            Some(t) => {
                assert(models(items@) + t =~= t);
                assert(v@.skip(0) =~= v@);
            },
            None => {
                assert(v@.skip(0) =~= v@);
            },
        }
    }
    loop
        invariant_except_break
            i <= v@.len(),
            v@ == text@,
            parse_items(v@) == (match parse_items(v@.skip(i as int)) {
                Some(tail) => Some(models(items@) + tail),
                None => None,
            }),
        ensures
            parse_items(text@) == Some(models(items@)),
        decreases v@.len() - i,
    {
        let ghost cur: Seq<char> = v@.skip(i as int);
        if i == v.len() {
            proof {
                assert(cur.len() == 0);
                assert(models(items@) + Seq::<ItemModel>::empty() =~= models(items@));
            }
            break ;
        }
        match parse_block_at(&v, i) {
            None => {
                proof {
                    assert(cur.len() > 0);
                }
                return Err(LedgerError::CorruptStore);
            },
            Some((it, j)) => {
                let ghost itm = it@;
                let ghost pre: Seq<ItemModel> = models(items@);
                proof {
                    assert(cur.len() > 0);
                    assert(v@.skip(j as int).len() < cur.len());
                }
                items.push(it);
                proof {
                    assert(models(items@) =~= pre.push(itm));
                    match parse_items(v@.skip(j as int)) {
                        Some(t) => {
                            assert(pre + (seq![itm] + t) =~= models(items@) + t);
                        },
                        None => {},
                    }
                }
                i = j;
            },
        }
    }
    Ok(items)
}

} // verus!
