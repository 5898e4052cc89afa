//! The identifier resolver: raw command tokens turned into 1-based ledger
//! positions, or a typed refusal.
//!
//! The tokens are joined with single spaces.  When the joined text matches
//! the range pattern `A - B` (optional spaces around either number), the
//! closed interval `[A, B]` is produced, or `InvalidRange` when `A > B`.
//! Otherwise every token must on its own be a positive decimal number; the
//! first token that is not aborts the command with `InvalidNumber`.  Bounds
//! against the current ledger length are checked by the callers.

use vstd::prelude::*;

use crate::error::LedgerError;
use crate::text::{
    chars_of, copy_range, digits_val, is_digit, join_from, join_spaces, parse_usize,
    string_of, string_views, token_number,
};

verus! {

/// A token that resolves to a position: a decimal number, not zero, and
/// small enough for a machine word.
pub open spec fn good_token(t: Seq<char>) -> bool {
    token_number(t) && digits_val(t) != 0
}

/// The first index at or after `i` whose character is not a space, or the
/// end of `s`.
pub open spec fn skip_spaces_from(s: Seq<char>, i: int) -> int
    decreases s.len() - i when i <= s.len()
{
    if i < s.len() && 0 <= i && s[i] == ' ' {
        skip_spaces_from(s, i + 1)
    } else {
        i
    }
}

/// The first index at or after `i` whose character is not a decimal digit,
/// or the end of `s`.
pub open spec fn skip_digits_from(s: Seq<char>, i: int) -> int
    decreases s.len() - i when i <= s.len()
{
    if i < s.len() && 0 <= i && is_digit(s[i]) {
        skip_digits_from(s, i + 1)
    } else {
        i
    }
}

/// The scan marks of the range pattern over `s`: end of leading spaces,
/// end of the first number, position of the dash, start and end of the
/// second number.
pub open spec fn range_scan(s: Seq<char>) -> (int, int, int, int, int) {
    let a0 = skip_spaces_from(s, 0);
    let a1 = skip_digits_from(s, a0);
    let d = skip_spaces_from(s, a1);
    let b0 = skip_spaces_from(s, d + 1);
    let b1 = skip_digits_from(s, b0);
    (a0, a1, d, b0, b1)
}

/// Whether `s` is of the shape `A - B`: two runs of digits separated by a
/// dash, with optional spaces around either run and nothing else.
pub open spec fn range_shape(s: Seq<char>) -> bool {
    let t = range_scan(s);
    t.1 > t.0 && t.2 < s.len() && s[t.2] == '-' && t.4 > t.3 && skip_spaces_from(s, t.4)
        == s.len()
}

/// The digits of the first number of a range-shaped text.
pub open spec fn range_first_digits(s: Seq<char>) -> Seq<char> {
    let t = range_scan(s);
    s.subrange(t.0, t.1)
}

/// The digits of the second number of a range-shaped text.
pub open spec fn range_last_digits(s: Seq<char>) -> Seq<char> {
    let t = range_scan(s);
    s.subrange(t.3, t.4)
}

/// The index of the first token that does not resolve to a position, or
/// the number of tokens when all do.
pub open spec fn first_bad_token(toks: Seq<Seq<char>>) -> int
    decreases toks.len(),
{
    if toks.len() == 0 {
        0
    } else if !good_token(toks[0]) {
        0
    } else {
        1 + first_bad_token(toks.drop_first())
    }
}

pub proof fn lemma_first_bad_token(toks: Seq<Seq<char>>)
    ensures
        0 <= first_bad_token(toks) <= toks.len(),
        first_bad_token(toks) < toks.len() ==> !good_token(toks[first_bad_token(toks)]),
        forall|j: int| 0 <= j < first_bad_token(toks) ==> good_token(#[trigger] toks[j]),
    decreases toks.len(),
{
    if toks.len() > 0 && good_token(toks[0]) {
        lemma_first_bad_token(toks.drop_first());
        assert forall|j: int| 0 <= j < first_bad_token(toks) implies good_token(
            #[trigger] toks[j],
        ) by {
            if j > 0 {
                assert(toks.drop_first()[j - 1] == toks[j]);
            }
        }
    }
}

/// What a token sequence resolves to.
pub ghost enum ResolutionModel {
    /// The 1-based positions, in the order the command gave them.
    Positions(Seq<usize>),
    /// The text that failed to read as a positive number.
    BadNumber(Seq<char>),
    /// A range whose first number exceeds its last.
    BadRange(usize, usize),
}

/// The meaning of a resolver input, per the rules above.
pub open spec fn resolution(toks: Seq<Seq<char>>) -> ResolutionModel {
    let joined = join_spaces(toks);
    if range_shape(joined) {
        let ad = range_first_digits(joined);
        let bd = range_last_digits(joined);
        if !good_token(ad) {
            ResolutionModel::BadNumber(ad)
        } else if !good_token(bd) {
            ResolutionModel::BadNumber(bd)
        } else if digits_val(ad) > digits_val(bd) {
            ResolutionModel::BadRange(digits_val(ad) as usize, digits_val(bd) as usize)
        } else {
            let a = digits_val(ad);
            let b = digits_val(bd);
            ResolutionModel::Positions(Seq::new((b - a + 1) as nat, |i: int| (a + i) as usize))
        }
    } else {
        let k = first_bad_token(toks);
        if k < toks.len() {
            ResolutionModel::BadNumber(toks[k])
        } else {
            ResolutionModel::Positions(toks.map_values(|t: Seq<char>| digits_val(t) as usize))
        }
    }
}

/// Advances past spaces, starting at `from`.
fn skip_spaces(v: &Vec<char>, from: usize) -> (r: usize)
    requires
        from <= v@.len(),
    ensures
        r == skip_spaces_from(v@, from as int),
        from <= r <= v@.len(),
{
    let mut i: usize = from;
    while i < v.len() && v[i] == ' '
        invariant
            from <= i <= v@.len(),
            skip_spaces_from(v@, from as int) == skip_spaces_from(v@, i as int),
        decreases v@.len() - i,
    {
        i = i + 1;
    }
    i
}

/// Advances past decimal digits, starting at `from`.
fn skip_digits(v: &Vec<char>, from: usize) -> (r: usize)
    requires
        from <= v@.len(),
    ensures
        r == skip_digits_from(v@, from as int),
        from <= r <= v@.len(),
{
    let mut i: usize = from;
    while i < v.len() && v[i] >= '0' && v[i] <= '9'
        invariant
            from <= i <= v@.len(),
            skip_digits_from(v@, from as int) == skip_digits_from(v@, i as int),
        decreases v@.len() - i,
    {
        i = i + 1;
    }
    i
}

/// Resolves raw command tokens into 1-based positions.
///
/// Either the joined tokens are one range `A - B` (then the closed interval
/// is produced, `InvalidRange` when `A > B`), or every token alone must be
/// a positive number (the first that is not gives `InvalidNumber`).
pub fn resolve(tokens: &Vec<String>) -> (r: Result<Vec<usize>, LedgerError>)
    ensures
        ({
            let m = resolution(string_views(tokens@));
            match r {
                Ok(v) => m matches ResolutionModel::Positions(ps) && v@ == ps,
                Err(e) => match e {
                    LedgerError::InvalidNumber(t) => m matches ResolutionModel::BadNumber(s) && t@
                        == s,
                    LedgerError::InvalidRange(a, b) => m == ResolutionModel::BadRange(a, b),
                    _ => false,
                },
            }
        }),
{
    let ghost toks: Seq<Seq<char>> = string_views(tokens@);
    let joined = join_from(tokens, 0);
    let v = chars_of(joined.as_str());
    proof {
        assert(toks.skip(0) =~= toks);
        assert(v@ == join_spaces(toks));
    }
    let a0 = skip_spaces(&v, 0);
    let a1 = skip_digits(&v, a0);
    let d = skip_spaces(&v, a1);
    let is_range = a1 > a0 && d < v.len() && {
        let dash = v[d] == '-';
        dash
    };
    if is_range {
        let b0 = skip_spaces(&v, d + 1);
        let b1 = skip_digits(&v, b0);
        let tail = skip_spaces(&v, b1);
        if b1 > b0 && tail == v.len() {
            proof {
                assert(range_shape(v@));
            }
            let first = parse_usize(&v, a0, a1);
            let a = match first {
                Some(n) => {
                    if n == 0 {
                        return Err(LedgerError::InvalidNumber(string_of(&copy_range(&v, a0, a1))));
                    }
                    n
                },
                None => {
                    return Err(LedgerError::InvalidNumber(string_of(&copy_range(&v, a0, a1))));
                },
            };
            let second = parse_usize(&v, b0, b1);
            let b = match second {
                Some(n) => {
                    if n == 0 {
                        return Err(LedgerError::InvalidNumber(string_of(&copy_range(&v, b0, b1))));
                    }
                    n
                },
                None => {
                    return Err(LedgerError::InvalidNumber(string_of(&copy_range(&v, b0, b1))));
                },
            };
            if a > b {
                return Err(LedgerError::InvalidRange(a, b));
            }
            let mut out: Vec<usize> = Vec::new();
            let mut p: usize = a;
            loop
                invariant_except_break
                    a <= p <= b,
                    out@.len() == p - a,
                    forall|j: int| 0 <= j < out@.len() ==> out@[j] == a + j,
                ensures
                    out@.len() == b - a + 1,
                    forall|j: int| 0 <= j < out@.len() ==> out@[j] == a + j,
                decreases b - p,
            {
                out.push(p);
                if p == b {
                    break ;
                }
                p = p + 1;
            }
            proof {
                let ps = Seq::new((b - a + 1) as nat, |i: int| (a + i) as usize);
                assert(out@ =~= ps);
            }
            return Ok(out);
        }
    }
    proof {
        assert(!range_shape(v@));
    }
    let mut out: Vec<usize> = Vec::new();
    let mut i: usize = 0;
    while i < tokens.len()
        invariant
            i <= tokens@.len(),
            toks == string_views(tokens@),
            out@.len() == i,
            forall|j: int| 0 <= j < i ==> good_token(#[trigger] toks[j]),
            forall|j: int| 0 <= j < i ==> out@[j] == digits_val(toks[j]) as usize,
            !range_shape(join_spaces(toks)),
        decreases tokens@.len() - i,
    {
        let tv = chars_of(tokens[i].as_str());
        let parsed = parse_usize(&tv, 0, tv.len());
        proof {
            assert(tv@.subrange(0, tv@.len() as int) =~= tv@);
            assert(tv@ == toks[i as int]);
        }
        match parsed {
            Some(n) => {
                if n == 0 {
                    proof {
                        lemma_first_bad_token(toks);
                        let k = first_bad_token(toks);
                        if k < i {
                            assert(good_token(toks[k]));
                        } else if k > i {
                            assert(good_token(toks[i as int]));
                        }
                    }
                    return Err(LedgerError::InvalidNumber(tokens[i].clone()));
                }
                out.push(n);
            },
            None => {
                proof {
                    lemma_first_bad_token(toks);
                    let k = first_bad_token(toks);
                    if k < i {
                        assert(good_token(toks[k]));
                    } else if k > i {
                        assert(good_token(toks[i as int]));
                    }
                }
                return Err(LedgerError::InvalidNumber(tokens[i].clone()));
            },
        }
        i = i + 1;
    }
    proof {
        lemma_first_bad_token(toks);
        let k = first_bad_token(toks);
        if k < toks.len() {
            assert(good_token(toks[k]));
        }
        assert(out@ =~= toks.map_values(|t: Seq<char>| digits_val(t) as usize));
    }
    Ok(out)
}

} // verus!
