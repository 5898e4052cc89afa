//! Character-level text helpers: conversions between strings and character
//! vectors, joining argument words, decimal parsing, and simple scanning.

use vstd::prelude::*;

verus! {

/// The views of a sequence of strings.
pub open spec fn string_views(s: Seq<String>) -> Seq<Seq<char>> {
    s.map_values(|x: String| x@)
}

/// Relies on std's `String::push`: appends exactly one character.
#[verifier::external_body]
pub(crate) fn push_char(s: &mut String, c: char)
    ensures
        final(s)@ == old(s)@.push(c),
{
    s.push(c);
}

/// The characters of a string slice, in order.
pub fn chars_of(s: &str) -> (r: Vec<char>)
    ensures
        r@ == s@,
{
    let n = s.unicode_len();
    let mut r: Vec<char> = Vec::new();
    let mut i: usize = 0;
    while i < n
        invariant
            n == s@.len(),
            i <= n,
            r@ == s@.take(i as int),
        decreases n - i,
    {
        r.push(s.get_char(i));
        i = i + 1;
        proof {
            assert(r@ =~= s@.take(i as int));
        }
    }
    proof {
        assert(s@.take(n as int) =~= s@);
    }
    r
}

/// A string holding exactly the given characters.
pub fn string_of(v: &Vec<char>) -> (r: String)
    ensures
        r@ == v@,
{
    let mut r = String::new();
    let mut i: usize = 0;
    while i < v.len()
        invariant
            i <= v@.len(),
            r@ == v@.take(i as int),
        decreases v@.len() - i,
    {
        push_char(&mut r, v[i]);
        i = i + 1;
        proof {
            assert(r@ =~= v@.take(i as int));
        }
    }
    proof {
        assert(v@.take(v@.len() as int) =~= v@);
    }
    r
}

/// The given pieces joined with a single space between neighbours.
pub open spec fn join_spaces(parts: Seq<Seq<char>>) -> Seq<char>
    decreases parts.len(),
{
    if parts.len() == 0 {
        Seq::empty()
    } else if parts.len() == 1 {
        parts[0]
    } else {
        parts[0] + seq![' '] + join_spaces(parts.drop_first())
    }
}

proof fn lemma_join_spaces_push(parts: Seq<Seq<char>>, x: Seq<char>)
    ensures
        join_spaces(parts.push(x)) == if parts.len() == 0 {
            x
        } else {
            join_spaces(parts) + seq![' '] + x
        },
    decreases parts.len(),
{
    if parts.len() == 0 {
        assert(parts.push(x).len() == 1);
        assert(parts.push(x)[0] == x);
    } else {
        lemma_join_spaces_push(parts.drop_first(), x);
        assert(parts.push(x).drop_first() =~= parts.drop_first().push(x));
        assert(parts.push(x)[0] == parts[0]);
        if parts.len() == 1 {
            assert(parts.drop_first().len() == 0);
            assert(join_spaces(parts) == parts[0]);
        }
    }
}

/// The words `parts[from..]` joined with single spaces.
pub fn join_from(parts: &Vec<String>, from: usize) -> (r: String)
    requires
        from <= parts@.len(),
    ensures
        r@ == join_spaces(string_views(parts@).skip(from as int)),
{
    let ghost whole: Seq<Seq<char>> = string_views(parts@).skip(from as int);
    let mut r = String::new();
    let mut i: usize = from;
    while i < parts.len()
        invariant
            from <= i <= parts@.len(),
            whole == string_views(parts@).skip(from as int),
            r@ == join_spaces(whole.take(i - from)),
        decreases parts@.len() - i,
    {
        let ghost prev: Seq<Seq<char>> = whole.take(i - from);
        if i > from {
            r.append(" ");
        }
        r.append(parts[i].as_str());
        proof {
            reveal_strlit(" ");
            assert(" "@ =~= seq![' ']);
            lemma_join_spaces_push(prev, parts@[i as int]@);
            assert(whole.take(i - from + 1) =~= prev.push(parts@[i as int]@));
        }
        i = i + 1;
    }
    proof {
        assert(whole.take(parts@.len() - from) =~= whole);
    }
    r
}

/// A decimal digit.
pub open spec fn is_digit(c: char) -> bool {
    48 <= (c as int) && (c as int) <= 57
}

/// The numeric value of one decimal digit.
pub open spec fn digit_val(c: char) -> nat {
    ((c as int) - 48) as nat
}

/// Every character of `s` is a decimal digit.
pub open spec fn all_digits(s: Seq<char>) -> bool {
    forall|i: int| 0 <= i < s.len() ==> is_digit(#[trigger] s[i])
}

/// The value of a digit string read in base ten.
pub open spec fn digits_val(s: Seq<char>) -> nat
    decreases s.len(),
{
    if s.len() == 0 {
        0
    } else {
        digits_val(s.drop_last()) * 10 + digit_val(s.last())
    }
}

proof fn lemma_digits_val_take(s: Seq<char>, k: int)
    requires
        0 <= k <= s.len(),
    ensures
        digits_val(s.take(k)) <= digits_val(s),
    decreases s.len(),
{
    if k < s.len() {
        lemma_digits_val_take(s.drop_last(), k);
        assert(s.take(k) =~= s.drop_last().take(k));
    } else {
        assert(s.take(k) =~= s);
    }
}

/// A well-formed number token: non-empty, all digits, and small enough for
/// a machine word.
pub open spec fn token_number(s: Seq<char>) -> bool {
    s.len() > 0 && all_digits(s) && digits_val(s) <= usize::MAX as nat
}

/// Reads `v[from..to]` as an unsigned decimal number.  Returns `None` when
/// the range is empty, holds a non-digit, or encodes a value too large for
/// `usize`.
pub fn parse_usize(v: &Vec<char>, from: usize, to: usize) -> (r: Option<usize>)
    requires
        from <= to <= v@.len(),
    ensures
        match r {
            Some(n) => token_number(v@.subrange(from as int, to as int)) && n
                == digits_val(v@.subrange(from as int, to as int)),
            None => !token_number(v@.subrange(from as int, to as int)),
        },
{
    let ghost sub: Seq<char> = v@.subrange(from as int, to as int);
    if from == to {
        return None;
    }
    let mut acc: usize = 0;
    let mut i: usize = from;
    while i < to
        invariant
            from <= i <= to <= v@.len(),
            sub == v@.subrange(from as int, to as int),
            all_digits(v@.subrange(from as int, i as int)),
            acc == digits_val(v@.subrange(from as int, i as int)),
        decreases to - i,
    {
        let ghost pre: Seq<char> = v@.subrange(from as int, i as int);
        let c = v[i];
        if c < '0' || c > '9' {
            proof {
                assert(sub[i - from] == c);
                assert(!is_digit(c));
            }
            return None;
        }
        let u = c as u32;
        let d = (u - 48) as usize;
        proof {
            let ext = v@.subrange(from as int, i + 1);
            assert(ext.drop_last() =~= pre);
            assert(ext.last() == c);
            assert(is_digit(c));
            assert(d == digit_val(c));
            assert(digits_val(ext) == acc * 10 + d);
            assert forall|j: int| 0 <= j < ext.len() implies is_digit(#[trigger] ext[j]) by {
                if j < ext.len() - 1 {
                    assert(ext[j] == pre[j]);
                }
            }
            lemma_digits_val_take(sub, i + 1 - from);
            assert(sub.take(i + 1 - from) =~= ext);
        }
        match acc.checked_mul(10) {
            None => {
                return None;
            },
            Some(m) => match m.checked_add(d) {
                None => {
                    return None;
                },
                Some(next) => {
                    acc = next;
                },
            },
        }
        i = i + 1;
    }
    proof {
        assert(v@.subrange(from as int, to as int) =~= sub);
    }
    Some(acc)
}

/// The index of the first occurrence of `c` in `s`, or `s.len()` when `c`
/// does not occur.
pub open spec fn first_index_of(s: Seq<char>, c: char) -> int
    decreases s.len(),
{
    if s.len() == 0 {
        0
    } else if s[0] == c {
        0
    } else {
        1 + first_index_of(s.drop_first(), c)
    }
}

pub proof fn lemma_first_index_of(s: Seq<char>, c: char)
    ensures
        0 <= first_index_of(s, c) <= s.len(),
        first_index_of(s, c) < s.len() ==> s[first_index_of(s, c)] == c,
        forall|j: int| 0 <= j < first_index_of(s, c) ==> s[j] != c,
    decreases s.len(),
{
    if s.len() > 0 && s[0] != c {
        lemma_first_index_of(s.drop_first(), c);
        assert forall|j: int| 0 <= j < first_index_of(s, c) implies s[j] != c by {
            if j > 0 {
                assert(s.drop_first()[j - 1] == s[j]);
            }
        }
    }
}

/// Finds the first occurrence of `c` in `v`, scanning left to right.
pub fn find_char(v: &Vec<char>, c: char) -> (r: usize)
    ensures
        r == first_index_of(v@, c),
{
    let mut i: usize = 0;
    while i < v.len()
        invariant
            i <= v@.len(),
            forall|j: int| 0 <= j < i ==> v@[j] != c,
        decreases v@.len() - i,
    {
        if v[i] == c {
            proof {
                lemma_first_index_of(v@, c);
                let k = first_index_of(v@, c);
                if k < i {
                    assert(v@[k] != c);
                } else if k > i {
                    assert(v@[i as int] != c);
                }
            }
            return i;
        }
        i = i + 1;
    }
    proof {
        lemma_first_index_of(v@, c);
        let k = first_index_of(v@, c);
        if k < v@.len() {
            assert(v@[k] != c);
        }
    }
    i
}

/// `s` with every exclamation mark removed: the board marker stripped.
pub open spec fn strip_marks(s: Seq<char>) -> Seq<char> {
    s.filter(|c: char| c != '!')
}

/// Removes every exclamation mark from the characters of `s`.
pub fn remove_marks(v: &Vec<char>, from: usize, to: usize) -> (r: Vec<char>)
    requires
        from <= to <= v@.len(),
    ensures
        r@ == strip_marks(v@.subrange(from as int, to as int)),
{
    let mut r: Vec<char> = Vec::new();
    let mut i: usize = from;
    while i < to
        invariant
            from <= i <= to <= v@.len(),
            r@ == strip_marks(v@.subrange(from as int, i as int)),
        decreases to - i,
    {
        let ghost pre: Seq<char> = v@.subrange(from as int, i as int);
        let c = v[i];
        if c != '!' {
            r.push(c);
        }
        proof {
            let ext = v@.subrange(from as int, i + 1);
            assert(ext.drop_last() =~= pre);
            assert(ext.last() == c);
            reveal_with_fuel(Seq::filter, 2);
        }
        i = i + 1;
    }
    r
}

/// A copy of the characters `v[from..to]`.
pub fn copy_range(v: &Vec<char>, from: usize, to: usize) -> (r: Vec<char>)
    requires
        from <= to <= v@.len(),
    ensures
        r@ == v@.subrange(from as int, to as int),
{
    let mut r: Vec<char> = Vec::new();
    let mut i: usize = from;
    while i < to
        invariant
            from <= i <= to <= v@.len(),
            r@ == v@.subrange(from as int, i as int),
        decreases to - i,
    {
        r.push(v[i]);
        i = i + 1;
        proof {
            assert(r@ =~= v@.subrange(from as int, i as int));
        }
    }
    r
}

/// Whether the characters of `s` contain `c`.
pub fn contains_char(s: &str, c: char) -> (r: bool)
    ensures
        r == s@.contains(c),
{
    let v = chars_of(s);
    let k = find_char(&v, c);
    proof {
        lemma_first_index_of(s@, c);
        if first_index_of(s@, c) < s@.len() {
            assert(s@.contains(c));
        }
        if s@.contains(c) {
            let w = choose|w: int| 0 <= w < s@.len() && s@[w] == c;
            assert(!(first_index_of(s@, c) == s@.len()));
        }
    }
    k < v.len()
}

} // verus!

