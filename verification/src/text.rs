//! Character-level text utilities.
//!
//! Everything here works on `Seq<char>` in specifications and on `Vec<char>`
//! (or `&str`) in executable code: whitespace classification, run scanning,
//! line splitting, trimming and whitespace collapsing.

use vstd::prelude::*;
use vstd::string::StrSliceExecFns;

verus! {

/// The Unicode `White_Space` characters, the set both `str::trim` and the
/// whitespace character class of the task grammar use.
pub open spec fn is_space(c: char) -> bool {
    ||| c == ' '
    ||| c == '\t'
    ||| c == '\n'
    ||| c == '\u{0B}'
    ||| c == '\u{0C}'
    ||| c == '\r'
    ||| c == '\u{85}'
    ||| c == '\u{A0}'
    ||| c == '\u{1680}'
    ||| ('\u{2000}' <= c && c <= '\u{200A}')
    ||| c == '\u{2028}'
    ||| c == '\u{2029}'
    ||| c == '\u{202F}'
    ||| c == '\u{205F}'
    ||| c == '\u{3000}'
}

/// ASCII decimal digit.
pub open spec fn is_digit(c: char) -> bool {
    '0' <= c && c <= '9'
}

/// Numeric value of an ASCII digit.
pub open spec fn digit_val(c: char) -> int {
    c as u32 - 48
}

/// Value of a run of ASCII digits read in base 10.
pub open spec fn digits_val(s: Seq<char>) -> int
    decreases s.len(),
{
    if s.len() == 0 {
        0
    } else {
        10 * digits_val(s.drop_last()) + digit_val(s.last())
    }
}

/// Whether `c` is Unicode whitespace.
pub fn is_space_char(c: char) -> (r: bool)
    ensures
        r == is_space(c),
{
    c == ' ' || c == '\t' || c == '\n' || c == '\u{0B}' || c == '\u{0C}' || c == '\r' || c
        == '\u{85}' || c == '\u{A0}' || c == '\u{1680}' || ('\u{2000}' <= c && c <= '\u{200A}') || c
        == '\u{2028}' || c == '\u{2029}' || c == '\u{202F}' || c == '\u{205F}' || c == '\u{3000}'
}

/// Whether `c` is an ASCII decimal digit.
pub fn is_digit_char(c: char) -> (r: bool)
    ensures
        r == is_digit(c),
{
    '0' <= c && c <= '9'
}

/// First position at or after `from` that does not hold whitespace
/// (the length of the sequence if whitespace runs to its end).
pub open spec fn ws_run_end(s: Seq<char>, from: int) -> int
    decreases s.len() - from,
{
    if 0 <= from < s.len() && is_space(s[from]) {
        ws_run_end(s, from + 1)
    } else {
        from
    }
}

pub proof fn lemma_ws_run_end(s: Seq<char>, from: int)
    requires
        0 <= from <= s.len(),
    ensures
        from <= ws_run_end(s, from) <= s.len(),
        forall|k: int| from <= k < ws_run_end(s, from) ==> is_space(#[trigger] s[k]),
        ws_run_end(s, from) < s.len() ==> !is_space(s[ws_run_end(s, from)]),
    decreases s.len() - from,
{
    if 0 <= from < s.len() && is_space(s[from]) {
        lemma_ws_run_end(s, from + 1);
    }
}

/// First position at or after `from` that does not hold an ASCII digit.
pub open spec fn digit_run_end(s: Seq<char>, from: int) -> int
    decreases s.len() - from,
{
    if 0 <= from < s.len() && is_digit(s[from]) {
        digit_run_end(s, from + 1)
    } else {
        from
    }
}

pub proof fn lemma_digit_run_end(s: Seq<char>, from: int)
    requires
        0 <= from <= s.len(),
    ensures
        from <= digit_run_end(s, from) <= s.len(),
        forall|k: int| from <= k < digit_run_end(s, from) ==> is_digit(#[trigger] s[k]),
        digit_run_end(s, from) < s.len() ==> !is_digit(s[digit_run_end(s, from)]),
    decreases s.len() - from,
{
    if 0 <= from < s.len() && is_digit(s[from]) {
        lemma_digit_run_end(s, from + 1);
    }
}

/// First position at or after `from` holding exactly `c`
/// (the length of the sequence if there is none).
pub open spec fn find_char_from(s: Seq<char>, from: int, c: char) -> int
    decreases s.len() - from,
{
    if 0 <= from < s.len() {
        if s[from] == c {
            from
        } else {
            find_char_from(s, from + 1, c)
        }
    } else {
        from
    }
}

pub proof fn lemma_find_char_from(s: Seq<char>, from: int, c: char)
    requires
        0 <= from <= s.len(),
    ensures
        from <= find_char_from(s, from, c) <= s.len(),
        forall|k: int| from <= k < find_char_from(s, from, c) ==> #[trigger] s[k] != c,
        find_char_from(s, from, c) < s.len() ==> s[find_char_from(s, from, c)] == c,
    decreases s.len() - from,
{
    if 0 <= from < s.len() && s[from] != c {
        lemma_find_char_from(s, from + 1, c);
    }
}

/// Position right after the last whitespace-free prefix: scanning from the
/// end, the first boundary whose preceding character is not whitespace.
pub open spec fn trim_end_idx(s: Seq<char>) -> int
    decreases s.len(),
{
    if s.len() == 0 {
        0
    } else if is_space(s.last()) {
        trim_end_idx(s.drop_last())
    } else {
        s.len() as int
    }
}

pub proof fn lemma_trim_end_idx(s: Seq<char>)
    ensures
        0 <= trim_end_idx(s) <= s.len(),
        forall|k: int| trim_end_idx(s) <= k < s.len() ==> is_space(#[trigger] s[k]),
        trim_end_idx(s) > 0 ==> !is_space(s[trim_end_idx(s) - 1]),
    decreases s.len(),
{
    if s.len() > 0 && is_space(s.last()) {
        lemma_trim_end_idx(s.drop_last());
        assert forall|k: int| trim_end_idx(s) <= k < s.len() implies is_space(#[trigger] s[k]) by {
            if k < s.len() - 1 {
                assert(s[k] == s.drop_last()[k]);
            } else {
                assert(s[k] == s.last());
            }
        }
    }
}

/// What `str::trim` leaves: the subrange from the end of the leading
/// whitespace run to the start of the trailing one.
pub open spec fn spec_trim(s: Seq<char>) -> Seq<char> {
    if ws_run_end(s, 0) >= trim_end_idx(s) {
        Seq::empty()
    } else {
        s.subrange(ws_run_end(s, 0), trim_end_idx(s))
    }
}

/// A line with one trailing carriage return removed, as `str::lines` yields it.
pub open spec fn strip_cr(l: Seq<char>) -> Seq<char> {
    if l.len() > 0 && l.last() == '\r' {
        l.drop_last()
    } else {
        l
    }
}

/// The lines of `s` from position `from` on: segments split at `'\n'`, each
/// with a trailing `'\r'` removed, with no empty segment after a final
/// newline — the semantics of `str::lines`.
pub open spec fn spec_lines_from(s: Seq<char>, from: int) -> Seq<Seq<char>>
    decreases s.len() - from via check_spec_lines_from
{
    if !(0 <= from < s.len()) {
        Seq::empty()
    } else {
        let i = find_char_from(s, from, '\n');
        if i >= s.len() {
            seq![strip_cr(s.subrange(from, s.len() as int))]
        } else {
            seq![strip_cr(s.subrange(from, i))] + spec_lines_from(s, i + 1)
        }
    }
}

#[via_fn]
proof fn check_spec_lines_from(s: Seq<char>, from: int) {
    if 0 <= from < s.len() {
        lemma_find_char_from(s, from, '\n');
    }
}

/// The lines of `s`, as `str::lines` yields them.
pub open spec fn spec_lines(s: Seq<char>) -> Seq<Seq<char>> {
    spec_lines_from(s, 0)
}

/// Whitespace runs collapsed to a single space from position `from` on.
pub open spec fn collapse_from(s: Seq<char>, from: int) -> Seq<char>
    decreases s.len() - from via check_collapse_from
{
    if !(0 <= from < s.len()) {
        Seq::empty()
    } else if is_space(s[from]) {
        seq![' '] + collapse_from(s, ws_run_end(s, from))
    } else {
        seq![s[from]] + collapse_from(s, from + 1)
    }
}

#[via_fn]
proof fn check_collapse_from(s: Seq<char>, from: int) {
    if 0 <= from < s.len() && is_space(s[from]) {
        lemma_ws_run_end(s, from);
        assert(ws_run_end(s, from) == ws_run_end(s, from + 1));
    }
}

/// The cleaned form of a description: trimmed at both ends, every inner
/// whitespace run replaced by one space.
pub open spec fn spec_clean(s: Seq<char>) -> Seq<char> {
    collapse_from(spec_trim(s), 0)
}

/// The characters of `s`, in order.
pub fn chars_vec(s: &str) -> (v: Vec<char>)
    ensures
        v@ == s@,
{
    let n = s.unicode_len();
    let mut v: Vec<char> = Vec::new();
    let mut i: usize = 0;
    while i < n
        invariant
            i <= n,
            n == s@.len(),
            v@ =~= s@.take(i as int),
        decreases n - i,
    {
        v.push(s.get_char(i));
        i = i + 1;
    }
    assert(v@ =~= s@);
    v
}

/// Relies on `String`'s `FromIterator` over `char`: collecting characters
/// yields the string of exactly those characters, in order.
#[verifier::external_body]
pub fn string_from_chars(v: &Vec<char>) -> (s: String)
    ensures
        s@ == v@,
{
    v.iter().collect()
}

/// First non-whitespace position at or after `from`.
pub fn skip_ws(v: &Vec<char>, from: usize) -> (r: usize)
    requires
        from <= v@.len(),
    ensures
        r == ws_run_end(v@, from as int),
        from <= r <= v@.len(),
{
    proof {
        lemma_ws_run_end(v@, from as int);
    }
    let mut i = from;
    while i < v.len() && is_space_char(v[i])
        invariant
            from <= i <= v@.len(),
            ws_run_end(v@, from as int) == ws_run_end(v@, i as int),
        decreases v@.len() - i,
    {
        i = i + 1;
    }
    i
}

/// First position at or after `from` holding `c`, or the length.
pub fn find_char(v: &Vec<char>, from: usize, c: char) -> (r: usize)
    requires
        from <= v@.len(),
    ensures
        r == find_char_from(v@, from as int, c),
        from <= r <= v@.len(),
{
    proof {
        lemma_find_char_from(v@, from as int, c);
    }
    let mut i = from;
    while i < v.len() && v[i] != c
        invariant
            from <= i <= v@.len(),
            find_char_from(v@, from as int, c) == find_char_from(v@, i as int, c),
        decreases v@.len() - i,
    {
        i = i + 1;
    }
    i
}

/// The characters of `v` from `from` (inclusive) to `to` (exclusive).
pub fn subvec(v: &Vec<char>, from: usize, to: usize) -> (r: Vec<char>)
    requires
        from <= to <= v@.len(),
    ensures
        r@ == v@.subrange(from as int, to as int),
{
    let mut r: Vec<char> = Vec::new();
    let mut i = from;
    while i < to
        invariant
            from <= i <= to <= v@.len(),
            r@ =~= v@.subrange(from as int, i as int),
        decreases to - i,
    {
        r.push(v[i]);
        i = i + 1;
    }
    r
}

/// Whether some position of `v` holds `c`.
pub fn contains_char(v: &Vec<char>, c: char) -> (r: bool)
    ensures
        r == v@.contains(c),
{
    let mut i: usize = 0;
    while i < v.len()
        invariant
            i <= v@.len(),
            forall|k: int| 0 <= k < i ==> #[trigger] v@[k] != c,
        decreases v@.len() - i,
    {
        if v[i] == c {
            return true;
        }
        i = i + 1;
    }
    false
}

/// `s` with every occurrence of `c` removed, the other characters kept in
/// order.
pub open spec fn remove_all_char(s: Seq<char>, c: char) -> Seq<char>
    decreases s.len(),
{
    if s.len() == 0 {
        Seq::empty()
    } else if s.last() == c {
        remove_all_char(s.drop_last(), c)
    } else {
        remove_all_char(s.drop_last(), c).push(s.last())
    }
}

/// `v` with every occurrence of `c` removed.
pub fn remove_char(v: &Vec<char>, c: char) -> (r: Vec<char>)
    ensures
        r@ == remove_all_char(v@, c),
{
    let mut r: Vec<char> = Vec::new();
    let mut i: usize = 0;
    while i < v.len()
        invariant
            i <= v@.len(),
            r@ =~= remove_all_char(v@.take(i as int), c),
        decreases v@.len() - i,
    {
        proof {
            assert(v@.take(i + 1).drop_last() =~= v@.take(i as int));
            assert(v@.take(i + 1).last() == v@[i as int]);
        }
        if v[i] != c {
            r.push(v[i]);
        }
        i = i + 1;
    }
    assert(v@.take(v@.len() as int) =~= v@);
    r
}

/// `v` trimmed: leading and trailing whitespace removed.
pub fn trim_chars(v: &Vec<char>) -> (r: Vec<char>)
    ensures
        r@ == spec_trim(v@),
{
    proof {
        lemma_ws_run_end(v@, 0);
        lemma_trim_end_idx(v@);
    }
    let a = skip_ws(v, 0);
    let mut b = v.len();
    proof {
        assert(v@.take(b as int) =~= v@);
    }
    while b > 0 && is_space_char(v[b - 1])
        invariant
            b <= v@.len(),
            trim_end_idx(v@) == trim_end_idx(v@.take(b as int)),
        decreases b,
    {
        proof {
            assert(v@.take(b as int).drop_last() =~= v@.take(b - 1));
            assert(v@.take(b as int).last() == v@[b - 1]);
        }
        b = b - 1;
    }
    proof {
        if b > 0 {
            assert(v@.take(b as int).last() == v@[b - 1]);
        }
        assert(trim_end_idx(v@.take(b as int)) == b);
    }
    if a >= b {
        Vec::new()
    } else {
        subvec(v, a, b)
    }
}

/// `v` with every whitespace run replaced by a single space.
pub fn collapse_ws(v: &Vec<char>) -> (r: Vec<char>)
    ensures
        r@ == collapse_from(v@, 0),
{
    let mut r: Vec<char> = Vec::new();
    let mut i: usize = 0;
    while i < v.len()
        invariant
            i <= v@.len(),
            collapse_from(v@, 0) =~= r@ + collapse_from(v@, i as int),
        decreases v@.len() - i,
    {
        let ghost prev = r@;
        if is_space_char(v[i]) {
            r.push(' ');
            let j = skip_ws(v, i);
            proof {
                assert(collapse_from(v@, i as int) == seq![' '] + collapse_from(v@, j as int));
                assert(prev + collapse_from(v@, i as int) =~= r@ + collapse_from(v@, j as int));
            }
            i = j;
        } else {
            r.push(v[i]);
            proof {
                assert(collapse_from(v@, i as int) == seq![v@[i as int]] + collapse_from(
                    v@,
                    i + 1,
                ));
                assert(prev + collapse_from(v@, i as int) =~= r@ + collapse_from(v@, i + 1));
            }
            i = i + 1;
        }
    }
    r
}

/// The lines of `v`, as `str::lines` yields them.
pub fn lines_of(v: &Vec<char>) -> (r: Vec<Vec<char>>)
    ensures
        r@.map_values(|l: Vec<char>| l@) == spec_lines(v@),
{
    let n = v.len();
    let mut r: Vec<Vec<char>> = Vec::new();
    let mut pos: usize = 0;
    while pos < n
        invariant
            pos <= n,
            n == v@.len(),
            spec_lines(v@) =~= r@.map_values(|l: Vec<char>| l@) + spec_lines_from(v@, pos as int),
        decreases n - pos,
    {
        let nl = find_char(v, pos, '\n');
        let mut line = subvec(v, pos, nl);
        if line.len() > 0 && line[line.len() - 1] == '\r' {
            proof {
                assert(line@.drop_last() =~= strip_cr(v@.subrange(pos as int, nl as int)));
            }
            line.pop();
        }
        let ghost prev = r@.map_values(|l: Vec<char>| l@);
        r.push(line);
        proof {
            assert(r@.map_values(|l: Vec<char>| l@) =~= prev + seq![line@]);
        }
        if nl >= n {
            pos = n;
        } else {
            pos = nl + 1;
        }
    }
    r
}

} // verus!
