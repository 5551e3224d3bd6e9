//! The deck-list line grammar, over the characters of one trimmed line:
//!
//! `<digits>x<ws><name>[<ws>(<set>)<ws><collector>][<ws>[<categories>]]`
//!
//! matched against the whole line, with the name as short as the rest allows.
use crate::text::{is_ascii_digit, is_whitespace, is_ws, split_on, trim};
use vstd::prelude::*;

verus! {

/// First index at or after `i` that does not hold whitespace.
pub open spec fn skip_ws(s: Seq<char>, i: int) -> int
    decreases s.len() - i,
{
    if 0 <= i < s.len() && is_ws(s[i]) {
        skip_ws(s, i + 1)
    } else {
        i
    }
}

/// First index at or after `i` that holds whitespace.
pub open spec fn skip_non_ws(s: Seq<char>, i: int) -> int
    decreases s.len() - i,
{
    if 0 <= i < s.len() && !is_ws(s[i]) {
        skip_non_ws(s, i + 1)
    } else {
        i
    }
}

/// First index at or after `i` that does not hold an ASCII digit.
pub open spec fn skip_digits(s: Seq<char>, i: int) -> int
    decreases s.len() - i,
{
    if 0 <= i < s.len() && is_ascii_digit(s[i]) {
        skip_digits(s, i + 1)
    } else {
        i
    }
}

/// First index at or after `i` that holds `c`.
pub open spec fn find_char(s: Seq<char>, c: char, i: int) -> int
    decreases s.len() - i,
{
    if 0 <= i < s.len() && s[i] != c {
        find_char(s, c, i + 1)
    } else {
        i
    }
}

/// `t[p..]` is whitespace, `[`, one or more characters other than `]`, and a final `]`.
pub open spec fn cat_group_at(t: Seq<char>, p: int) -> bool {
    let j = skip_ws(t, p);
    &&& j > p
    &&& j < t.len()
    &&& t[j] == '['
    &&& j + 3 <= t.len()
    &&& find_char(t, ']', j + 1) == t.len() - 1
}

/// Index of the `(` of a set group that starts at `p`.
pub open spec fn set_open(t: Seq<char>, p: int) -> int {
    skip_ws(t, p)
}

/// Index of the `)` of a set group that starts at `p`.
pub open spec fn set_close(t: Seq<char>, p: int) -> int {
    find_char(t, ')', set_open(t, p) + 1)
}

/// Start of the collector number of a set group that starts at `p`.
pub open spec fn number_start(t: Seq<char>, p: int) -> int {
    skip_ws(t, set_close(t, p) + 1)
}

/// End of the collector number of a set group that starts at `p`.
pub open spec fn number_end(t: Seq<char>, p: int) -> int {
    skip_non_ws(t, number_start(t, p))
}

/// `t[p..]` is whitespace, `(`, one or more characters other than `)`, `)`,
/// whitespace and a run of non-whitespace, then the end or a category group.
pub open spec fn set_group_at(t: Seq<char>, p: int) -> bool {
    let j = set_open(t, p);
    let k = set_close(t, p);
    let m = number_start(t, p);
    let e = number_end(t, p);
    &&& j > p
    &&& j < t.len()
    &&& t[j] == '('
    &&& k < t.len()
    &&& k > j + 1
    &&& m > k + 1
    &&& e > m
    &&& (e == t.len() || cat_group_at(t, e))
}

/// What may follow the name from `p` on: nothing, or the optional groups.
pub open spec fn tail_at(t: Seq<char>, p: int) -> bool {
    p == t.len() || cat_group_at(t, p) || set_group_at(t, p)
}

/// The first index at or after `q` from which a tail follows (`t.len()` at the latest).
pub open spec fn first_tail(t: Seq<char>, q: int) -> int
    decreases t.len() - q,
{
    if q >= t.len() {
        t.len() as int
    } else if tail_at(t, q) {
        q
    } else {
        first_tail(t, q + 1)
    }
}

/// End of the quantity digits.
pub open spec fn digits_end(t: Seq<char>) -> int {
    skip_digits(t, 0)
}

/// Start of the name: after the digits, `x` and the whitespace run.
pub open spec fn name_start(t: Seq<char>) -> int {
    skip_ws(t, digits_end(t) + 1)
}

/// End of the name: the shortest non-empty name that leaves a tail.
pub open spec fn name_end(t: Seq<char>) -> int {
    first_tail(t, name_start(t) + 1)
}

/// The line has the shape of an entry.
pub open spec fn line_matches(t: Seq<char>) -> bool {
    let d = digits_end(t);
    let w = name_start(t);
    &&& d > 0
    &&& d + 1 < t.len()
    &&& t[d] == 'x'
    &&& w > d + 1
    &&& w < t.len()
}

pub open spec fn digit_value(c: char) -> nat {
    ((c as u32) - ('0' as u32)) as nat
}

/// The decimal value of a run of ASCII digits.
pub open spec fn digits_value(s: Seq<char>) -> nat
    decreases s.len(),
{
    if s.len() == 0 {
        0
    } else {
        digits_value(s.drop_last()) * 10 + digit_value(s.last())
    }
}

/// The quantity written at the start of a matching line.
pub open spec fn line_quantity(t: Seq<char>) -> nat {
    digits_value(t.subrange(0, digits_end(t)))
}

/// The trimmed name of a matching line.
pub open spec fn line_name(t: Seq<char>) -> Seq<char> {
    trim(t.subrange(name_start(t), name_end(t)))
}

pub open spec fn line_has_set(t: Seq<char>) -> bool {
    name_end(t) < t.len() && set_group_at(t, name_end(t))
}

pub open spec fn line_set_code(t: Seq<char>) -> Option<Seq<char>> {
    if line_has_set(t) {
        Some(t.subrange(set_open(t, name_end(t)) + 1, set_close(t, name_end(t))))
    } else {
        None
    }
}

pub open spec fn line_collector_number(t: Seq<char>) -> Option<Seq<char>> {
    if line_has_set(t) {
        Some(t.subrange(number_start(t, name_end(t)), number_end(t, name_end(t))))
    } else {
        None
    }
}

/// Where a category group may start: after the set group, or after the name.
pub open spec fn cat_start(t: Seq<char>) -> int {
    if line_has_set(t) {
        number_end(t, name_end(t))
    } else {
        name_end(t)
    }
}

/// The categories: the bracketed text split on `,`, each piece trimmed.
pub open spec fn line_categories(t: Seq<char>) -> Seq<Seq<char>> {
    let p = cat_start(t);
    if p < t.len() && cat_group_at(t, p) {
        split_on(t.subrange(skip_ws(t, p) + 1, t.len() - 1), ',').map_values(
            |c: Seq<char>| trim(c),
        )
    } else {
        Seq::empty()
    }
}

/// A line that is skipped: empty, or a `#` or `//` comment.
pub open spec fn is_skipped(t: Seq<char>) -> bool {
    t.len() == 0 || t[0] == '#' || (t.len() >= 2 && t[0] == '/' && t[1] == '/')
}

/// Why a line gave no entry.
#[derive(Debug, Clone, Copy, PartialEq, Eq, Structural)]
pub enum LineErrorKind {
    /// The line does not have the shape of an entry.
    Format,
    /// The quantity is zero or does not fit in a `u32`.
    InvalidQuantity,
    /// The name is empty once trimmed.
    EmptyName,
}

/// The error of a non-skipped trimmed line, if it has one.
pub open spec fn line_error(t: Seq<char>) -> Option<LineErrorKind> {
    if !line_matches(t) {
        Some(LineErrorKind::Format)
    } else if line_quantity(t) == 0 || line_quantity(t) > u32::MAX {
        Some(LineErrorKind::InvalidQuantity)
    } else if line_name(t).len() == 0 {
        Some(LineErrorKind::EmptyName)
    } else {
        None
    }
}

pub(crate) fn skip_ws_from(s: &Vec<char>, i: usize) -> (r: usize)
    requires
        i <= s@.len(),
    ensures
        r as int == skip_ws(s@, i as int),
        i <= r <= s@.len(),
{
    let mut j: usize = i;
    while j < s.len() && is_whitespace(s[j])
        invariant
            i <= j <= s@.len(),
            skip_ws(s@, i as int) == skip_ws(s@, j as int),
        decreases s@.len() - j,
    {
        j = j + 1;
    }
    j
}

pub(crate) fn skip_non_ws_from(s: &Vec<char>, i: usize) -> (r: usize)
    requires
        i <= s@.len(),
    ensures
        r as int == skip_non_ws(s@, i as int),
        i <= r <= s@.len(),
{
    let mut j: usize = i;
    while j < s.len() && !is_whitespace(s[j])
        invariant
            i <= j <= s@.len(),
            skip_non_ws(s@, i as int) == skip_non_ws(s@, j as int),
        decreases s@.len() - j,
    {
        j = j + 1;
    }
    j
}

pub(crate) fn skip_digits_from(s: &Vec<char>, i: usize) -> (r: usize)
    requires
        i <= s@.len(),
    ensures
        r as int == skip_digits(s@, i as int),
        i <= r <= s@.len(),
        forall|k: int| i <= k < r ==> is_ascii_digit(#[trigger] s@[k]),
{
    let mut j: usize = i;
    while j < s.len() && '0' <= s[j] && s[j] <= '9'
        invariant
            i <= j <= s@.len(),
            skip_digits(s@, i as int) == skip_digits(s@, j as int),
            forall|k: int| i <= k < j ==> is_ascii_digit(#[trigger] s@[k]),
        decreases s@.len() - j,
    {
        j = j + 1;
    }
    j
}

pub(crate) fn find_char_from(s: &Vec<char>, c: char, i: usize) -> (r: usize)
    requires
        i <= s@.len(),
    ensures
        r as int == find_char(s@, c, i as int),
        i <= r <= s@.len(),
{
    let mut j: usize = i;
    while j < s.len() && s[j] != c
        invariant
            i <= j <= s@.len(),
            find_char(s@, c, i as int) == find_char(s@, c, j as int),
        decreases s@.len() - j,
    {
        j = j + 1;
    }
    j
}

pub(crate) fn cat_group_from(t: &Vec<char>, p: usize) -> (r: bool)
    requires
        p <= t@.len(),
    ensures
        r == cat_group_at(t@, p as int),
{
    let j = skip_ws_from(t, p);
    if j > p && j < t.len() && t[j] == '[' && t.len() - j >= 3 {
        let c = find_char_from(t, ']', j + 1);
        c == t.len() - 1
    } else {
        false
    }
}

/// The bounds of a set group at `p`: `(`, `)`, collector start and end.
pub(crate) fn set_group_from(t: &Vec<char>, p: usize) -> (r: Option<(usize, usize, usize, usize)>)
    requires
        p <= t@.len(),
    ensures
        r is Some <==> set_group_at(t@, p as int),
        r matches Some(b) ==> b.0 == set_open(t@, p as int) && b.1 == set_close(t@, p as int)
            && b.2 == number_start(t@, p as int) && b.3 == number_end(t@, p as int) && b.3
            <= t@.len(),
{
    let j = skip_ws_from(t, p);
    if !(j > p && j < t.len() && t[j] == '(') {
        return None;
    }
    let k = find_char_from(t, ')', j + 1);
    if !(k < t.len() && k > j + 1) {
        return None;
    }
    let m = skip_ws_from(t, k + 1);
    if !(m > k + 1) {
        return None;
    }
    let e = skip_non_ws_from(t, m);
    if e > m && (e == t.len() || cat_group_from(t, e)) {
        Some((j, k, m, e))
    } else {
        None
    }
}

pub(crate) fn tail_from(t: &Vec<char>, p: usize) -> (r: bool)
    requires
        p <= t@.len(),
    ensures
        r == tail_at(t@, p as int),
{
    p == t.len() || cat_group_from(t, p) || set_group_from(t, p).is_some()
}

pub proof fn lemma_skip_ws_range(s: Seq<char>, i: int)
    requires
        0 <= i <= s.len(),
    ensures
        i <= skip_ws(s, i) <= s.len(),
    decreases s.len() - i,
{
    if i < s.len() && is_ws(s[i]) {
        lemma_skip_ws_range(s, i + 1);
    }
}

pub proof fn lemma_skip_digits_to(s: Seq<char>, i: int, e: int)
    requires
        0 <= i <= e < s.len(),
        forall|k: int| i <= k < e ==> is_ascii_digit(#[trigger] s[k]),
        !is_ascii_digit(s[e]),
    ensures
        skip_digits(s, i) == e,
    decreases e - i,
{
    if i < e {
        lemma_skip_digits_to(s, i + 1, e);
    }
}

pub proof fn lemma_no_tail_before_end(t: Seq<char>, q: int)
    requires
        0 <= q <= t.len(),
        forall|p: int| q <= p < t.len() ==> !#[trigger] tail_at(t, p),
    ensures
        first_tail(t, q) == t.len(),
    decreases t.len() - q,
{
    if q < t.len() {
        lemma_no_tail_before_end(t, q + 1);
    }
}

} // verus!
