//! Resolving a deck list: every line becomes an entry, an error, or nothing.
use crate::cards::{catalog_card, get_card_by_name, Card, CardMap, CardView};
use crate::grammar::{
    cat_group_from, cat_start, digit_value, digits_end, digits_value, first_tail, is_skipped,
    lemma_no_tail_before_end, lemma_skip_digits_to, lemma_skip_ws_range, line_categories,
    line_collector_number, line_error, line_has_set, line_matches, line_name, line_quantity,
    line_set_code, name_end, name_start, set_group_from, skip_digits_from, skip_ws, skip_ws_from,
    tail_at, tail_from, LineErrorKind,
};
use crate::text::{
    chars_of, is_ascii_digit, is_ws, lemma_split_without_sep, lemma_trim_unchanged, split_bounds,
    split_on, string_of, trim, trim_bounds,
};
use vstd::prelude::*;

verus! {

/// One parsed deck line, with its catalog record when the name has one.
#[derive(Debug, Clone, PartialEq)]
pub struct DeckEntry {
    pub quantity: u32,
    pub name: String,
    pub set_code: Option<String>,
    pub collector_number: Option<String>,
    pub categories: Vec<String>,
    pub card: Option<Card>,
}

/// A line that gave no entry: its 1-based number, its trimmed text and why.
#[derive(Debug, Clone, PartialEq)]
pub struct ParseError {
    pub line_number: usize,
    pub line: String,
    pub error: String,
}

/// A whole resolved deck list.
#[derive(Debug, Clone, PartialEq)]
pub struct DeckResolveResult {
    pub entries: Vec<DeckEntry>,
    pub total_cards: u128,
    pub errors: Vec<ParseError>,
}

pub ghost struct EntryView {
    pub quantity: nat,
    pub name: Seq<char>,
    pub set_code: Option<Seq<char>>,
    pub collector_number: Option<Seq<char>>,
    pub categories: Seq<Seq<char>>,
    pub card: Option<CardView>,
}

pub ghost struct ErrorView {
    pub line_number: nat,
    pub line: Seq<char>,
    pub error: Seq<char>,
}

pub open spec fn opt_string_view(o: Option<String>) -> Option<Seq<char>> {
    match o {
        Some(s) => Some(s@),
        None => None,
    }
}

pub open spec fn opt_card_view(o: Option<Card>) -> Option<CardView> {
    match o {
        Some(c) => Some(c@),
        None => None,
    }
}

pub open spec fn strings_view(v: Seq<String>) -> Seq<Seq<char>> {
    v.map_values(|s: String| s@)
}

impl View for DeckEntry {
    type V = EntryView;

    open spec fn view(&self) -> EntryView {
        EntryView {
            quantity: self.quantity as nat,
            name: self.name@,
            set_code: opt_string_view(self.set_code),
            collector_number: opt_string_view(self.collector_number),
            categories: strings_view(self.categories@),
            card: opt_card_view(self.card),
        }
    }
}

impl View for ParseError {
    type V = ErrorView;

    open spec fn view(&self) -> ErrorView {
        ErrorView { line_number: self.line_number as nat, line: self.line@, error: self.error@ }
    }
}

pub open spec fn entries_view(v: Seq<DeckEntry>) -> Seq<EntryView> {
    v.map_values(|e: DeckEntry| e@)
}

pub open spec fn errors_view(v: Seq<ParseError>) -> Seq<ErrorView> {
    v.map_values(|e: ParseError| e@)
}

/// The entry of a trimmed line without error.
pub open spec fn line_entry(cards: CardMap, t: Seq<char>) -> EntryView {
    EntryView {
        quantity: line_quantity(t),
        name: line_name(t),
        set_code: line_set_code(t),
        collector_number: line_collector_number(t),
        categories: line_categories(t),
        card: catalog_card(cards, line_name(t)),
    }
}

pub open spec fn error_message(k: LineErrorKind) -> Seq<char> {
    match k {
        LineErrorKind::Format => "Failed to parse deck entry format"@,
        LineErrorKind::InvalidQuantity => "Invalid quantity"@,
        LineErrorKind::EmptyName => "Empty card name"@,
    }
}

/// The lines of a deck list: the text between line breaks.
pub open spec fn deck_lines(text: Seq<char>) -> Seq<Seq<char>> {
    split_on(text, '\n')
}

/// The entries of a whole deck list.
pub open spec fn deck_entries(cards: CardMap, text: Seq<char>) -> Seq<EntryView> {
    entries_of(cards, deck_lines(text))
}

/// The entries of the given lines, in order.
pub open spec fn entries_of(cards: CardMap, lines: Seq<Seq<char>>) -> Seq<EntryView>
    decreases lines.len(),
{
    if lines.len() == 0 {
        Seq::empty()
    } else {
        let prev = entries_of(cards, lines.drop_last());
        let t = trim(lines.last());
        if !is_skipped(t) && line_error(t) is None {
            prev.push(line_entry(cards, t))
        } else {
            prev
        }
    }
}

/// The errors of the given lines, in order, numbered from 1.
pub open spec fn errors_of(lines: Seq<Seq<char>>) -> Seq<ErrorView>
    decreases lines.len(),
{
    if lines.len() == 0 {
        Seq::empty()
    } else {
        let prev = errors_of(lines.drop_last());
        let t = trim(lines.last());
        if !is_skipped(t) && line_error(t) is Some {
            prev.push(
                ErrorView {
                    line_number: lines.len(),
                    line: t,
                    error: error_message(line_error(t)->0),
                },
            )
        } else {
            prev
        }
    }
}

pub open spec fn sum_quantities(es: Seq<EntryView>) -> nat
    decreases es.len(),
{
    if es.len() == 0 {
        0
    } else {
        sum_quantities(es.drop_last()) + es.last().quantity
    }
}

fn message_of(k: LineErrorKind) -> (r: String)
    ensures
        r@ == error_message(k),
{
    match k {
        LineErrorKind::Format => "Failed to parse deck entry format".to_owned(),
        LineErrorKind::InvalidQuantity => "Invalid quantity".to_owned(),
        LineErrorKind::EmptyName => "Empty card name".to_owned(),
    }
}

/// A copy of `s[lo..hi]`.
fn copy_range(s: &Vec<char>, lo: usize, hi: usize) -> (r: Vec<char>)
    requires
        lo <= hi <= s@.len(),
    ensures
        r@ == s@.subrange(lo as int, hi as int),
{
    let mut r: Vec<char> = Vec::new();
    let mut i: usize = lo;
    while i < hi
        invariant
            lo <= i <= hi <= s@.len(),
            r@ == s@.subrange(lo as int, i as int),
        decreases hi - i,
    {
        r.push(s[i]);
        assert(r@ =~= s@.subrange(lo as int, i + 1));
        i = i + 1;
    }
    r
}

/// The trimmed pieces of `t[lo..hi]` between commas.
fn categories_in(t: &Vec<char>, lo: usize, hi: usize) -> (r: Vec<String>)
    requires
        lo <= hi <= t@.len(),
    ensures
        strings_view(r@) == split_on(t@.subrange(lo as int, hi as int), ',').map_values(
            |c: Seq<char>| trim(c),
        ),
{
    let bounds = split_bounds(t, lo, hi, ',');
    let ghost pieces = split_on(t@.subrange(lo as int, hi as int), ',');
    let mut out: Vec<String> = Vec::new();
    let mut i: usize = 0;
    while i < bounds.len()
        invariant
            i <= bounds@.len() == pieces.len(),
            out@.len() == i,
            forall|k: int| 0 <= k < i ==> (#[trigger] out@[k])@ == trim(pieces[k]),
            forall|k: int|
                0 <= k < bounds@.len() ==> lo <= (#[trigger] bounds@[k]).0 <= bounds@[k].1 <= hi
                    && t@.subrange(bounds@[k].0 as int, bounds@[k].1 as int) == pieces[k],
            hi <= t@.len(),
        decreases bounds@.len() - i,
    {
        let (a, b) = bounds[i];
        let (x, y) = trim_bounds(t, a, b);
        out.push(string_of(t, x, y));
        i = i + 1;
    }
    assert(strings_view(out@) =~= pieces.map_values(|c: Seq<char>| trim(c)));
    out
}

/// The value of the digits `t[0..d]`, or `None` where it exceeds `u32::MAX`.
fn quantity_in(t: &Vec<char>, d: usize) -> (r: Option<u32>)
    requires
        d <= t@.len(),
        forall|k: int| 0 <= k < d ==> is_ascii_digit(#[trigger] t@[k]),
    ensures
        match r {
            Some(v) => v as nat == digits_value(t@.subrange(0, d as int)),
            None => digits_value(t@.subrange(0, d as int)) > u32::MAX,
        },
{
    let mut v: u64 = 0;
    let mut big = false;
    let mut i: usize = 0;
    while i < d
        invariant
            i <= d <= t@.len(),
            forall|k: int| 0 <= k < d ==> is_ascii_digit(#[trigger] t@[k]),
            big ==> digits_value(t@.subrange(0, i as int)) > u32::MAX,
            !big ==> v as nat == digits_value(t@.subrange(0, i as int)) && v <= u32::MAX,
        decreases d - i,
    {
        assert(t@.subrange(0, i + 1).drop_last() =~= t@.subrange(0, i as int));
        assert(is_ascii_digit(t@[i as int]));
        let c = t[i];
        let dv: u64 = (c as u32 - '0' as u32) as u64;
        assert(dv as nat == digit_value(c));
        if !big {
            let nv: u64 = v * 10 + dv;
            if nv > 0xffff_ffff {
                big = true;
            } else {
                v = nv;
            }
        }
        i = i + 1;
    }
    if big {
        None
    } else {
        Some(v as u32)
    }
}

/// Parses one trimmed line and looks its name up in the catalog.
pub fn parse_line(cards: &CardMap, t: &Vec<char>) -> (r: Result<DeckEntry, LineErrorKind>)
    ensures
        match r {
            Ok(e) => line_error(t@) is None && e@ == line_entry(*cards, t@),
            Err(k) => line_error(t@) == Some(k),
        },
{
    let d = skip_digits_from(t, 0);
    if !(d > 0 && d < t.len() && t.len() - d >= 2 && t[d] == 'x') {
        return Err(LineErrorKind::Format);
    }
    let w = skip_ws_from(t, d + 1);
    if !(w > d + 1 && w < t.len()) {
        return Err(LineErrorKind::Format);
    }
    let mut q: usize = w + 1;
    while q < t.len() && !tail_from(t, q)
        invariant
            w + 1 <= q <= t@.len(),
            first_tail(t@, w + 1) == first_tail(t@, q as int),
        decreases t@.len() - q,
    {
        q = q + 1;
    }
    assert(q == name_end(t@));
    let quantity = match quantity_in(t, d) {
        Some(v) => v,
        None => {
            return Err(LineErrorKind::InvalidQuantity);
        },
    };
    if quantity == 0 {
        return Err(LineErrorKind::InvalidQuantity);
    }
    let (a, b) = trim_bounds(t, w, q);
    if a == b {
        return Err(LineErrorKind::EmptyName);
    }
    let name = string_of(t, a, b);
    let set = if q < t.len() {
        set_group_from(t, q)
    } else {
        None
    };
    let (set_code, collector_number, p) = match set {
        Some((j, k, m, e)) => (Some(string_of(t, j + 1, k)), Some(string_of(t, m, e)), e),
        None => (None, None, q),
    };
    assert(p == cat_start(t@));
    let categories = if p < t.len() && cat_group_from(t, p) {
        let j = skip_ws_from(t, p);
        categories_in(t, j + 1, t.len() - 1)
    } else {
        Vec::new()
    };
    let card = get_card_by_name(cards, name.as_str());
    let entry = DeckEntry { quantity, name, set_code, collector_number, categories, card };
    proof {
        assert(entry@.categories == line_categories(t@));
        assert(entry@ == line_entry(*cards, t@));
    }
    Ok(entry)
}

fn is_skipped_line(t: &Vec<char>) -> (r: bool)
    ensures
        r == is_skipped(t@),
{
    t.len() == 0 || t[0] == '#' || (t.len() >= 2 && t[0] == '/' && t[1] == '/')
}

/// Parses every line of `input` in order. Blank lines and `#` or `//` comments
/// give nothing; every other line gives an entry or an error, and no line stops
/// the others. `total_cards` is the sum of the entries' quantities.
pub fn resolve_deck_list(input: &str, cards: &CardMap) -> (r: DeckResolveResult)
    ensures
        entries_view(r.entries@) == entries_of(*cards, deck_lines(input@)),
        errors_view(r.errors@) == errors_of(deck_lines(input@)),
        r.total_cards == sum_quantities(entries_view(r.entries@)),
{
    let text = chars_of(input);
    let lines = split_bounds(&text, 0, text.len(), '\n');
    let ghost all = deck_lines(input@);
    assert(text@.subrange(0, text@.len() as int) =~= text@);
    let mut entries: Vec<DeckEntry> = Vec::new();
    let mut errors: Vec<ParseError> = Vec::new();
    let mut total: u128 = 0;
    let mut i: usize = 0;
    while i < lines.len()
        invariant
            i <= lines@.len() == all.len(),
            forall|k: int|
                0 <= k < lines@.len() ==> (#[trigger] lines@[k]).0 <= lines@[k].1 <= text@.len()
                    && text@.subrange(lines@[k].0 as int, lines@[k].1 as int) == all[k],
            entries_view(entries@) == entries_of(*cards, all.take(i as int)),
            errors_view(errors@) == errors_of(all.take(i as int)),
            total == sum_quantities(entries_view(entries@)),
            total <= i as int * 0xffff_ffff,
        decreases lines@.len() - i,
    {
        assert(all.take(i + 1).drop_last() =~= all.take(i as int));
        assert(all.take(i + 1).last() == all[i as int]);
        let (lo, hi) = lines[i];
        let (a, b) = trim_bounds(&text, lo, hi);
        let t = copy_range(&text, a, b);
        assert(t@ == trim(all[i as int]));
        assert(t@.subrange(0, t@.len() as int) =~= t@);
        if is_skipped_line(&t) {
            assert(entries_view(entries@) == entries_of(*cards, all.take(i + 1)));
            assert(errors_view(errors@) == errors_of(all.take(i + 1)));
        } else {
            match parse_line(cards, &t) {
                Ok(e) => {
                    let ghost before = entries@;
                    let ghost ev = e@;
                    total = total + e.quantity as u128;
                    entries.push(e);
                    assert(entries_view(entries@) =~= entries_view(before).push(ev));
                    assert(entries_view(entries@).drop_last() =~= entries_view(before));
                },
                Err(k) => {
                    let err = ParseError {
                        line_number: i + 1,
                        line: string_of(&t, 0, t.len()),
                        error: message_of(k),
                    };
                    let ghost before = errors@;
                    assert(err@ == (ErrorView {
                        line_number: all.take(i + 1).len(),
                        line: t@,
                        error: error_message(k),
                    }));
                    errors.push(err);
                    assert(errors_view(errors@) =~= errors_view(before).push(err@));
                },
            }
        }
        i = i + 1;
    }
    assert(all.take(lines@.len() as int) =~= all);
    DeckResolveResult { entries, total_cards: total, errors }
}

proof fn lemma_skipped_lines(cards: CardMap, lines: Seq<Seq<char>>)
    requires
        forall|i: int| 0 <= i < lines.len() ==> is_skipped(trim(#[trigger] lines[i])),
    ensures
        entries_of(cards, lines).len() == 0,
        errors_of(lines).len() == 0,
    decreases lines.len(),
{
    if lines.len() > 0 {
        let prev = lines.drop_last();
        assert forall|i: int| 0 <= i < prev.len() implies is_skipped(trim(#[trigger] prev[i])) by {
            assert(prev[i] == lines[i]);
        }
        lemma_skipped_lines(cards, prev);
        assert(is_skipped(trim(lines[lines.len() - 1])));
    }
}

/// A deck list of nothing but blank lines and `#` or `//` comments has no
/// entries and no errors.
pub proof fn lemma_blank_and_comment_lines(cards: CardMap, text: Seq<char>)
    requires
        forall|i: int|
            0 <= i < deck_lines(text).len() ==> is_skipped(trim(#[trigger] deck_lines(text)[i])),
    ensures
        deck_entries(cards, text).len() == 0,
        errors_of(deck_lines(text)).len() == 0,
{
    lemma_skipped_lines(cards, deck_lines(text));
}

/// An entry with its catalog record left out.
pub open spec fn without_card(e: EntryView) -> EntryView {
    EntryView { card: None, ..e }
}

/// The catalog decides only the `card` of each entry: which lines give entries,
/// what those entries hold otherwise, and the total count are the same whatever
/// the catalog holds, and `card` is absent exactly where the catalog has no
/// record of the name.
pub proof fn lemma_catalog_fills_only_cards(c1: CardMap, c2: CardMap, lines: Seq<Seq<char>>)
    ensures
        entries_of(c1, lines).len() == entries_of(c2, lines).len(),
        forall|i: int|
            0 <= i < entries_of(c1, lines).len() ==> without_card(#[trigger] entries_of(c1, lines)[i])
                == without_card(entries_of(c2, lines)[i]),
        forall|i: int|
            0 <= i < entries_of(c1, lines).len() ==> (#[trigger] entries_of(c1, lines)[i]).card
                == catalog_card(c1, entries_of(c1, lines)[i].name),
        sum_quantities(entries_of(c1, lines)) == sum_quantities(entries_of(c2, lines)),
    decreases lines.len(),
{
    if lines.len() > 0 {
        let prev = lines.drop_last();
        lemma_catalog_fills_only_cards(c1, c2, prev);
        let t = trim(lines.last());
        if !is_skipped(t) && line_error(t) is None {
            let p1 = entries_of(c1, prev);
            let p2 = entries_of(c2, prev);
            assert(p1.push(line_entry(c1, t)).drop_last() =~= p1);
            assert(p2.push(line_entry(c2, t)).drop_last() =~= p2);
        }
    }
}

/// The line `<digits>x <name>`.
pub open spec fn plain_line(digits: Seq<char>, name: Seq<char>) -> Seq<char> {
    digits + seq!['x', ' '] + name
}

/// A line `<q>x <name>` with a valid quantity and a trimmed name that opens no
/// group gives exactly one entry: that quantity and name, no set code, no
/// collector number, no categories; and no error.
pub proof fn lemma_plain_line_entry(cards: CardMap, digits: Seq<char>, name: Seq<char>)
    requires
        digits.len() > 0,
        forall|k: int| 0 <= k < digits.len() ==> is_ascii_digit(#[trigger] digits[k]),
        1 <= digits_value(digits) <= u32::MAX,
        name.len() > 0,
        !is_ws(name[0]),
        !is_ws(name.last()),
        forall|k: int|
            0 <= k < name.len() ==> #[trigger] name[k] != '(' && name[k] != '[' && name[k] != '\n',
    ensures
        deck_entries(cards, plain_line(digits, name)) == seq![
            EntryView {
                quantity: digits_value(digits),
                name,
                set_code: None,
                collector_number: None,
                categories: Seq::empty(),
                card: catalog_card(cards, name),
            },
        ],
        errors_of(deck_lines(plain_line(digits, name))).len() == 0,
{
    let t = plain_line(digits, name);
    let d = digits.len() as int;
    let w = d + 2;
    assert(t.len() == d + 2 + name.len());
    assert forall|k: int| 0 <= k < d implies t[k] == digits[k] by {}
    assert forall|k: int| w <= k < t.len() implies t[k] == name[k - w] by {}
    assert(t[d] == 'x');
    assert(t[d + 1] == ' ');
    assert(t.last() == name.last());
    assert(is_ascii_digit(t[0]));
    lemma_trim_unchanged(t);
    assert(!is_skipped(t));
    lemma_skip_digits_to(t, 0, d);
    assert(digits_end(t) == d);
    assert(skip_ws(t, w) == w);
    assert(name_start(t) == w);
    assert(line_matches(t));
    assert forall|p: int| w + 1 <= p < t.len() implies !#[trigger] tail_at(t, p) by {
        lemma_skip_ws_range(t, p);
        let j = skip_ws(t, p);
        if j < t.len() {
            assert(t[j] == name[j - w]);
        }
    }
    lemma_no_tail_before_end(t, w + 1);
    assert(name_end(t) == t.len());
    assert(t.subrange(w, t.len() as int) =~= name);
    lemma_trim_unchanged(name);
    assert(line_name(t) == name);
    assert(t.subrange(0, d) =~= digits);
    assert(line_error(t) is None);
    assert(line_categories(t) == Seq::<Seq<char>>::empty());
    assert forall|k: int| 0 <= k < t.len() implies t[k] != '\n' by {
        if k < d {
            assert(t[k] == digits[k]);
        } else if k >= w {
            assert(t[k] == name[k - w]);
        }
    }
    lemma_split_without_sep(t, '\n');
    let lines = deck_lines(t);
    assert(lines == seq![t]);
    assert(lines.drop_last() =~= Seq::<Seq<char>>::empty());
    assert(lines.last() == t);
    assert(entries_of(cards, lines.drop_last()) == Seq::<EntryView>::empty());
    assert(errors_of(lines.drop_last()) == Seq::<ErrorView>::empty());
    assert(!line_has_set(t));
    let e = EntryView {
        quantity: digits_value(digits),
        name,
        set_code: None,
        collector_number: None,
        categories: Seq::empty(),
        card: catalog_card(cards, name),
    };
    assert(line_entry(cards, t) == e);
    assert(entries_of(cards, lines) == Seq::<EntryView>::empty().push(e));
    assert(Seq::<EntryView>::empty().push(e) =~= seq![e]);
}

} // verus!
