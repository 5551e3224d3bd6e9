//! Comparing two deck lists card by card.
use crate::cards::{Card, CardMap, CardView};
use crate::deck::{
    deck_entries, deck_lines, entries_view, errors_of, errors_view, opt_card_view, resolve_deck_list,
    strings_view, DeckEntry, EntryView, ParseError,
};
use crate::text::{chars_le, chars_of, lemma_lex_total, lex_le};
use vstd::prelude::*;

verus! {

/// How one card changed between two decks.
#[derive(Debug, Clone, PartialEq)]
pub struct DeckDiffEntry {
    pub card_name: String,
    pub old_quantity: u32,
    pub new_quantity: u32,
    pub change_type: String,
    pub card: Option<Card>,
    pub categories: Vec<String>,
}

/// Two deck lists to compare.
#[derive(Debug, Clone, PartialEq)]
pub struct DeckDiffRequest {
    pub deck_list_1: String,
    pub deck_list_2: String,
}

/// The classified cards of two decks, each bucket sorted by name, and each
/// deck's own line errors.
#[derive(Debug, Clone, PartialEq)]
pub struct DeckDiffResult {
    pub added: Vec<DeckDiffEntry>,
    pub removed: Vec<DeckDiffEntry>,
    pub modified: Vec<DeckDiffEntry>,
    pub unchanged: Vec<DeckDiffEntry>,
    pub errors_deck_1: Vec<ParseError>,
    pub errors_deck_2: Vec<ParseError>,
}

pub ghost struct DiffView {
    pub card_name: Seq<char>,
    pub old_quantity: nat,
    pub new_quantity: nat,
    pub change_type: Seq<char>,
    pub card: Option<CardView>,
    pub categories: Seq<Seq<char>>,
}

impl View for DeckDiffEntry {
    type V = DiffView;

    open spec fn view(&self) -> DiffView {
        DiffView {
            card_name: self.card_name@,
            old_quantity: self.old_quantity as nat,
            new_quantity: self.new_quantity as nat,
            change_type: self.change_type@,
            card: opt_card_view(self.card),
            categories: strings_view(self.categories@),
        }
    }
}

pub open spec fn diffs_view(v: Seq<DeckDiffEntry>) -> Seq<DiffView> {
    v.map_values(|d: DeckDiffEntry| d@)
}

#[derive(Debug, Clone, Copy, PartialEq, Eq, Structural)]
pub enum ChangeKind {
    Added,
    Removed,
    Modified,
    Unchanged,
}

pub open spec fn change_label(k: ChangeKind) -> Seq<char> {
    match k {
        ChangeKind::Added => "added"@,
        ChangeKind::Removed => "removed"@,
        ChangeKind::Modified => "modified"@,
        ChangeKind::Unchanged => "unchanged"@,
    }
}

/// The last entry named `n`: a later line with the same name replaces an earlier one.
pub open spec fn last_entry(es: Seq<EntryView>, n: Seq<char>) -> Option<EntryView>
    decreases es.len(),
{
    if es.len() == 0 {
        None
    } else if es.last().name == n {
        Some(es.last())
    } else {
        last_entry(es.drop_last(), n)
    }
}

/// How the card named `n` changed from `a` to `b`; `None` where neither has it.
pub open spec fn classify(a: Seq<EntryView>, b: Seq<EntryView>, n: Seq<char>) -> Option<ChangeKind> {
    match (last_entry(a, n), last_entry(b, n)) {
        (None, Some(_)) => Some(ChangeKind::Added),
        (Some(_), None) => Some(ChangeKind::Removed),
        (Some(x), Some(y)) => if x.quantity == y.quantity {
            Some(ChangeKind::Unchanged)
        } else {
            Some(ChangeKind::Modified)
        },
        (None, None) => None,
    }
}

/// The diff entry of a card of kind `k`: quantities from each side (0 where
/// absent), record and categories from the second deck for additions and
/// modifications, from the first otherwise.
pub open spec fn diff_entry_of(a: Seq<EntryView>, b: Seq<EntryView>, n: Seq<char>, k: ChangeKind) -> DiffView {
    let x = last_entry(a, n)->0;
    let y = last_entry(b, n)->0;
    let old_quantity = if k is Added { 0 } else { x.quantity };
    let new_quantity = if k is Removed { 0 } else { y.quantity };
    let src = if k is Added || k is Modified { y } else { x };
    DiffView {
        card_name: n,
        old_quantity,
        new_quantity,
        change_type: change_label(k),
        card: src.card,
        categories: src.categories,
    }
}

pub open spec fn names_sorted(v: Seq<DiffView>) -> bool {
    forall|i: int| 0 <= i < v.len() - 1 ==> lex_le(#[trigger] v[i].card_name, v[i + 1].card_name)
}

pub open spec fn names_distinct(v: Seq<DiffView>) -> bool {
    forall|i: int, j: int| 0 <= i < j < v.len() ==> v[i].card_name != v[j].card_name
}

pub open spec fn has_name(v: Seq<DiffView>, n: Seq<char>) -> bool {
    exists|i: int| 0 <= i < v.len() && v[i].card_name == n
}

/// `v` holds, sorted by name and once each, exactly the cards of kind `k`.
pub open spec fn is_bucket(v: Seq<DiffView>, a: Seq<EntryView>, b: Seq<EntryView>, k: ChangeKind) -> bool {
    &&& names_sorted(v)
    &&& names_distinct(v)
    &&& forall|i: int|
        0 <= i < v.len() ==> classify(a, b, #[trigger] v[i].card_name) == Some(k) && v[i]
            == diff_entry_of(a, b, v[i].card_name, k)
    &&& forall|n: Seq<char>| #[trigger] classify(a, b, n) == Some(k) ==> has_name(v, n)
}

/// The entry at `k` is the last one with its name.
pub open spec fn is_last(es: Seq<EntryView>, k: int) -> bool {
    forall|m: int| k < m < es.len() ==> (#[trigger] es[m]).name != es[k].name
}

/// `v` is a bucket of kind `k` built from the last-named entries of `src[..i]`.
pub open spec fn partial_bucket(
    v: Seq<DiffView>,
    a: Seq<EntryView>,
    b: Seq<EntryView>,
    k: ChangeKind,
    src: Seq<EntryView>,
    i: int,
) -> bool {
    &&& names_sorted(v)
    &&& names_distinct(v)
    &&& forall|j: int|
        0 <= j < v.len() ==> classify(a, b, #[trigger] v[j].card_name) == Some(k) && v[j]
            == diff_entry_of(a, b, v[j].card_name, k)
    &&& forall|j: int, m: int|
        0 <= j < v.len() && i <= m < src.len() ==> (#[trigger] src[m]).name
            != (#[trigger] v[j]).card_name
    &&& forall|q: int|
        0 <= q < i && is_last(src, q) && classify(a, b, (#[trigger] src[q]).name) == Some(k)
            ==> has_name(v, src[q].name)
}

proof fn lemma_last_entry_index(es: Seq<EntryView>, n: Seq<char>)
    requires
        last_entry(es, n) is Some,
    ensures
        exists|q: int| 0 <= q < es.len() && is_last(es, q) && (#[trigger] es[q]).name == n,
    decreases es.len(),
{
    if es.last().name == n {
        assert(is_last(es, es.len() - 1));
        assert(es[es.len() - 1].name == n);
    } else {
        let prev = es.drop_last();
        lemma_last_entry_index(prev, n);
        let q = choose|q: int| 0 <= q < prev.len() && is_last(prev, q) && (#[trigger] prev[q]).name == n;
        assert(es[q] == prev[q]);
        assert forall|m: int| q < m < es.len() implies (#[trigger] es[m]).name != es[q].name by {
            if m < prev.len() {
                assert(es[m] == prev[m]);
            }
        }
    }
}

proof fn lemma_partial_complete(
    v: Seq<DiffView>,
    a: Seq<EntryView>,
    b: Seq<EntryView>,
    k: ChangeKind,
    src: Seq<EntryView>,
)
    requires
        partial_bucket(v, a, b, k, src, src.len() as int),
        forall|n: Seq<char>| #[trigger] classify(a, b, n) == Some(k) ==> last_entry(src, n) is Some,
    ensures
        is_bucket(v, a, b, k),
{
    assert forall|n: Seq<char>| #[trigger] classify(a, b, n) == Some(k) implies has_name(v, n) by {
        lemma_last_entry_index(src, n);
        let q = choose|q: int| 0 <= q < src.len() && is_last(src, q) && (#[trigger] src[q]).name == n;
        assert(classify(a, b, src[q].name) == Some(k));
    }
}

proof fn lemma_partial_skip(
    v: Seq<DiffView>,
    a: Seq<EntryView>,
    b: Seq<EntryView>,
    k: ChangeKind,
    src: Seq<EntryView>,
    i: int,
)
    requires
        0 <= i < src.len(),
        partial_bucket(v, a, b, k, src, i),
        !(is_last(src, i) && classify(a, b, src[i].name) == Some(k)),
    ensures
        partial_bucket(v, a, b, k, src, i + 1),
{
}

proof fn lemma_partial_insert(
    v: Seq<DiffView>,
    w: Seq<DiffView>,
    p: int,
    x: DiffView,
    a: Seq<EntryView>,
    b: Seq<EntryView>,
    k: ChangeKind,
    src: Seq<EntryView>,
    i: int,
)
    requires
        0 <= i < src.len(),
        0 <= p <= v.len(),
        partial_bucket(v, a, b, k, src, i),
        is_last(src, i),
        classify(a, b, src[i].name) == Some(k),
        x == diff_entry_of(a, b, src[i].name, k),
        w == v.insert(p, x),
        names_sorted(w),
        names_distinct(w),
    ensures
        partial_bucket(w, a, b, k, src, i + 1),
{
    assert forall|j: int| 0 <= j < w.len() implies classify(a, b, #[trigger] w[j].card_name)
        == Some(k) && w[j] == diff_entry_of(a, b, w[j].card_name, k) by {
        if j < p {
            assert(w[j] == v[j]);
        } else if j > p {
            assert(w[j] == v[j - 1]);
        }
    }
    assert forall|j: int, m: int| 0 <= j < w.len() && i + 1 <= m < src.len() implies (#[trigger] src[m]).name
        != (#[trigger] w[j]).card_name by {
        if j < p {
            assert(w[j] == v[j]);
        } else if j > p {
            assert(w[j] == v[j - 1]);
        }
    }
    assert forall|q: int|
        0 <= q < i + 1 && is_last(src, q) && classify(a, b, (#[trigger] src[q]).name) == Some(k)
        implies has_name(w, src[q].name) by {
        if q == i {
            assert(w[p] == x);
        } else {
            let j = choose|j: int| 0 <= j < v.len() && v[j].card_name == src[q].name;
            if j < p {
                assert(w[j] == v[j]);
            } else {
                assert(w[j + 1] == v[j]);
            }
        }
    }
}

proof fn lemma_insert_keeps_order(v: Seq<DiffView>, p: int, x: DiffView)
    requires
        0 <= p <= v.len(),
        names_sorted(v),
        names_distinct(v),
        !has_name(v, x.card_name),
        p > 0 ==> lex_le(v[p - 1].card_name, x.card_name),
        p < v.len() ==> lex_le(x.card_name, v[p].card_name),
    ensures
        names_sorted(v.insert(p, x)),
        names_distinct(v.insert(p, x)),
{
    let w = v.insert(p, x);
    assert forall|i: int| 0 <= i < w.len() - 1 implies lex_le(#[trigger] w[i].card_name, w[i + 1].card_name) by {
        if i + 1 < p {
            assert(w[i] == v[i] && w[i + 1] == v[i + 1]);
        } else if i + 1 == p {
            assert(w[i] == v[i] && w[i + 1] == x);
        } else if i == p {
            assert(w[i] == x && w[i + 1] == v[i]);
        } else {
            assert(w[i] == v[i - 1] && w[i + 1] == v[i]);
        }
    }
    assert forall|i: int, j: int| 0 <= i < j < w.len() implies w[i].card_name != w[j].card_name by {
        if i == p {
            assert(w[j] == v[j - 1]);
        } else if j == p {
            assert(w[i] == v[i]);
        } else {
            let oi = if i < p { i } else { i - 1 };
            let oj = if j < p { j } else { j - 1 };
            assert(w[i] == v[oi] && w[j] == v[oj]);
        }
    }
}

/// Inserts `x` where its name keeps `bucket` sorted; returns the position.
fn place(bucket: &mut Vec<DeckDiffEntry>, x: DeckDiffEntry) -> (p: usize)
    requires
        names_sorted(diffs_view(old(bucket)@)),
        names_distinct(diffs_view(old(bucket)@)),
        !has_name(diffs_view(old(bucket)@), x@.card_name),
    ensures
        p <= old(bucket)@.len(),
        diffs_view(final(bucket)@) == diffs_view(old(bucket)@).insert(p as int, x@),
        names_sorted(diffs_view(final(bucket)@)),
        names_distinct(diffs_view(final(bucket)@)),
{
    let ghost v = diffs_view(bucket@);
    let ghost xv = x@;
    let xn = chars_of(x.card_name.as_str());
    let mut p: usize = 0;
    while p < bucket.len() && chars_le(&chars_of(bucket[p].card_name.as_str()), &xn)
        invariant
            p <= bucket@.len(),
            v == diffs_view(bucket@),
            xn@ == xv.card_name,
            p > 0 ==> lex_le(v[p - 1].card_name, xv.card_name),
        decreases bucket@.len() - p,
    {
        p = p + 1;
    }
    proof {
        if p < v.len() {
            lemma_lex_total(v[p as int].card_name, xv.card_name);
        }
    }
    bucket.insert(p, x);
    proof {
        assert(diffs_view(bucket@) =~= v.insert(p as int, xv));
        lemma_insert_keeps_order(v, p as int, xv);
    }
    p
}

/// The index of the last entry named `name`.
fn last_index(es: &Vec<DeckEntry>, name: &String) -> (r: Option<usize>)
    ensures
        match r {
            Some(j) => j < es@.len() && entries_view(es@)[j as int].name == name@ && is_last(
                entries_view(es@),
                j as int,
            ) && last_entry(entries_view(es@), name@) == Some(entries_view(es@)[j as int]),
            None => last_entry(entries_view(es@), name@) is None,
        },
{
    let ghost ev = entries_view(es@);
    let mut j: usize = es.len();
    assert(ev.take(j as int) =~= ev);
    while j > 0
        invariant
            j <= es@.len() == ev.len(),
            ev == entries_view(es@),
            last_entry(ev, name@) == last_entry(ev.take(j as int), name@),
            forall|m: int| j <= m < ev.len() ==> (#[trigger] ev[m]).name != name@,
        decreases j,
    {
        assert(ev.take(j as int).last() == ev[j - 1]);
        if es[j - 1].name == *name {
            return Some(j - 1);
        }
        assert(ev.take(j as int).drop_last() =~= ev.take(j - 1));
        j = j - 1;
    }
    None
}

fn copy_card(c: &Option<Card>) -> (r: Option<Card>)
    ensures
        opt_card_view(r) == opt_card_view(*c),
{
    match c {
        Some(card) => Some(card.duplicate()),
        None => None,
    }
}

fn copy_strings(v: &Vec<String>) -> (r: Vec<String>)
    ensures
        strings_view(r@) == strings_view(v@),
{
    let mut out: Vec<String> = Vec::new();
    let mut i: usize = 0;
    while i < v.len()
        invariant
            i <= v@.len(),
            out@.len() == i,
            forall|k: int| 0 <= k < i ==> (#[trigger] out@[k])@ == v@[k]@,
        decreases v@.len() - i,
    {
        out.push(v[i].clone());
        i = i + 1;
    }
    assert(strings_view(out@) =~= strings_view(v@));
    out
}

fn label_of(k: ChangeKind) -> (r: String)
    ensures
        r@ == change_label(k),
{
    match k {
        ChangeKind::Added => "added".to_owned(),
        ChangeKind::Removed => "removed".to_owned(),
        ChangeKind::Modified => "modified".to_owned(),
        ChangeKind::Unchanged => "unchanged".to_owned(),
    }
}

fn make_entry(
    name: &String,
    old_quantity: u32,
    new_quantity: u32,
    k: ChangeKind,
    src: &DeckEntry,
) -> (r: DeckDiffEntry)
    ensures
        r@ == (DiffView {
            card_name: name@,
            old_quantity: old_quantity as nat,
            new_quantity: new_quantity as nat,
            change_type: change_label(k),
            card: src@.card,
            categories: src@.categories,
        }),
{
    DeckDiffEntry {
        card_name: name.clone(),
        old_quantity,
        new_quantity,
        change_type: label_of(k),
        card: copy_card(&src.card),
        categories: copy_strings(&src.categories),
    }
}

/// Resolves both lists and classifies every card name that either holds. A
/// later line with the same name replaces an earlier one. Each bucket is
/// sorted by name; each list keeps its own errors.
pub fn diff_decks(deck1_input: &str, deck2_input: &str, cards: &CardMap) -> (r: DeckDiffResult)
    ensures
        is_bucket(
            diffs_view(r.added@),
            deck_entries(*cards, deck1_input@),
            deck_entries(*cards, deck2_input@),
            ChangeKind::Added,
        ),
        is_bucket(
            diffs_view(r.removed@),
            deck_entries(*cards, deck1_input@),
            deck_entries(*cards, deck2_input@),
            ChangeKind::Removed,
        ),
        is_bucket(
            diffs_view(r.modified@),
            deck_entries(*cards, deck1_input@),
            deck_entries(*cards, deck2_input@),
            ChangeKind::Modified,
        ),
        is_bucket(
            diffs_view(r.unchanged@),
            deck_entries(*cards, deck1_input@),
            deck_entries(*cards, deck2_input@),
            ChangeKind::Unchanged,
        ),
        errors_view(r.errors_deck_1@) == errors_of(deck_lines(deck1_input@)),
        errors_view(r.errors_deck_2@) == errors_of(deck_lines(deck2_input@)),
{
    let r1 = resolve_deck_list(deck1_input, cards);
    let r2 = resolve_deck_list(deck2_input, cards);
    let ghost a = entries_view(r1.entries@);
    let ghost b = entries_view(r2.entries@);
    let mut added: Vec<DeckDiffEntry> = Vec::new();
    let mut removed: Vec<DeckDiffEntry> = Vec::new();
    let mut modified: Vec<DeckDiffEntry> = Vec::new();
    let mut unchanged: Vec<DeckDiffEntry> = Vec::new();
    let mut i: usize = 0;
    while i < r1.entries.len()
        invariant
            i <= a.len(),
            a == entries_view(r1.entries@),
            b == entries_view(r2.entries@),
            partial_bucket(diffs_view(removed@), a, b, ChangeKind::Removed, a, i as int),
            partial_bucket(diffs_view(modified@), a, b, ChangeKind::Modified, a, i as int),
            partial_bucket(diffs_view(unchanged@), a, b, ChangeKind::Unchanged, a, i as int),
        decreases a.len() - i,
    {
        let e = &r1.entries[i];
        let ghost n = e.name@;
        assert(a[i as int] == e@);
        let last = match last_index(&r1.entries, &e.name) {
            Some(j) => j == i,
            None => false,
        };
        if !last {
            proof {
                lemma_partial_skip(diffs_view(removed@), a, b, ChangeKind::Removed, a, i as int);
                lemma_partial_skip(diffs_view(modified@), a, b, ChangeKind::Modified, a, i as int);
                lemma_partial_skip(diffs_view(unchanged@), a, b, ChangeKind::Unchanged, a, i as int);
            }
        } else {
            let ghost (rv, mv, uv) = (diffs_view(removed@), diffs_view(modified@), diffs_view(unchanged@));
            match last_index(&r2.entries, &e.name) {
                None => {
                    assert(classify(a, b, n) == Some(ChangeKind::Removed));
                    let x = make_entry(&e.name, e.quantity, 0, ChangeKind::Removed, e);
                    assert(!has_name(rv, n));
                    let p = place(&mut removed, x);
                    proof {
                        lemma_partial_insert(
                            rv,
                            diffs_view(removed@),
                            p as int,
                            x@,
                            a,
                            b,
                            ChangeKind::Removed,
                            a,
                            i as int,
                        );
                        lemma_partial_skip(mv, a, b, ChangeKind::Modified, a, i as int);
                        lemma_partial_skip(uv, a, b, ChangeKind::Unchanged, a, i as int);
                    }
                },
                Some(jb) => {
                    let f = &r2.entries[jb];
                    assert(b[jb as int] == f@);
                    if e.quantity == f.quantity {
                        assert(classify(a, b, n) == Some(ChangeKind::Unchanged));
                        let x = make_entry(&e.name, e.quantity, f.quantity, ChangeKind::Unchanged, e);
                        assert(!has_name(uv, n));
                        let p = place(&mut unchanged, x);
                        proof {
                            lemma_partial_insert(
                                uv,
                                diffs_view(unchanged@),
                                p as int,
                                x@,
                                a,
                                b,
                                ChangeKind::Unchanged,
                                a,
                                i as int,
                            );
                            lemma_partial_skip(mv, a, b, ChangeKind::Modified, a, i as int);
                            lemma_partial_skip(rv, a, b, ChangeKind::Removed, a, i as int);
                        }
                    } else {
                        assert(classify(a, b, n) == Some(ChangeKind::Modified));
                        let x = make_entry(&e.name, e.quantity, f.quantity, ChangeKind::Modified, f);
                        assert(!has_name(mv, n));
                        let p = place(&mut modified, x);
                        proof {
                            lemma_partial_insert(
                                mv,
                                diffs_view(modified@),
                                p as int,
                                x@,
                                a,
                                b,
                                ChangeKind::Modified,
                                a,
                                i as int,
                            );
                            lemma_partial_skip(uv, a, b, ChangeKind::Unchanged, a, i as int);
                            lemma_partial_skip(rv, a, b, ChangeKind::Removed, a, i as int);
                        }
                    }
                },
            }
        }
        i = i + 1;
    }
    let mut i: usize = 0;
    while i < r2.entries.len()
        invariant
            i <= b.len(),
            a == entries_view(r1.entries@),
            b == entries_view(r2.entries@),
            partial_bucket(diffs_view(added@), a, b, ChangeKind::Added, b, i as int),
        decreases b.len() - i,
    {
        let f = &r2.entries[i];
        let ghost n = f.name@;
        assert(b[i as int] == f@);
        let last = match last_index(&r2.entries, &f.name) {
            Some(j) => j == i,
            None => false,
        };
        let ghost av = diffs_view(added@);
        if last && last_index(&r1.entries, &f.name).is_none() {
            assert(classify(a, b, n) == Some(ChangeKind::Added));
            let x = make_entry(&f.name, 0, f.quantity, ChangeKind::Added, f);
            assert(!has_name(av, n));
            let p = place(&mut added, x);
            proof {
                lemma_partial_insert(
                    av,
                    diffs_view(added@),
                    p as int,
                    x@,
                    a,
                    b,
                    ChangeKind::Added,
                    b,
                    i as int,
                );
            }
        } else {
            proof {
                lemma_partial_skip(av, a, b, ChangeKind::Added, b, i as int);
            }
        }
        i = i + 1;
    }
    proof {
        lemma_partial_complete(diffs_view(added@), a, b, ChangeKind::Added, b);
        lemma_partial_complete(diffs_view(removed@), a, b, ChangeKind::Removed, a);
        lemma_partial_complete(diffs_view(modified@), a, b, ChangeKind::Modified, a);
        lemma_partial_complete(diffs_view(unchanged@), a, b, ChangeKind::Unchanged, a);
    }
    DeckDiffResult {
        added,
        removed,
        modified,
        unchanged,
        errors_deck_1: r1.errors,
        errors_deck_2: r2.errors,
    }
}

proof fn lemma_named_entry_found(es: Seq<EntryView>, k: int)
    requires
        0 <= k < es.len(),
    ensures
        last_entry(es, es[k].name) is Some,
    decreases es.len(),
{
    if es.last().name != es[k].name {
        let prev = es.drop_last();
        assert(k < prev.len());
        assert(prev[k] == es[k]);
        lemma_named_entry_found(prev, k);
    }
}

/// Diffing a deck against itself adds, removes and modifies nothing, and lists
/// every card of the deck, sorted by name, as unchanged.
pub proof fn lemma_diff_with_itself(
    cards: CardMap,
    text: Seq<char>,
    added: Seq<DiffView>,
    removed: Seq<DiffView>,
    modified: Seq<DiffView>,
    unchanged: Seq<DiffView>,
)
    requires
        is_bucket(added, deck_entries(cards, text), deck_entries(cards, text), ChangeKind::Added),
        is_bucket(removed, deck_entries(cards, text), deck_entries(cards, text), ChangeKind::Removed),
        is_bucket(modified, deck_entries(cards, text), deck_entries(cards, text), ChangeKind::Modified),
        is_bucket(unchanged, deck_entries(cards, text), deck_entries(cards, text), ChangeKind::Unchanged),
    ensures
        added.len() == 0,
        removed.len() == 0,
        modified.len() == 0,
        names_sorted(unchanged),
        forall|k: int|
            0 <= k < deck_entries(cards, text).len() ==> has_name(
                unchanged,
                (#[trigger] deck_entries(cards, text)[k]).name,
            ),
{
    let es = deck_entries(cards, text);
    if added.len() > 0 {
        assert(classify(es, es, added[0].card_name) == Some(ChangeKind::Added));
    }
    if removed.len() > 0 {
        assert(classify(es, es, removed[0].card_name) == Some(ChangeKind::Removed));
    }
    if modified.len() > 0 {
        assert(classify(es, es, modified[0].card_name) == Some(ChangeKind::Modified));
    }
    assert forall|k: int| 0 <= k < es.len() implies has_name(unchanged, (#[trigger] es[k]).name) by {
        lemma_named_entry_found(es, k);
        assert(classify(es, es, es[k].name) == Some(ChangeKind::Unchanged));
    }
}

} // verus!
