//! The card catalog: records keyed by exact name, looked up case-sensitively.
use std::collections::HashMap;
use std::sync::Arc;
use vstd::prelude::*;

verus! {

#[derive(Debug, Clone, PartialEq)]
pub struct ImageUris {
    pub normal: String,
}

#[derive(Debug, Clone, PartialEq)]
pub struct Card {
    pub id: String,
    pub name: String,
    pub image_status: String,
    pub image_uris: Option<ImageUris>,
}

/// What a card record holds, as character sequences.
pub ghost struct CardView {
    pub id: Seq<char>,
    pub name: Seq<char>,
    pub image_status: Seq<char>,
    pub image_uris: Option<Seq<char>>,
}

impl View for Card {
    type V = CardView;

    open spec fn view(&self) -> CardView {
        CardView {
            id: self.id@,
            name: self.name@,
            image_status: self.image_status@,
            image_uris: match self.image_uris {
                Some(u) => Some(u.normal@),
                None => None,
            },
        }
    }
}

impl Card {
    /// A copy of this record.
    pub fn duplicate(&self) -> (r: Card)
        ensures
            r@ == self@,
    {
        let image_uris = match &self.image_uris {
            Some(u) => Some(ImageUris { normal: u.normal.clone() }),
            None => None,
        };
        Card {
            id: self.id.clone(),
            name: self.name.clone(),
            image_status: self.image_status.clone(),
            image_uris,
        }
    }
}

/// The catalog: every printing of a card, grouped under its exact name in load
/// order. Loaded once and shared read-only.
pub type CardMap = Arc<HashMap<String, Vec<Card>>>;

/// The printings that the catalog holds under each name.
pub uninterp spec fn catalog_printings(cards: CardMap) -> Map<Seq<char>, Seq<CardView>>;

/// The catalog's canonical record for `name`: its first-loaded printing.
pub open spec fn catalog_card(cards: CardMap, name: Seq<char>) -> Option<CardView> {
    let m = catalog_printings(cards);
    if m.contains_key(name) && m[name].len() > 0 {
        Some(m[name][0])
    } else {
        None
    }
}

/// Relies on `HashMap::get` (through `Arc`'s `Deref`): the printings stored under
/// the key equal to `name`, or `None` where no key is.
#[verifier::external_body]
fn printings_named<'a>(cards: &'a CardMap, name: &str) -> (r: Option<&'a Vec<Card>>)
    ensures
        match r {
            Some(v) => catalog_printings(*cards).contains_key(name@) && catalog_printings(
                *cards,
            )[name@] == v@.map_values(|c: Card| c@),
            None => !catalog_printings(*cards).contains_key(name@),
        },
{
    cards.get(name)
}

/// The canonical record for `name`: exact, case-sensitive match, first printing.
pub fn get_card_by_name(cards: &CardMap, name: &str) -> (r: Option<Card>)
    ensures
        match r {
            Some(c) => catalog_card(*cards, name@) == Some(c@),
            None => catalog_card(*cards, name@) is None,
        },
{
    match printings_named(cards, name) {
        Some(v) => {
            if v.len() > 0 {
                Some(v[0].duplicate())
            } else {
                None
            }
        },
        None => None,
    }
}

} // verus!
