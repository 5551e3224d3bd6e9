use mtg_deck_diff::cards::{Card, ImageUris};
use mtg_deck_diff::diff::diff_decks;
use std::{collections::HashMap, sync::Arc};

fn catalog_with(names: &[&str]) -> Arc<HashMap<String, Vec<Card>>> {
    let mut card_map = HashMap::new();
    for name in names {
        card_map.insert(
            name.to_string(),
            vec![Card {
                id: format!("id-{}", name),
                name: name.to_string(),
                image_status: "highres_scan".to_string(),
                image_uris: Some(ImageUris { normal: "url".to_string() }),
            }],
        );
    }
    Arc::new(card_map)
}

fn names(v: &[mtg_deck_diff::diff::DeckDiffEntry]) -> Vec<String> {
    v.iter().map(|d| d.card_name.clone()).collect()
}

#[test]
fn diff_with_itself_is_all_unchanged() {
    let cards = catalog_with(&["Forest"]);
    let deck = "2x Zombie\n1x Forest [Land]\n3x Bolt\n";
    let result = diff_decks(deck, deck, &cards);
    assert!(result.added.is_empty());
    assert!(result.removed.is_empty());
    assert!(result.modified.is_empty());
    assert_eq!(names(&result.unchanged), vec!["Bolt", "Forest", "Zombie"]);
    assert_eq!(result.unchanged[1].old_quantity, 1);
    assert_eq!(result.unchanged[1].new_quantity, 1);
    assert_eq!(result.unchanged[1].change_type, "unchanged");
    assert_eq!(result.unchanged[1].categories, vec!["Land".to_string()]);
    assert_eq!(result.unchanged[1].card.as_ref().unwrap().id, "id-Forest");
}

#[test]
fn quantity_change_is_modified_from_second_deck() {
    let cards = catalog_with(&["Forest"]);
    let result = diff_decks("1x Forest [Old]", "2x Forest [New]", &cards);
    assert!(result.added.is_empty());
    assert!(result.removed.is_empty());
    assert!(result.unchanged.is_empty());
    assert_eq!(result.modified.len(), 1);
    let m = &result.modified[0];
    assert_eq!(m.card_name, "Forest");
    assert_eq!(m.old_quantity, 1);
    assert_eq!(m.new_quantity, 2);
    assert_eq!(m.change_type, "modified");
    assert_eq!(m.categories, vec!["New".to_string()]);
    assert_eq!(m.card.as_ref().unwrap().name, "Forest");
}

#[test]
fn missing_in_second_is_removed_and_reverse_is_added() {
    let cards = catalog_with(&[]);
    let result = diff_decks("1x Forest", "", &cards);
    assert_eq!(result.removed.len(), 1);
    assert_eq!(result.removed[0].old_quantity, 1);
    assert_eq!(result.removed[0].new_quantity, 0);
    assert_eq!(result.removed[0].change_type, "removed");
    assert!(result.added.is_empty());

    let reverse = diff_decks("", "1x Forest", &cards);
    assert_eq!(reverse.added.len(), 1);
    assert_eq!(reverse.added[0].card_name, "Forest");
    assert_eq!(reverse.added[0].old_quantity, 0);
    assert_eq!(reverse.added[0].new_quantity, 1);
    assert_eq!(reverse.added[0].change_type, "added");
    assert!(reverse.added[0].card.is_none());
    assert!(reverse.removed.is_empty());
}

#[test]
fn buckets_are_sorted_by_name() {
    let cards = catalog_with(&[]);
    let result = diff_decks(
        "1x zeta\n1x Beta\n1x alpha\n2x Gamma\n1x Delta",
        "1x Omega\n1x Gamma\n1x Alpha\n1x Delta\n1x Émile\n1x Zed",
        &cards,
    );
    assert_eq!(names(&result.added), vec!["Alpha", "Omega", "Zed", "Émile"]);
    assert_eq!(names(&result.removed), vec!["Beta", "alpha", "zeta"]);
    assert_eq!(names(&result.modified), vec!["Gamma"]);
    assert_eq!(names(&result.unchanged), vec!["Delta"]);
}

#[test]
fn later_duplicate_replaces_earlier() {
    let cards = catalog_with(&[]);
    let result = diff_decks("1x Forest\n3x Forest", "3x Forest", &cards);
    assert!(result.modified.is_empty());
    assert_eq!(result.unchanged.len(), 1);
    assert_eq!(result.unchanged[0].old_quantity, 3);
}

#[test]
fn errors_stay_with_their_deck() {
    let cards = catalog_with(&[]);
    let result = diff_decks("bad line\n1x Forest", "\n\n0x Forest", &cards);
    assert_eq!(result.errors_deck_1.len(), 1);
    assert_eq!(result.errors_deck_1[0].line_number, 1);
    assert_eq!(result.errors_deck_2.len(), 1);
    assert_eq!(result.errors_deck_2[0].line_number, 3);
    assert_eq!(result.errors_deck_2[0].error, "Invalid quantity");
    assert_eq!(names(&result.removed), vec!["Forest"]);
}

#[test]
fn unknown_card_is_diffed_by_name() {
    let cards = catalog_with(&["Forest"]);
    let result = diff_decks("1x Mystery Card", "4x Mystery Card", &cards);
    assert_eq!(result.modified.len(), 1);
    assert_eq!(result.modified[0].card_name, "Mystery Card");
    assert!(result.modified[0].card.is_none());
}
