use mtg_deck_diff::cards::{Card, ImageUris};
use mtg_deck_diff::deck::resolve_deck_list;
use std::{collections::HashMap, sync::Arc};

fn create_test_card(name: &str) -> Card {
    Card {
        id: format!("test-{}", name.replace(' ', "-").to_lowercase()),
        name: name.to_string(),
        image_status: "highres_scan".to_string(),
        image_uris: Some(ImageUris {
            normal: "test-url".to_string(),
        }),
    }
}

#[test]
fn test_resolve_basic_deck_entry() {
    let cards = Arc::new(HashMap::new());
    let input = "1x Lightning Bolt";
    let result = resolve_deck_list(input, &cards);

    assert_eq!(result.errors.len(), 0);
    assert_eq!(result.entries.len(), 1);
    assert_eq!(result.total_cards, 1);

    let entry = &result.entries[0];
    assert_eq!(entry.quantity, 1);
    assert_eq!(entry.name, "Lightning Bolt");
    assert_eq!(entry.set_code, None);
    assert_eq!(entry.collector_number, None);
    assert_eq!(entry.categories, Vec::<String>::new());
    assert_eq!(entry.card, None); // Card not found
}

#[test]
fn test_resolve_full_deck_entry() {
    let cards = Arc::new(HashMap::new());
    let input = "2x Blasphemous Act (eoc) 86 [Removal]";
    let result = resolve_deck_list(input, &cards);

    assert_eq!(result.errors.len(), 0);
    assert_eq!(result.entries.len(), 1);
    assert_eq!(result.total_cards, 2);

    let entry = &result.entries[0];
    assert_eq!(entry.quantity, 2);
    assert_eq!(entry.name, "Blasphemous Act");
    assert_eq!(entry.set_code, Some("eoc".to_string()));
    assert_eq!(entry.collector_number, Some("86".to_string()));
    assert_eq!(entry.categories, vec!["Removal".to_string()]);
    assert_eq!(entry.card, None); // Card not found
}

#[test]
fn test_resolve_multiple_entries() {
    let cards = Arc::new(HashMap::new());
    let input = r#"
1x Lightning Bolt
2x Counterspell (lea) 55 [Control]
1x Forest [Land]
        "#;
    let result = resolve_deck_list(input, &cards);

    assert_eq!(result.errors.len(), 0);
    assert_eq!(result.entries.len(), 3);
    assert_eq!(result.total_cards, 4);
}

#[test]
fn test_resolve_with_comments_and_empty_lines() {
    let cards = Arc::new(HashMap::new());
    let input = r#"
# This is a comment
1x Lightning Bolt

// Another comment
2x Counterspell
        "#;
    let result = resolve_deck_list(input, &cards);

    assert_eq!(result.errors.len(), 0);
    assert_eq!(result.entries.len(), 2);
}

#[test]
fn test_resolve_invalid_entries() {
    let cards = Arc::new(HashMap::new());
    let input = r#"
0x Invalid Quantity
xInvalid Format
1x
        "#;
    let result = resolve_deck_list(input, &cards);

    assert_eq!(result.errors.len(), 3);
    assert_eq!(result.entries.len(), 0);
}

#[test]
fn test_resolve_with_card_resolution() {
    let mut card_map = HashMap::new();
    let bolt_card = create_test_card("Lightning Bolt");
    card_map.insert("Lightning Bolt".to_string(), vec![bolt_card.clone()]);
    let cards = Arc::new(card_map);

    let input = r#"
1x Lightning Bolt
1x Nonexistent Card
        "#;

    let result = resolve_deck_list(input, &cards);

    assert_eq!(result.entries.len(), 2);
    assert_eq!(result.errors.len(), 0);

    // First entry should have card resolved
    assert!(result.entries[0].card.is_some());
    assert_eq!(
        result.entries[0].card.as_ref().unwrap().name,
        "Lightning Bolt"
    );
    assert_eq!(result.entries[0].name, "Lightning Bolt");

    // Second entry should not have card resolved
    assert!(result.entries[1].card.is_none());
    assert_eq!(result.entries[1].name, "Nonexistent Card");
}

#[test]
fn test_resolve_multiple_categories() {
    let mut card_map = HashMap::new();
    card_map.insert(
        "Lightning Bolt".to_string(),
        vec![create_test_card("Lightning Bolt")],
    );
    card_map.insert("Forest".to_string(), vec![create_test_card("Forest")]);
    let cards = Arc::new(card_map);

    let input = r#"
1x Lightning Bolt [Removal, Burn, Instant]
1x Forest [Land]
1x Sol Ring [Artifact, Ramp]
        "#;

    let result = resolve_deck_list(input, &cards);

    assert_eq!(result.entries.len(), 3);
    assert_eq!(result.errors.len(), 0);
    assert_eq!(result.total_cards, 3);

    // Check multiple categories for Lightning Bolt
    assert_eq!(result.entries[0].categories.len(), 3);
    assert_eq!(result.entries[0].categories[0], "Removal");
    assert_eq!(result.entries[0].categories[1], "Burn");
    assert_eq!(result.entries[0].categories[2], "Instant");
    assert!(result.entries[0].card.is_some()); // Lightning Bolt found

    // Check single category for Forest
    assert_eq!(result.entries[1].categories.len(), 1);
    assert_eq!(result.entries[1].categories[0], "Land");
    assert!(result.entries[1].card.is_some()); // Forest found

    // Check multiple categories for Sol Ring (card not found)
    assert_eq!(result.entries[2].categories.len(), 2);
    assert_eq!(result.entries[2].categories[0], "Artifact");
    assert_eq!(result.entries[2].categories[1], "Ramp");
    assert!(result.entries[2].card.is_none()); // Sol Ring not found
}

#[test]
fn error_lines_carry_number_text_and_reason() {
    let cards = Arc::new(HashMap::new());
    let input = "\n  0x Foo  \nxFoo\n1x\n4294967296x Bar\n";
    let result = resolve_deck_list(input, &cards);
    assert_eq!(result.entries.len(), 0);
    assert_eq!(result.total_cards, 0);
    assert_eq!(result.errors.len(), 4);
    assert_eq!(result.errors[0].line_number, 2);
    assert_eq!(result.errors[0].line, "0x Foo");
    assert_eq!(result.errors[0].error, "Invalid quantity");
    assert_eq!(result.errors[1].line_number, 3);
    assert_eq!(result.errors[1].error, "Failed to parse deck entry format");
    assert_eq!(result.errors[2].line_number, 4);
    assert_eq!(result.errors[2].line, "1x");
    assert_eq!(result.errors[2].error, "Failed to parse deck entry format");
    assert_eq!(result.errors[3].line_number, 5);
    assert_eq!(result.errors[3].error, "Invalid quantity");
}

#[test]
fn largest_quantity_is_accepted() {
    let cards = Arc::new(HashMap::new());
    let result = resolve_deck_list("4294967295x Forest\n4294967295x Island", &cards);
    assert_eq!(result.errors.len(), 0);
    assert_eq!(result.entries[0].quantity, 4294967295);
    assert_eq!(result.total_cards, 8589934590);
}

#[test]
fn only_blank_lines_and_comments_give_nothing() {
    let cards = Arc::new(HashMap::new());
    let result = resolve_deck_list("\n   \n# note\n//x\n\t// 2x Forest\n", &cards);
    assert_eq!(result.entries.len(), 0);
    assert_eq!(result.errors.len(), 0);
    assert_eq!(result.total_cards, 0);
}

#[test]
fn total_is_sum_of_quantities() {
    let cards = Arc::new(HashMap::new());
    let result = resolve_deck_list("3x A\nbad\n10x B [x]\n007x C (s) 1\n", &cards);
    let sum: u128 = result.entries.iter().map(|e| e.quantity as u128).sum();
    assert_eq!(result.total_cards, sum);
    assert_eq!(result.total_cards, 20);
    assert_eq!(result.errors.len(), 1);
}

#[test]
fn name_takes_shortest_match_before_groups() {
    let cards = Arc::new(HashMap::new());
    let result = resolve_deck_list("1x Foo (a) b (c) d [X,,  Y ]", &cards);
    assert_eq!(result.errors.len(), 0);
    let entry = &result.entries[0];
    assert_eq!(entry.name, "Foo (a) b");
    assert_eq!(entry.set_code, Some("c".to_string()));
    assert_eq!(entry.collector_number, Some("d".to_string()));
    assert_eq!(
        entry.categories,
        vec!["X".to_string(), "".to_string(), "Y".to_string()]
    );
}

#[test]
fn unmatched_group_stays_in_name() {
    let cards = Arc::new(HashMap::new());
    let result = resolve_deck_list("1x\tBolt (m10) [Burn] extra", &cards);
    assert_eq!(result.errors.len(), 0);
    let entry = &result.entries[0];
    assert_eq!(entry.name, "Bolt (m10) [Burn] extra");
    assert_eq!(entry.set_code, None);
    assert_eq!(entry.categories, Vec::<String>::new());
}

#[test]
fn bracket_run_after_set_code_is_collector_number() {
    let cards = Arc::new(HashMap::new());
    let result = resolve_deck_list("2x Opt (xln) [Cantrip]", &cards);
    let entry = &result.entries[0];
    assert_eq!(entry.name, "Opt");
    assert_eq!(entry.set_code, Some("xln".to_string()));
    assert_eq!(entry.collector_number, Some("[Cantrip]".to_string()));
    assert_eq!(entry.categories, Vec::<String>::new());
}

#[test]
fn lookup_ignores_set_code() {
    let mut card_map = HashMap::new();
    card_map.insert("Forest".to_string(), vec![create_test_card("Forest")]);
    let cards = Arc::new(card_map);
    let result = resolve_deck_list("1x Forest (m21) 274\r\n", &cards);
    assert_eq!(result.entries.len(), 1);
    assert_eq!(result.entries[0].card.as_ref().unwrap().id, "test-forest");
}
