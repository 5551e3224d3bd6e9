use mtg_deck_diff::cards::{get_card_by_name, Card, ImageUris};
use std::collections::HashMap;
use std::sync::Arc;

#[test]
fn test_get_card_by_name_returns_none_for_missing_card() {
    let cards = Arc::new(HashMap::new());
    let result = get_card_by_name(&cards, "Nonexistent Card");
    assert!(result.is_none());
}

#[test]
fn test_get_card_by_name_returns_card_when_found() {
    let mut card_map = HashMap::new();
    let test_card = Card {
        id: "test-id".to_string(),
        name: "Lightning Bolt".to_string(),
        image_status: "highres_scan".to_string(),
        image_uris: None,
    };
    card_map.insert("Lightning Bolt".to_string(), vec![test_card.clone()]);
    let cards = Arc::new(card_map);

    let result = get_card_by_name(&cards, "Lightning Bolt");
    assert!(result.is_some());
    let found_card = result.unwrap();
    assert_eq!(found_card.name, "Lightning Bolt");
    assert_eq!(found_card.id, "test-id");
}

#[test]
fn test_card_name_case_sensitivity() {
    let mut card_map = HashMap::new();
    let test_card = Card {
        id: "test-id".to_string(),
        name: "Lightning Bolt".to_string(),
        image_status: "highres_scan".to_string(),
        image_uris: None,
    };
    card_map.insert("Lightning Bolt".to_string(), vec![test_card]);
    let cards = Arc::new(card_map);

    assert!(get_card_by_name(&cards, "Lightning Bolt").is_some());
    assert!(get_card_by_name(&cards, "lightning bolt").is_none());
    assert!(get_card_by_name(&cards, "LIGHTNING BOLT").is_none());
}

#[test]
fn first_loaded_printing_is_canonical() {
    let first = Card {
        id: "first".to_string(),
        name: "Forest".to_string(),
        image_status: "highres_scan".to_string(),
        image_uris: Some(ImageUris { normal: "a-url".to_string() }),
    };
    let second = Card {
        id: "second".to_string(),
        name: "Forest".to_string(),
        image_status: "lowres".to_string(),
        image_uris: None,
    };
    let mut card_map = HashMap::new();
    card_map.insert("Forest".to_string(), vec![first.clone(), second]);
    let cards = Arc::new(card_map);
    assert_eq!(get_card_by_name(&cards, "Forest"), Some(first));
}

#[test]
fn name_with_no_printings_has_no_card() {
    let mut card_map = HashMap::new();
    card_map.insert("Forest".to_string(), Vec::new());
    let cards = Arc::new(card_map);
    assert!(get_card_by_name(&cards, "Forest").is_none());
}

#[test]
fn health_report_counts_names() {
    let report = mtg_deck_diff::health::HealthResponse::healthy("1.2.3", 42);
    assert_eq!(report.status, "healthy");
    assert_eq!(report.version, "1.2.3");
    assert_eq!(report.cards_loaded, 42);
}
