//! Tests for the persisted form of the client color mapping.

use tasktrack::colors::{get_or_assign_client_color, ClientColorMap};
use tasktrack::persist::{decode_client_colors, encode_client_colors, get_client_colors_path};

#[test]
fn test_encode_empty_map() {
    let map = ClientColorMap::default();
    let text = encode_client_colors(&map);
    assert_eq!(text, "{\"colors\":{},\"next_color_index\":0}");
}

#[test]
fn test_encode_one_client() {
    let mut map = ClientColorMap::default();
    get_or_assign_client_color(&mut map, "Client A");
    let text = encode_client_colors(&map);
    assert_eq!(
        text,
        "{\"colors\":{\"Client A\":\"#1f77b4\"},\"next_color_index\":1}"
    );
}

#[test]
fn test_round_trip_restores_pairs_and_index() {
    let mut map = ClientColorMap::default();
    get_or_assign_client_color(&mut map, "Alice");
    get_or_assign_client_color(&mut map, "Bob \"the\" Builder");
    get_or_assign_client_color(&mut map, "Back\\slash Co");
    let text = encode_client_colors(&map);
    let reloaded = decode_client_colors(&text).expect("the persisted form must parse back");
    assert_eq!(reloaded.client_count(), map.client_count());
    for i in 0..map.client_count() {
        assert_eq!(reloaded.client_name_at(i), map.client_name_at(i));
        assert_eq!(reloaded.client_color_at(i), map.client_color_at(i));
    }
    assert_eq!(reloaded.next_index(), map.next_index());
}

#[test]
fn test_round_trip_after_palette_wrap() {
    let mut map = ClientColorMap::default();
    for i in 0..23 {
        get_or_assign_client_color(&mut map, &format!("Client {}", i));
    }
    assert_eq!(map.next_index(), 3);
    let text = encode_client_colors(&map);
    let reloaded = decode_client_colors(&text).expect("the persisted form must parse back");
    assert_eq!(reloaded.client_count(), 23);
    assert_eq!(reloaded.next_index(), 3);
}

#[test]
fn test_decode_rejects_garbage() {
    assert!(decode_client_colors("").is_none());
    assert!(decode_client_colors("not json at all").is_none());
    assert!(decode_client_colors("{\"colors\":{").is_none());
    assert!(decode_client_colors("{\"colors\":{},\"next_color_index\":}").is_none());
    assert!(decode_client_colors("{\"colors\":{},\"next_color_index\":0} ").is_none());
}

#[test]
fn test_decode_rejects_duplicate_names() {
    let text = "{\"colors\":{\"A\":\"#1f77b4\",\"A\":\"#ff7f0e\"},\"next_color_index\":2}";
    assert!(decode_client_colors(text).is_none());
}

#[test]
fn test_decode_rederives_index_from_count() {
    let text = "{\"colors\":{\"A\":\"#1f77b4\"},\"next_color_index\":7}";
    let reloaded = decode_client_colors(text).expect("well-shaped text must parse");
    assert_eq!(reloaded.client_count(), 1);
    assert_eq!(reloaded.next_index(), 1);
}

#[test]
fn test_client_colors_path() {
    assert_eq!(get_client_colors_path(), "database/client_colors.json");
}
