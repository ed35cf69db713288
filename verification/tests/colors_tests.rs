//! Tests for the client color allocator.

use tasktrack::colors::{get_or_assign_client_color, lookup_client_color, ClientColorMap};

fn get_clean_map() -> ClientColorMap {
    ClientColorMap::default()
}

#[test]
fn test_assign_first_color() {
    let mut map = get_clean_map();
    let client_name = "Client A";

    let color = get_or_assign_client_color(&mut map, client_name);

    assert_eq!(color, "#1f77b4");
    assert_eq!(
        lookup_client_color(&map, &client_name.to_string()),
        Some(color)
    );
    assert_eq!(map.next_index(), 1);
}

#[test]
fn test_assign_same_color_for_existing_client() {
    let mut map = get_clean_map();
    let client_name = "Client A";

    let color1 = get_or_assign_client_color(&mut map, client_name);
    let color2 = get_or_assign_client_color(&mut map, client_name);

    assert_eq!(color1, color2);
    assert_eq!(map.next_index(), 1);
}

#[test]
fn test_assign_different_colors_for_different_clients() {
    let mut map = get_clean_map();

    let color1 = get_or_assign_client_color(&mut map, "Client A");
    let color2 = get_or_assign_client_color(&mut map, "Client B");

    assert_ne!(color1, color2);
    assert_eq!(color1, "#1f77b4");
    assert_eq!(color2, "#ff7f0e");
    assert_eq!(map.next_index(), 2);
}

#[test]
fn test_palette_wraps_around() {
    let mut map = get_clean_map();
    let palette_len = map.palette_len();

    for i in 0..palette_len {
        let client_name = format!("Client {}", i);
        get_or_assign_client_color(&mut map, &client_name);
    }

    assert_eq!(map.next_index(), 0);

    let next_color = get_or_assign_client_color(&mut map, "New Client After Wrap");

    assert_eq!(next_color, map.palette_color_at(0).clone());
    assert_eq!(map.next_index(), 1);
}

#[test]
fn test_palette_order_over_first_colors() {
    let mut map = get_clean_map();
    let expected = [
        "#1f77b4", "#ff7f0e", "#2ca02c", "#d62728", "#9467bd", "#8c564b", "#e377c2", "#7f7f7f",
        "#bcbd22", "#17becf",
    ];
    for (i, want) in expected.iter().enumerate() {
        let got = get_or_assign_client_color(&mut map, &format!("Fresh {}", i));
        assert_eq!(&got, want);
    }
    assert_eq!(map.next_index(), 10);
    assert_eq!(map.client_count(), 10);
}

#[test]
fn test_lookup_unknown_client() {
    let map = get_clean_map();
    assert_eq!(lookup_client_color(&map, &"Nobody".to_string()), None);
    assert_eq!(map.client_count(), 0);
}
