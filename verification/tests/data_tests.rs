use spacecases::data::{build_game_data, AutocompleteData, Container, Item, NamedTable, Skin, SkinVariation, Sticker};
use std::collections::HashMap;

fn five(prefix: &str) -> [String; 5] {
    [0, 1, 2, 3, 4].map(|i| format!("{}{}", prefix, i))
}

fn skin(name: &str, quality: &str) -> Skin {
    Skin {
        formatted_name: name.to_string(),
        description: "desc".to_string(),
        flavor_text: "flavor".to_string(),
        quality: quality.to_string(),
        inspect_urls: five("inspect"),
        image_urls: five("img"),
        stattrak_available: true,
        souvenir_available: false,
        containers_found_in: vec!["chroma case".to_string(), "operation bravo case".to_string()],
        weapon_type: "rifle".to_string(),
        min_float: "0.00".to_string(),
        max_float: "1.00".to_string(),
        worst_condition_index: 4,
        best_condition_index: 0,
        variations: HashMap::new(),
    }
}

fn sticker(name: &str) -> Sticker {
    Sticker {
        formatted_name: name.to_string(),
        description: "a sticker".to_string(),
        flavor_text: String::new(),
        quality: "exotic".to_string(),
        inspect_urls: ["i".to_string()],
        image_urls: ["s.png".to_string()],
        stattrak_available: false,
        souvenir_available: false,
        containers_found_in: vec![],
    }
}

fn container(name: &str) -> Container {
    Container {
        formatted_name: name.to_string(),
        image_url: "c.png".to_string(),
        items: HashMap::new(),
        requires_key: true,
    }
}

#[test]
fn named_table_get_after_insert() {
    let mut t: NamedTable<u32> = NamedTable::new();
    assert_eq!(t.len(), 0);
    assert_eq!(t.get("a"), None);
    t.insert("a".to_string(), 1);
    t.insert("b".to_string(), 2);
    t.insert("a".to_string(), 3);
    assert_eq!(t.len(), 2);
    assert_eq!(t.get("a"), Some(&3));
    assert_eq!(t.get("b"), Some(&2));
    assert_eq!(t.get("c"), None);
}

#[test]
fn build_game_data_orders_and_keys_items() {
    let skins = vec![
        ("ak47redline".to_string(), skin("AK-47 | Redline", "classified")),
        ("awpasiimov".to_string(), skin("AWP | Asiimov", "covert")),
    ];
    let stickers = vec![("crown".to_string(), sticker("Sticker | Crown (Foil)"))];
    let containers = vec![("chromacase".to_string(), container("Chroma Case"))];
    let g = build_game_data(skins, stickers, containers);
    assert_eq!(g.item_autocomplete_data.formatted, vec!["AK-47 | Redline", "AWP | Asiimov", "Sticker | Crown (Foil)"]);
    assert_eq!(g.item_autocomplete_data.unformatted, vec!["ak47redline", "awpasiimov", "crown"]);
    assert_eq!(g.skin_unformatted_names, vec!["ak47redline", "awpasiimov"]);
    assert_eq!(g.container_autocomplete_data.formatted, vec!["Chroma Case"]);
    assert_eq!(g.container_autocomplete_data.unformatted, vec!["chromacase"]);
    assert_eq!(g.item_data.len(), 3);
    assert_eq!(g.container_data.len(), 1);
    match g.item_data.get("awpasiimov") {
        Some(Item::Skin(s)) => assert_eq!(s.formatted_name, "AWP | Asiimov"),
        other => panic!("unexpected {:?}", other),
    }
    match g.item_data.get("crown") {
        Some(Item::Sticker(s)) => assert_eq!(s.formatted_name, "Sticker | Crown (Foil)"),
        other => panic!("unexpected {:?}", other),
    }
    assert!(g.container_data.get("chromacase").is_some());
}

#[test]
fn later_item_of_same_name_replaces_earlier() {
    let skins = vec![("dup".to_string(), skin("Skin | Dup", "covert"))];
    let stickers = vec![("dup".to_string(), sticker("Sticker | Dup"))];
    let g = build_game_data(skins, stickers, vec![]);
    assert_eq!(g.item_data.len(), 1);
    assert!(matches!(g.item_data.get("dup"), Some(Item::Sticker(_))));
    assert_eq!(g.item_autocomplete_data.unformatted, vec!["dup", "dup"]);
}

#[test]
fn autocomplete_data_default_is_empty() {
    let d = AutocompleteData::default();
    assert!(d.formatted.is_empty() && d.unformatted.is_empty());
}

#[test]
fn skin_variation_keeps_its_parts() {
    let v = SkinVariation::new("Phase 1".to_string(), five("c"), five("i"));
    assert_eq!(v.formatted_name(), "Phase 1");
    assert_eq!(v.condition_images()[2], "c2");
    assert_eq!(v.inspect_urls()[4], "i4");
}
