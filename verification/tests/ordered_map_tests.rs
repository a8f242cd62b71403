use cross_margin_engine::decimal::Decimal;
use cross_margin_engine::ordered_map::OrderedMap;
use cross_margin_engine::text::text_less;

fn keys(map: &OrderedMap<Decimal>) -> Vec<String> {
    let mut out = Vec::new();
    for i in 0..map.len() {
        out.push(map.key_at(i).clone());
    }
    out
}

#[test]
fn text_order_is_bytewise() {
    assert!(text_less("a", "b"));
    assert!(!text_less("b", "a"));
    assert!(!text_less("a", "a"));
    assert!(text_less("", "a"));
    assert!(!text_less("a", ""));
    assert!(!text_less("", ""));
    assert!(text_less("BTC", "BTC-PERP"));
    assert!(text_less("BTC-PERP", "ETH-PERP"));
    assert!(text_less("Z", "a"));
    assert!(text_less("abc", "abd"));
    assert!(text_less("z", "\u{e9}"));
    assert!(text_less("\u{e9}", "\u{4e2d}"));
}

#[test]
fn text_order_agrees_with_std() {
    let words = ["", "a", "A", "ab", "b", "BTC-PERP", "ETH-PERP", "\u{e9}t\u{e9}", "zz", "\u{1f600}"];
    for x in words {
        for y in words {
            assert_eq!(text_less(x, y), x < y);
        }
    }
}

#[test]
fn a_new_map_is_empty() {
    let map: OrderedMap<Decimal> = OrderedMap::new();
    assert_eq!(map.len(), 0);
    assert!(map.is_empty());
    assert!(map.get("x").is_none());
    assert!(!map.contains_key("x"));
    assert_eq!(map.find("x"), 0);
}

#[test]
fn insert_keeps_keys_ascending() {
    let mut map: OrderedMap<Decimal> = OrderedMap::new();
    map.insert("m".to_string(), Decimal::new(1, 0));
    map.insert("a".to_string(), Decimal::new(2, 0));
    map.insert("z".to_string(), Decimal::new(3, 0));
    map.insert("f".to_string(), Decimal::new(4, 0));
    assert_eq!(keys(&map), vec!["a", "f", "m", "z"]);
    assert_eq!(map.len(), 4);
    assert_eq!(*map.get("f").unwrap(), Decimal::new(4, 0));
    assert_eq!(*map.value_at(3), Decimal::new(3, 0));
    assert_eq!(map.find("g"), 2);
    assert_eq!(map.find("m"), 2);
    assert_eq!(map.find("zz"), 4);
    assert!(map.contains_key("z"));
    assert!(!map.contains_key("g"));
}

#[test]
fn insert_replaces_an_earlier_binding() {
    let mut map: OrderedMap<Decimal> = OrderedMap::new();
    map.insert("a".to_string(), Decimal::new(1, 0));
    map.insert("b".to_string(), Decimal::new(2, 0));
    map.insert("a".to_string(), Decimal::new(9, 0));
    assert_eq!(map.len(), 2);
    assert_eq!(*map.get("a").unwrap(), Decimal::new(9, 0));
    assert_eq!(*map.get("b").unwrap(), Decimal::new(2, 0));
}

#[test]
fn remove_drops_the_binding() {
    let mut map: OrderedMap<Decimal> = OrderedMap::new();
    map.insert("a".to_string(), Decimal::new(1, 0));
    map.insert("b".to_string(), Decimal::new(2, 0));
    map.insert("c".to_string(), Decimal::new(3, 0));
    assert_eq!(map.remove("b"), Some(Decimal::new(2, 0)));
    assert_eq!(map.remove("b"), None);
    assert_eq!(map.remove("x"), None);
    assert_eq!(keys(&map), vec!["a", "c"]);
}

#[test]
fn push_back_appends() {
    let mut map: OrderedMap<Decimal> = OrderedMap::new();
    map.push_back("a".to_string(), Decimal::new(1, 0));
    map.push_back("b".to_string(), Decimal::new(2, 0));
    assert_eq!(keys(&map), vec!["a", "b"]);
    assert_eq!(*map.get("b").unwrap(), Decimal::new(2, 0));
}

#[test]
fn maps_with_the_same_bindings_are_equal() {
    let mut one: OrderedMap<Decimal> = OrderedMap::new();
    one.insert("a".to_string(), Decimal::new(1, 0));
    one.insert("b".to_string(), Decimal::new(2, 0));
    let mut two: OrderedMap<Decimal> = OrderedMap::new();
    two.insert("b".to_string(), Decimal::new(2, 0));
    two.insert("a".to_string(), Decimal::new(1, 0));
    assert_eq!(one, two);
    assert_eq!(one.duplicate(), two);
    assert_eq!(one.clone(), two);
    two.insert("a".to_string(), Decimal::new(10, 1));
    assert_eq!(one, two);
    two.insert("a".to_string(), Decimal::new(11, 1));
    assert_ne!(one, two);
}
