use memory_palace::Room;

#[test]
fn test_room_new() {
    let r = Room::new("r1", "Kitchen", "warm and bright");
    assert_eq!(r.id, "r1");
    assert_eq!(r.name, "Kitchen");
    assert!(r.is_empty());
}

#[test]
fn test_room_place_retrieve() {
    let mut r = Room::new("r1", "Kitchen", "warm");
    r.place("key", "golden key on the counter");
    assert_eq!(r.retrieve("key"), Some("golden key on the counter"));
    assert_eq!(r.len(), 1);
}

#[test]
fn test_room_remove_item() {
    let mut r = Room::new("r1", "Kitchen", "warm");
    r.place("key", "golden key");
    let removed = r.remove_item("key");
    assert_eq!(removed, Some("golden key".into()));
    assert!(r.is_empty());
}

#[test]
fn test_room_search() {
    let mut r = Room::new("r1", "Library", "quiet");
    r.place("b1", "red book on shelf");
    r.place("b2", "blue book on table");
    r.place("b3", "red cup on desk");
    let results = r.search("red");
    assert_eq!(results.len(), 2);
}

#[test]
fn test_room_item_ids() {
    let mut r = Room::new("r1", "Room", "neutral");
    r.place("a", "item a");
    r.place("b", "item b");
    assert_eq!(r.item_ids().len(), 2);
}

#[test]
fn room_new_keeps_atmosphere() {
    let r = Room::new("r1", "Kitchen", "warm and bright");
    assert_eq!(r.atmosphere, "warm and bright");
    assert_eq!(r.len(), 0);
}

#[test]
fn room_place_same_id_replaces_description() {
    let mut r = Room::new("r1", "Kitchen", "warm");
    r.place("key", "golden key");
    r.place("key", "silver key");
    assert_eq!(r.len(), 1);
    assert_eq!(r.retrieve("key"), Some("silver key"));
}

#[test]
fn room_retrieve_missing_is_none() {
    let mut r = Room::new("r1", "Kitchen", "warm");
    assert_eq!(r.retrieve("key"), None);
    r.place("coin", "silver coin");
    assert_eq!(r.retrieve("key"), None);
}

#[test]
fn room_remove_missing_is_none_and_keeps_items() {
    let mut r = Room::new("r1", "Kitchen", "warm");
    r.place("coin", "silver coin");
    assert_eq!(r.remove_item("key"), None);
    assert_eq!(r.len(), 1);
    assert_eq!(r.retrieve("coin"), Some("silver coin"));
}

#[test]
fn room_remove_undoes_place() {
    let mut r = Room::new("r1", "Kitchen", "warm");
    r.place("a", "alpha");
    r.place("b", "beta");
    r.place("c", "gamma");
    assert_eq!(r.remove_item("b"), Some("beta".to_string()));
    assert_eq!(r.len(), 2);
    assert_eq!(r.retrieve("a"), Some("alpha"));
    assert_eq!(r.retrieve("b"), None);
    assert_eq!(r.retrieve("c"), Some("gamma"));
}

#[test]
fn room_search_returns_matching_pairs() {
    let mut r = Room::new("r1", "Library", "quiet");
    r.place("b1", "red book on shelf");
    r.place("b2", "blue book on table");
    r.place("b3", "red cup on desk");
    let mut results = r.search("red");
    results.sort();
    assert_eq!(results, vec![("b1", "red book on shelf"), ("b3", "red cup on desk")]);
    assert_eq!(r.search("book").len(), 2);
    assert!(r.search("green").is_empty());
    assert_eq!(r.search("").len(), 3);
}

#[test]
fn room_search_matches_whole_substring_only() {
    let mut r = Room::new("r1", "Library", "quiet");
    r.place("b1", "rd e");
    assert!(r.search("red").is_empty());
    assert_eq!(r.search("d e").len(), 1);
}

#[test]
fn room_item_ids_lists_each_id_once() {
    let mut r = Room::new("r1", "Room", "neutral");
    r.place("a", "item a");
    r.place("b", "item b");
    r.place("a", "item a again");
    let mut ids = r.item_ids();
    ids.sort();
    assert_eq!(ids, vec!["a", "b"]);
}

#[test]
fn room_kitchen_example() {
    let mut kitchen = Room::new("kitchen", "Kitchen", "warm and bright");
    kitchen.place("key", "golden key on the counter");
    kitchen.place("coin", "silver coin near the sink");
    assert_eq!(kitchen.retrieve("key"), Some("golden key on the counter"));
    assert_eq!(kitchen.len(), 2);
    let results = kitchen.search("silver");
    assert_eq!(results, vec![("coin", "silver coin near the sink")]);
}
