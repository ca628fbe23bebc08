use memory_palace::lay_out_pairs;
use memory_palace::tags::add_tag;

fn pairs(n: usize) -> Vec<(String, String)> {
    (0..n).map(|i| (format!("c{}", i), format!("description {}", i))).collect()
}

#[test]
fn layout_six_pairs_makes_two_rooms() {
    let layout = lay_out_pairs(&pairs(6), "test");
    assert_eq!(layout.rooms.len(), 2);
    assert_eq!(layout.rooms[0].id, "test_0");
    assert_eq!(layout.rooms[1].id, "test_1");
    assert_eq!(layout.rooms[0].name, "Room 0");
    assert_eq!(layout.rooms[1].atmosphere, "neutral");
    assert_eq!(layout.rooms[0].len(), 5);
    assert_eq!(layout.rooms[1].len(), 1);
    assert_eq!(layout.rooms[1].retrieve("c5"), Some("description 5"));
    assert_eq!(layout.corridors.len(), 1);
    assert_eq!(layout.corridors.find_path("test_0", "test_1").len(), 2);
    let c = layout.corridors.from_room("test_0")[0];
    assert_eq!((c.direction.as_str(), c.cue.as_str()), ("forward", "doorway"));
}

#[test]
fn layout_empty_has_no_rooms() {
    let layout = lay_out_pairs(&[], "empty");
    assert!(layout.rooms.is_empty());
    assert!(layout.corridors.is_empty());
    assert!(layout.anchors.is_empty());
}

#[test]
fn layout_anchor_slots() {
    let layout = lay_out_pairs(&pairs(12), "p");
    assert_eq!(layout.rooms.len(), 3);
    assert_eq!(layout.anchors.len(), 12);
    assert_eq!(layout.anchors[7].concept, "c7");
    assert_eq!(layout.anchors[7].room_id, "p_1");
    assert_eq!(layout.anchors[7].slot, 2);
    assert_eq!(layout.anchors[11].room_id, "p_2");
    assert_eq!(layout.corridors.find_path("p_0", "p_2"), vec!["p_0", "p_1", "p_2"]);
}

#[test]
fn layout_ids_count_past_nine() {
    let layout = lay_out_pairs(&pairs(51), "r");
    assert_eq!(layout.rooms.len(), 11);
    assert_eq!(layout.rooms[10].id, "r_10");
    assert_eq!(layout.rooms[10].name, "Room 10");
}

#[test]
fn layout_repeated_concept_keeps_last_description() {
    let p = vec![
        ("a".to_string(), "first".to_string()),
        ("a".to_string(), "second".to_string()),
    ];
    let layout = lay_out_pairs(&p, "x");
    assert_eq!(layout.rooms[0].len(), 1);
    assert_eq!(layout.rooms[0].retrieve("a"), Some("second"));
    assert_eq!(layout.anchors.len(), 2);
}

#[test]
fn add_tag_skips_duplicates() {
    let mut tags: Vec<String> = Vec::new();
    add_tag(&mut tags, "warm");
    add_tag(&mut tags, "red");
    add_tag(&mut tags, "warm");
    assert_eq!(tags, vec!["warm".to_string(), "red".to_string()]);
}
