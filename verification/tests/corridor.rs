use memory_palace::{Corridor, CorridorMap};

#[test]
fn test_corridor_new() {
    let c = Corridor::new("r1", "r2", "north", "dark doorway");
    assert!(c.goes_from("r1"));
    assert!(c.goes_to("r2"));
    assert!(!c.goes_from("r2"));
}

#[test]
fn test_corridor_map_add() {
    let mut cm = CorridorMap::new();
    cm.add(Corridor::new("r1", "r2", "north", "door"));
    assert_eq!(cm.len(), 1);
}

#[test]
fn test_corridor_map_from_room() {
    let mut cm = CorridorMap::new();
    cm.add(Corridor::new("r1", "r2", "north", "door"));
    cm.add(Corridor::new("r1", "r3", "east", "arch"));
    assert_eq!(cm.from_room("r1").len(), 2);
    assert_eq!(cm.from_room("r2").len(), 0);
}

#[test]
fn test_corridor_map_find_path_direct() {
    let mut cm = CorridorMap::new();
    cm.add(Corridor::new("r1", "r2", "north", "door"));
    let path = cm.find_path("r1", "r2");
    assert_eq!(path, vec!["r1", "r2"]);
}

#[test]
fn test_corridor_map_find_path_multi() {
    let mut cm = CorridorMap::new();
    cm.add(Corridor::new("r1", "r2", "n", "d"));
    cm.add(Corridor::new("r2", "r3", "e", "a"));
    let path = cm.find_path("r1", "r3");
    assert_eq!(path, vec!["r1", "r2", "r3"]);
}

#[test]
fn test_corridor_map_no_path() {
    let mut cm = CorridorMap::new();
    cm.add(Corridor::new("r1", "r2", "n", "d"));
    let path = cm.find_path("r1", "r4");
    assert!(path.is_empty());
}

#[test]
fn test_corridor_map_same_room() {
    let cm = CorridorMap::new();
    let path = cm.find_path("r1", "r1");
    assert_eq!(path, vec!["r1"]);
}

#[test]
fn test_corridor_map_default() {
    let cm = CorridorMap::default();
    assert!(cm.is_empty());
}

#[test]
fn test_corridor_to_room() {
    let mut cm = CorridorMap::new();
    cm.add(Corridor::new("r1", "r2", "n", "d"));
    assert_eq!(cm.to_room("r2").len(), 1);
    assert_eq!(cm.to_room("r1").len(), 0);
}

#[test]
fn corridor_new_keeps_fields() {
    let c = Corridor::new("kitchen", "library", "north", "dark doorway");
    assert_eq!(c.from, "kitchen");
    assert_eq!(c.to, "library");
    assert_eq!(c.direction, "north");
    assert_eq!(c.cue, "dark doorway");
    assert!(!c.goes_to("kitchen"));
}

#[test]
fn from_room_keeps_order_of_adding() {
    let mut cm = CorridorMap::new();
    cm.add(Corridor::new("r1", "r2", "north", "door"));
    cm.add(Corridor::new("r3", "r1", "west", "gate"));
    cm.add(Corridor::new("r1", "r3", "east", "arch"));
    let from: Vec<&str> = cm.from_room("r1").iter().map(|c| c.direction.as_str()).collect();
    assert_eq!(from, vec!["north", "east"]);
    let to: Vec<&str> = cm.to_room("r1").iter().map(|c| c.direction.as_str()).collect();
    assert_eq!(to, vec!["west"]);
    assert!(!cm.is_empty());
    assert_eq!(cm.len(), 3);
}

#[test]
fn find_path_readme_example() {
    let mut map = CorridorMap::new();
    map.add(Corridor::new("kitchen", "library", "north", "dark doorway"));
    map.add(Corridor::new("library", "tower", "upstairs", "spiral stairs"));
    assert_eq!(map.find_path("kitchen", "tower"), vec!["kitchen", "library", "tower"]);
}

#[test]
fn find_path_takes_the_shortest_route() {
    let mut cm = CorridorMap::new();
    cm.add(Corridor::new("a", "b", "n", "d"));
    cm.add(Corridor::new("b", "c", "n", "d"));
    cm.add(Corridor::new("c", "d", "n", "d"));
    cm.add(Corridor::new("d", "e", "n", "d"));
    cm.add(Corridor::new("a", "x", "e", "d"));
    cm.add(Corridor::new("x", "e", "e", "d"));
    assert_eq!(cm.find_path("a", "e"), vec!["a", "x", "e"]);
}

#[test]
fn find_path_follows_direction_of_corridors() {
    let mut cm = CorridorMap::new();
    cm.add(Corridor::new("r1", "r2", "n", "d"));
    assert!(cm.find_path("r2", "r1").is_empty());
}

#[test]
fn find_path_survives_cycles() {
    let mut cm = CorridorMap::new();
    cm.add(Corridor::new("a", "b", "n", "d"));
    cm.add(Corridor::new("b", "a", "s", "d"));
    cm.add(Corridor::new("b", "c", "e", "d"));
    cm.add(Corridor::new("c", "a", "w", "d"));
    assert!(cm.find_path("a", "z").is_empty());
    assert_eq!(cm.find_path("c", "b"), vec!["c", "a", "b"]);
}

#[test]
fn adding_a_corridor_never_lengthens_the_path() {
    let mut cm = CorridorMap::new();
    cm.add(Corridor::new("a", "b", "n", "d"));
    cm.add(Corridor::new("b", "c", "n", "d"));
    assert_eq!(cm.find_path("a", "c").len(), 3);
    cm.add(Corridor::new("a", "c", "n", "d"));
    assert_eq!(cm.find_path("a", "c"), vec!["a", "c"]);
}

#[test]
fn find_path_same_room_without_corridors() {
    let mut cm = CorridorMap::new();
    cm.add(Corridor::new("a", "b", "n", "d"));
    assert_eq!(cm.find_path("zz", "zz"), vec!["zz"]);
}
