use memory_palace::{Corridor, CorridorMap};
use memory_palace::{build_walk, Walk, WalkAction, WalkStep};

#[test]
fn test_walk_new() {
    let w = Walk::new(vec![]);
    assert!(w.is_empty());
}

#[test]
fn test_walk_advance() {
    let w = Walk::new(vec![
        WalkStep { room_id: "r1".into(), action: WalkAction::Enter("start".into()) },
        WalkStep { room_id: "r2".into(), action: WalkAction::Enter("north".into()) },
    ]);
    let mut w = w;
    assert_eq!(w.current().unwrap().room_id, "r1");
    w.advance();
    assert_eq!(w.current().unwrap().room_id, "r2");
}

#[test]
fn test_walk_go_back() {
    let mut w = Walk::new(vec![
        WalkStep { room_id: "r1".into(), action: WalkAction::Enter("start".into()) },
        WalkStep { room_id: "r2".into(), action: WalkAction::Enter("north".into()) },
    ]);
    w.advance();
    w.go_back();
    assert_eq!(w.current().unwrap().room_id, "r1");
}

#[test]
fn test_walk_complete() {
    let w = Walk::new(vec![
        WalkStep { room_id: "r1".into(), action: WalkAction::Enter("start".into()) },
    ]);
    assert!(w.is_complete());
}

#[test]
fn test_walk_reset() {
    let mut w = Walk::new(vec![
        WalkStep { room_id: "r1".into(), action: WalkAction::Enter("start".into()) },
        WalkStep { room_id: "r2".into(), action: WalkAction::Enter("n".into()) },
    ]);
    w.advance();
    w.reset();
    assert_eq!(w.current().unwrap().room_id, "r1");
}

#[test]
fn test_walk_recalled_concepts() {
    let w = Walk::new(vec![
        WalkStep { room_id: "r1".into(), action: WalkAction::Enter("start".into()) },
        WalkStep { room_id: "r1".into(), action: WalkAction::Recall("gravity".into()) },
        WalkStep { room_id: "r2".into(), action: WalkAction::Recall("light".into()) },
    ]);
    assert_eq!(w.recalled_concepts(), vec!["gravity", "light"]);
}

#[test]
fn test_walk_rooms_visited() {
    let w = Walk::new(vec![
        WalkStep { room_id: "r1".into(), action: WalkAction::Enter("start".into()) },
        WalkStep { room_id: "r2".into(), action: WalkAction::Enter("n".into()) },
    ]);
    assert_eq!(w.rooms_visited(), vec!["r1", "r2"]);
}

#[test]
fn test_build_walk() {
    let mut cm = CorridorMap::new();
    cm.add(Corridor::new("r1", "r2", "north", "door"));
    cm.add(Corridor::new("r2", "r3", "east", "arch"));
    let walk = build_walk(&["r1".into(), "r2".into(), "r3".into()], &cm);
    assert_eq!(walk.len(), 3);
}

fn two_step_walk() -> Walk {
    Walk::new(vec![
        WalkStep { room_id: "r1".into(), action: WalkAction::Enter("start".into()) },
        WalkStep { room_id: "r2".into(), action: WalkAction::Enter("north".into()) },
    ])
}

#[test]
fn advance_stops_at_last_step() {
    let mut w = two_step_walk();
    assert!(!w.is_complete());
    assert_eq!(w.advance().unwrap().room_id, "r2");
    assert!(w.is_complete());
    assert!(w.advance().is_none());
    assert_eq!(w.current_index, 1);
    assert_eq!(w.current().unwrap().room_id, "r2");
}

#[test]
fn go_back_stops_at_first_step() {
    let mut w = two_step_walk();
    assert!(w.go_back().is_none());
    assert_eq!(w.current_index, 0);
}

#[test]
fn go_back_after_advance_returns_to_same_step() {
    let mut w = two_step_walk();
    w.advance();
    assert_eq!(w.go_back().unwrap().room_id, "r1");
    assert_eq!(w.current_index, 0);
}

#[test]
fn current_past_the_end_is_none() {
    let mut w = two_step_walk();
    w.current_index = 5;
    assert!(w.current().is_none());
    let empty = Walk::new(vec![]);
    assert!(empty.current().is_none());
    assert_eq!(empty.len(), 0);
}

#[test]
fn recalled_concepts_skip_other_actions() {
    let w = Walk::new(vec![
        WalkStep { room_id: "r1".into(), action: WalkAction::Observe("key".into()) },
        WalkStep { room_id: "r1".into(), action: WalkAction::MoveTo(1.5f64.to_bits(), 2.0f64.to_bits()) },
        WalkStep { room_id: "r1".into(), action: WalkAction::Recall("gravity".into()) },
    ]);
    assert_eq!(w.recalled_concepts(), vec!["gravity"]);
    assert!(Walk::new(vec![]).recalled_concepts().is_empty());
}

fn entered(step: &WalkStep) -> &str {
    match &step.action {
        WalkAction::Enter(d) => d.as_str(),
        _ => panic!("not an entering step"),
    }
}

#[test]
fn build_walk_takes_corridor_directions() {
    let mut cm = CorridorMap::new();
    cm.add(Corridor::new("r1", "r2", "north", "door"));
    cm.add(Corridor::new("r1", "r2", "west", "second door"));
    cm.add(Corridor::new("r2", "r3", "east", "arch"));
    let walk = build_walk(&["r1".into(), "r2".into(), "r3".into(), "r1".into()], &cm);
    assert_eq!(walk.current_index, 0);
    assert_eq!(walk.rooms_visited(), vec!["r1", "r2", "r3", "r1"]);
    let dirs: Vec<&str> = walk.steps.iter().map(entered).collect();
    assert_eq!(dirs, vec!["start", "north", "east", "forward"]);
}

#[test]
fn build_walk_of_empty_path_is_empty() {
    let cm = CorridorMap::new();
    let walk = build_walk(&[], &cm);
    assert!(walk.is_empty());
}

#[test]
fn walk_recall_example() {
    let walk = Walk::new(vec![
        WalkStep { room_id: "kitchen".into(), action: WalkAction::Enter("start".into()) },
        WalkStep { room_id: "kitchen".into(), action: WalkAction::Observe("golden key".into()) },
        WalkStep { room_id: "library".into(), action: WalkAction::Enter("north".into()) },
        WalkStep { room_id: "library".into(), action: WalkAction::Recall("physics formula".into()) },
    ]);
    assert_eq!(walk.recalled_concepts(), vec!["physics formula"]);
    assert_eq!(walk.rooms_visited(), vec!["kitchen", "kitchen", "library", "library"]);
}

#[test]
fn walk_built_from_path_is_walked_to_the_end() {
    let mut cm = CorridorMap::new();
    cm.add(Corridor::new("entrance", "hall", "forward", "grand door"));
    cm.add(Corridor::new("hall", "study", "left", "narrow passage"));
    let path = vec!["entrance".to_string(), "hall".to_string(), "study".to_string()];
    let mut walk = build_walk(&path, &cm);
    let mut entered = Vec::new();
    while let Some(step) = walk.advance() {
        entered.push(step.room_id.clone());
    }
    assert_eq!(entered, vec!["hall".to_string(), "study".to_string()]);
    assert!(walk.is_complete());
}
