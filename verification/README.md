# memory_palace

Method-of-loci memory indexing for agents: rooms that hold described items,
corridors between rooms with shortest-route search, walks for ordered recall,
and the layout of (concept, description) pairs into a chain of rooms.

- `src/` is the verified library (Verus):
  - `room.rs`: `Room`, a map from item id to description with its laws;
  - `route.rs`: routes through corridors and the invariant of the
    breadth-first search, with its lemmas;
  - `corridor.rs`: `Corridor`, `CorridorMap` and `find_path`, proved to return
    a shortest route, or nothing exactly when the goal cannot be reached;
  - `walk.rs`: `Walk`, its steps, and `build_walk`;
  - `layout.rs`: `lay_out_pairs`, the rooms, corridors and anchor slots for
    pairs of concepts and descriptions;
  - `tags.rs`: duplicate-free sensory tags;
  - `text.rs`: string comparison, substring and decimal text.
- `app/` holds the anchors, whose strength and position are floating-point
  numbers, and the `Palace` and `PalaceBuilder` built around them.
- `tests/` runs the library on concrete values.
