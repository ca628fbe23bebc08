use vstd::prelude::*;

use crate::route::{
    lemma_search_advance, lemma_search_exhausted, lemma_search_found, lemma_search_push,
    lemma_search_start, pending_corridors, queued, reachable, search_inv, shortest_route,
    CorridorView, QueueEntry,
};
use crate::text::str_eq;

verus! {

broadcast use vstd::string::group_string_axioms;

/// A connection between two rooms with a direction label.
#[derive(Debug, Clone)]
pub struct Corridor {
    pub from: String,
    pub to: String,
    pub direction: String,
    /// Sensory cue for this transition.
    pub cue: String,
}

impl View for Corridor {
    type V = CorridorView;

    open spec fn view(&self) -> CorridorView {
        CorridorView { from: self.from@, to: self.to@, direction: self.direction@, cue: self.cue@ }
    }
}

impl Corridor {
    /// Create a new corridor.
    pub fn new(from: &str, to: &str, direction: &str, cue: &str) -> (c: Self)
        ensures
            c@ == (CorridorView { from: from@, to: to@, direction: direction@, cue: cue@ }),
    {
        Corridor {
            from: from.to_string(),
            to: to.to_string(),
            direction: direction.to_string(),
            cue: cue.to_string(),
        }
    }

    /// Does this corridor go from `room`?
    pub fn goes_from(&self, room: &str) -> (b: bool)
        ensures
            b == (self.from@ == room@),
    {
        str_eq(self.from.as_str(), room)
    }

    /// Does this corridor go to `room`?
    pub fn goes_to(&self, room: &str) -> (b: bool)
        ensures
            b == (self.to@ == room@),
    {
        str_eq(self.to.as_str(), room)
    }
}

/// The room names held by a list of strings.
pub open spec fn names(p: Seq<String>) -> Seq<Seq<char>> {
    p.map_values(|s: String| s@)
}

/// The views of a list of borrowed corridors.
pub open spec fn corridor_views(v: Seq<&Corridor>) -> Seq<CorridorView> {
    v.map_values(|c: &Corridor| c@)
}

/// Corridors that leave `room`.
pub open spec fn leaves(room: Seq<char>) -> spec_fn(CorridorView) -> bool {
    |c: CorridorView| c.from == room
}

/// Corridors that arrive at `room`.
pub open spec fn arrives(room: Seq<char>) -> spec_fn(CorridorView) -> bool {
    |c: CorridorView| c.to == room
}

/// A network of corridors connecting rooms.
#[derive(Debug, Clone)]
pub struct CorridorMap {
    corridors: Vec<Corridor>,
}

impl View for CorridorMap {
    type V = Seq<CorridorView>;

    closed spec fn view(&self) -> Seq<CorridorView> {
        self.corridors@.map_values(|c: Corridor| c@)
    }
}

impl Default for CorridorMap {
    fn default() -> (m: Self)
        ensures
            m@ == Seq::<CorridorView>::empty(),
    {
        Self::new()
    }
}

/// The search queue as room names and recorded routes.
spec fn queue_view(q: Seq<(String, Vec<String>)>) -> Seq<QueueEntry> {
    q.map_values(|e: (String, Vec<String>)| (e.0@, names(e.1@)))
}

impl CorridorMap {
    /// Create an empty corridor map.
    pub fn new() -> (m: Self)
        ensures
            m@ == Seq::<CorridorView>::empty(),
    {
        let m = CorridorMap { corridors: Vec::new() };
        assert(m@ =~= Seq::<CorridorView>::empty());
        m
    }

    /// Add a corridor.
    pub fn add(&mut self, corridor: Corridor)
        ensures
            final(self)@ == old(self)@.push(corridor@),
    {
        let ghost before = self@;
        self.corridors.push(corridor);
        assert(self@ =~= before.push(corridor@));
    }

    /// The corridors leaving `room` (or, when `by_origin` is false, arriving
    /// at it), in the order they were added.
    fn select(&self, room: &str, by_origin: bool) -> (found: Vec<&Corridor>)
        ensures
            corridor_views(found@) == self@.filter(
                if by_origin {
                    leaves(room@)
                } else {
                    arrives(room@)
                },
            ),
    {
        let ghost pred = if by_origin {
            leaves(room@)
        } else {
            arrives(room@)
        };
        let mut found: Vec<&Corridor> = Vec::new();
        let mut i: usize = 0;
        while i < self.corridors.len()
            invariant
                i <= self.corridors@.len(),
                self@.len() == self.corridors@.len(),
                corridor_views(found@) == self@.take(i as int).filter(pred),
                pred == (if by_origin {
                    leaves(room@)
                } else {
                    arrives(room@)
                }),
            decreases self.corridors@.len() - i,
        {
            let c = &self.corridors[i];
            let keep = if by_origin {
                c.goes_from(room)
            } else {
                c.goes_to(room)
            };
            let ghost before = found@;
            proof {
                assert(self@[i as int] == c@);
                assert(self@.take(i + 1) =~= self@.take(i as int).push(c@));
                self@.take(i as int).lemma_filter_push(c@, pred);
            }
            if keep {
                found.push(c);
                assert(corridor_views(found@) =~= corridor_views(before).push(c@));
            }
            i = i + 1;
        }
        assert(self@.take(self@.len() as int) =~= self@);
        found
    }

    /// Get corridors from a room.
    pub fn from_room(&self, room: &str) -> (found: Vec<&Corridor>)
        ensures
            corridor_views(found@) == self@.filter(leaves(room@)),
    {
        self.select(room, true)
    }

    /// Get corridors to a room.
    pub fn to_room(&self, room: &str) -> (found: Vec<&Corridor>)
        ensures
            corridor_views(found@) == self@.filter(arrives(room@)),
    {
        self.select(room, false)
    }

    /// Number of corridors.
    pub fn len(&self) -> (n: usize)
        ensures
            n == self@.len(),
    {
        self.corridors.len()
    }

    /// Is the map empty?
    pub fn is_empty(&self) -> (b: bool)
        ensures
            b == (self@.len() == 0),
    {
        self.corridors.len() == 0
    }

    /// Is `room` already in the search queue?
    fn queue_has(queue: &Vec<(String, Vec<String>)>, room: &str) -> (b: bool)
        ensures
            b == queued(queue_view(queue@), room@),
    {
        let ghost qv = queue_view(queue@);
        let mut i: usize = 0;
        while i < queue.len()
            invariant
                qv == queue_view(queue@),
                i <= queue@.len(),
                forall|m: int| 0 <= m < i ==> #[trigger] qv[m].0 != room@,
            decreases queue@.len() - i,
        {
            if str_eq(queue[i].0.as_str(), room) {
                assert(qv[i as int].0 == room@);
                return true;
            }
            i = i + 1;
        }
        assert(!queued(qv, room@)) by {
            if queued(qv, room@) {
                let m = choose|m: int| 0 <= m < qv.len() && #[trigger] qv[m].0 == room@;
            }
        }
        false
    }

    /// Find a path from `start` to `goal` using BFS: a shortest route through
    /// the corridors, as room names, or an empty list when none exists.
    pub fn find_path(&self, start: &str, goal: &str) -> (path: Vec<String>)
        ensures
            start@ == goal@ ==> names(path@) == seq![start@],
            start@ != goal@ ==> (path@.len() == 0 <==> !reachable(self@, start@, goal@)),
            path@.len() > 0 ==> shortest_route(self@, names(path@), start@, goal@),
            path@.len() > 0 ==> names(path@).no_duplicates(),
    {
        if str_eq(start, goal) {
            let mut only: Vec<String> = Vec::new();
            only.push(start.to_string());
            assert(names(only@) =~= seq![start@]);
            return only;
        }
        let ghost cs = self@;
        let mut first: Vec<String> = Vec::new();
        first.push(start.to_string());
        let mut queue: Vec<(String, Vec<String>)> = Vec::new();
        queue.push((start.to_string(), first));
        proof {
            assert(names(first@) =~= seq![start@]);
            assert(queue_view(queue@) =~= seq![(start@, seq![start@])]);
            lemma_search_start(cs, start@, goal@);
        }
        let mut head: usize = 0;
        while head < queue.len()
            invariant
                cs == self@,
                start@ != goal@,
                search_inv(cs, queue_view(queue@), head as int, start@, goal@),
            decreases pending_corridors(cs, queue_view(queue@)), queue@.len() - head,
        {
            let ghost q0 = queue_view(queue@);
            let current = queue[head].0.clone();
            let path = queue[head].1.clone();
            proof {
                assert(names(path@) =~= names(queue@[head as int].1@));
            }
            let nexts = self.from_room(current.as_str());
            let ghost f = cs.filter(leaves(current@));
            let mut j: usize = 0;
            while j < nexts.len()
                invariant
                    cs == self@,
                    start@ != goal@,
                    head < queue@.len(),
                    search_inv(cs, queue_view(queue@), head as int, start@, goal@),
                    queue_view(queue@)[head as int] == q0[head as int],
                    current@ == q0[head as int].0,
                    names(path@) == q0[head as int].1,
                    f == cs.filter(leaves(current@)),
                    corridor_views(nexts@) == f,
                    j <= nexts@.len(),
                    forall|m: int| 0 <= m < j ==> queued(queue_view(queue@), #[trigger] f[m].to),
                    forall|x: Seq<char>| queued(q0, x) ==> queued(queue_view(queue@), x),
                    queue_view(queue@) == q0 || pending_corridors(cs, queue_view(queue@))
                        < pending_corridors(cs, q0),
                decreases nexts@.len() - j,
            {
                let c = nexts[j];
                let ghost qv = queue_view(queue@);
                let ghost k: int;
                proof {
                    assert(f[j as int] == c@);
                    cs.lemma_filter_pred(leaves(current@), j as int);
                    assert(f.contains(c@));
                    cs.lemma_filter_contains_rev(leaves(current@), c@);
                    k = choose|k: int| 0 <= k < cs.len() && cs[k] == c@;
                }
                if c.goes_to(goal) {
                    let mut result = path.clone();
                    result.push(goal.to_string());
                    proof {
                        assert(names(result@) =~= names(path@).push(goal@));
                        lemma_search_found(cs, qv, head as int, start@, goal@, k);
                    }
                    return result;
                }
                if !Self::queue_has(&queue, c.to.as_str()) {
                    let mut new_path = path.clone();
                    new_path.push(c.to.clone());
                    queue.push((c.to.clone(), new_path));
                    proof {
                        assert(names(new_path@) =~= names(path@).push(c.to@));
                        assert(queue_view(queue@) =~= qv.push((c.to@, qv[head as int].1.push(c.to@))));
                        lemma_search_push(cs, qv, head as int, start@, goal@, k);
                        crate::route::lemma_queued_push(qv, (c.to@, qv[head as int].1.push(c.to@)));
                    }
                }
                proof {
                    let qn = queue_view(queue@);
                    assert(queued(qn, c.to@));
                    assert forall|m: int| 0 <= m < j + 1 implies queued(qn, #[trigger] f[m].to) by {
                        if m < j {
                            assert(queued(qv, f[m].to));
                        }
                    }
                }
                j = j + 1;
            }
            proof {
                let qv = queue_view(queue@);
                assert forall|k: int| 0 <= k < cs.len() && #[trigger] cs[k].from == qv[head as int].0
                    implies queued(qv, cs[k].to) by {
                    cs.lemma_filter_contains(leaves(current@), k);
                    let m = choose|m: int| 0 <= m < f.len() && f[m] == cs[k];
                    assert(queued(qv, f[m].to));
                }
                lemma_search_advance(cs, qv, head as int, start@, goal@);
            }
            head = head + 1;
        }
        proof {
            lemma_search_exhausted(cs, queue_view(queue@), start@, goal@);
        }
        Vec::new()
    }
}

} // verus!
