use vstd::prelude::*;

use crate::corridor::{arrives, corridor_views, leaves, CorridorMap};
use crate::route::CorridorView;
use crate::text::str_eq;

verus! {

broadcast use vstd::string::group_string_axioms;

/// Action at a walk step.
#[derive(Debug, Clone)]
pub enum WalkAction {
    /// Enter the room, with the direction taken.
    Enter(String),
    /// Observe an item.
    Observe(String),
    /// Move to a position in the room, given as the IEEE 754 bit patterns of
    /// its x and y coordinates.
    MoveTo(u64, u64),
    /// Recall a concept.
    Recall(String),
}

/// A single step in a walk.
#[derive(Debug, Clone)]
pub struct WalkStep {
    pub room_id: String,
    pub action: WalkAction,
}

/// A path through the memory palace for sequential recall.
#[derive(Debug, Clone)]
pub struct Walk {
    pub steps: Vec<WalkStep>,
    pub current_index: usize,
}

/// The concepts recalled along `steps`, in order.
pub open spec fn recalled(steps: Seq<WalkStep>) -> Seq<Seq<char>>
    decreases steps.len(),
{
    if steps.len() == 0 {
        Seq::empty()
    } else {
        let before = recalled(steps.drop_last());
        match steps.last().action {
            WalkAction::Recall(c) => before.push(c@),
            _ => before,
        }
    }
}

/// The rooms of `steps`, in order.
pub open spec fn rooms_of(steps: Seq<WalkStep>) -> Seq<Seq<char>> {
    steps.map_values(|s: WalkStep| s.room_id@)
}

/// The direction with which a walk over `path` enters room `i`: "start" for
/// the first room; otherwise the direction of the first corridor, in the
/// order they were added, from room `i - 1` to room `i`, or "forward" when
/// there is none.
pub open spec fn entry_direction(cs: Seq<CorridorView>, path: Seq<Seq<char>>, i: int) -> Seq<char> {
    if i == 0 {
        "start"@
    } else {
        let m = cs.filter(leaves(path[i - 1])).filter(arrives(path[i]));
        if m.len() > 0 {
            m[0].direction
        } else {
            "forward"@
        }
    }
}

/// Step `step` enters room `i` of `path` with the direction of the first
/// corridor of `cs` from room `i - 1` to room `i`, or with "forward" when no
/// corridor leads there.
pub open spec fn direction_from_corridors(
    cs: Seq<CorridorView>,
    path: Seq<Seq<char>>,
    i: int,
    step: WalkStep,
) -> bool {
    step.action matches WalkAction::Enter(d) && if exists|k: int|
        0 <= k < cs.len() && #[trigger] cs[k].from == path[i - 1] && cs[k].to == path[i] {
        exists|k: int|
            0 <= k < cs.len() && #[trigger] cs[k].from == path[i - 1] && cs[k].to == path[i]
                && d@ == cs[k].direction && forall|j: int|
                0 <= j < k ==> !(#[trigger] cs[j].from == path[i - 1] && cs[j].to == path[i])
    } else {
        d@ == "forward"@
    }
}

/// The first element of `s` satisfying `p` heads `s.filter(p)`.
proof fn lemma_first_match<A>(s: Seq<A>, p: spec_fn(A) -> bool, m: int)
    requires
        0 <= m < s.len(),
        p(s[m]),
        forall|i: int| 0 <= i < m ==> !p(#[trigger] s[i]),
    ensures
        s.filter(p).len() > 0,
        s.filter(p)[0] == s[m],
    decreases m,
{
    let t = s.drop_first();
    assert(s =~= seq![s[0]] + t);
    t.lemma_filter_prepend(s[0], p);
    if m > 0 {
        assert forall|i: int| 0 <= i < m - 1 implies !p(#[trigger] t[i]) by {
            assert(t[i] == s[i + 1]);
        }
        assert(!p(s[0]));
        assert(t[m - 1] == s[m]);
        lemma_first_match(t, p, m - 1);
        assert(s.filter(p) =~= t.filter(p));
    }
}

impl Walk {
    /// Create a new walk from steps.
    pub fn new(steps: Vec<WalkStep>) -> (w: Self)
        ensures
            w.steps@ == steps@,
            w.current_index == 0,
    {
        Walk { steps, current_index: 0 }
    }

    /// Current step.
    pub fn current(&self) -> (step: Option<&WalkStep>)
        ensures
            step == if self.current_index < self.steps@.len() {
                Some(&self.steps@[self.current_index as int])
            } else {
                None
            },
    {
        if self.current_index < self.steps.len() {
            Some(&self.steps[self.current_index])
        } else {
            None
        }
    }

    /// Advance to the next step, unless the current step is the last one.
    pub fn advance(&mut self) -> (step: Option<&WalkStep>)
        requires
            old(self).steps@.len() > 0,
        ensures
            final(self).steps@ == old(self).steps@,
            old(self).current_index < old(self).steps@.len() - 1 ==> {
                &&& final(self).current_index == old(self).current_index + 1
                &&& step == Some(&final(self).steps@[final(self).current_index as int])
            },
            old(self).current_index >= old(self).steps@.len() - 1 ==> {
                &&& final(self).current_index == old(self).current_index
                &&& step is None
            },
    {
        if self.current_index < self.steps.len() - 1 {
            self.current_index = self.current_index + 1;
            Some(&self.steps[self.current_index])
        } else {
            None
        }
    }

    /// Go back one step, unless at the first step.
    pub fn go_back(&mut self) -> (step: Option<&WalkStep>)
        requires
            old(self).current_index <= old(self).steps@.len(),
        ensures
            final(self).steps@ == old(self).steps@,
            old(self).current_index > 0 ==> {
                &&& final(self).current_index == old(self).current_index - 1
                &&& step == Some(&final(self).steps@[final(self).current_index as int])
            },
            old(self).current_index == 0 ==> {
                &&& final(self).current_index == 0
                &&& step is None
            },
    {
        if self.current_index > 0 {
            self.current_index = self.current_index - 1;
            Some(&self.steps[self.current_index])
        } else {
            None
        }
    }

    /// Total steps in the walk.
    pub fn len(&self) -> (n: usize)
        ensures
            n == self.steps@.len(),
    {
        self.steps.len()
    }

    /// Is the walk empty?
    pub fn is_empty(&self) -> (b: bool)
        ensures
            b == (self.steps@.len() == 0),
    {
        self.steps.len() == 0
    }

    /// Is the walk complete, at or past its last step?
    pub fn is_complete(&self) -> (b: bool)
        requires
            self.steps@.len() > 0,
        ensures
            b == (self.current_index >= self.steps@.len() - 1),
    {
        self.current_index >= self.steps.len() - 1
    }

    /// Reset to the beginning.
    pub fn reset(&mut self)
        ensures
            final(self).steps@ == old(self).steps@,
            final(self).current_index == 0,
    {
        self.current_index = 0;
    }

    /// Extract all recalled concepts from the walk.
    pub fn recalled_concepts(&self) -> (concepts: Vec<&str>)
        ensures
            concepts@.map_values(|c: &str| c@) == recalled(self.steps@),
    {
        let mut concepts: Vec<&str> = Vec::new();
        let mut i: usize = 0;
        while i < self.steps.len()
            invariant
                i <= self.steps@.len(),
                concepts@.map_values(|c: &str| c@) == recalled(self.steps@.take(i as int)),
            decreases self.steps@.len() - i,
        {
            let ghost before = concepts@;
            proof {
                assert(self.steps@.take(i + 1).drop_last() =~= self.steps@.take(i as int));
            }
            match &self.steps[i].action {
                WalkAction::Recall(c) => {
                    concepts.push(c.as_str());
                    assert(concepts@.map_values(|c: &str| c@) =~= before.map_values(|c: &str| c@).push(c@));
                },
                _ => {},
            }
            i = i + 1;
        }
        assert(self.steps@.take(self.steps@.len() as int) =~= self.steps@);
        concepts
    }

    /// Rooms visited in order.
    pub fn rooms_visited(&self) -> (rooms: Vec<&str>)
        ensures
            rooms@.map_values(|r: &str| r@) == rooms_of(self.steps@),
    {
        let mut rooms: Vec<&str> = Vec::new();
        let mut i: usize = 0;
        while i < self.steps.len()
            invariant
                i <= self.steps@.len(),
                rooms@.len() == i,
                forall|j: int| 0 <= j < i ==> #[trigger] rooms@[j]@ == self.steps@[j].room_id@,
            decreases self.steps@.len() - i,
        {
            rooms.push(self.steps[i].room_id.as_str());
            i = i + 1;
        }
        assert(rooms@.map_values(|r: &str| r@) =~= rooms_of(self.steps@));
        rooms
    }
}

/// The direction for entering `room` from `prev`.
fn direction_between(corridors: &CorridorMap, prev: &str, room: &str) -> (dir: String)
    ensures
        dir@ == ({
            let m = corridors@.filter(leaves(prev@)).filter(arrives(room@));
            if m.len() > 0 {
                m[0].direction
            } else {
                "forward"@
            }
        }),
{
    let nexts = corridors.from_room(prev);
    let ghost f = corridor_views(nexts@);
    let mut m: usize = 0;
    while m < nexts.len()
        invariant
            f == corridor_views(nexts@),
            f == corridors@.filter(leaves(prev@)),
            m <= nexts@.len(),
            forall|i: int| 0 <= i < m ==> !arrives(room@)(#[trigger] f[i]),
        decreases nexts@.len() - m,
    {
        if str_eq(nexts[m].to.as_str(), room) {
            proof {
                assert(f[m as int] == nexts@[m as int]@);
                lemma_first_match(f, arrives(room@), m as int);
            }
            return nexts[m].direction.clone();
        }
        assert(f[m as int] == nexts@[m as int]@);
        m = m + 1;
    }
    proof {
        f.lemma_all_neg_filter_empty(arrives(room@));
        reveal_strlit("forward");
    }
    "forward".to_string()
}

/// Build a walk from a path of room ids using a corridor map: one step per
/// room, entering it with the direction of the corridor taken.
pub fn build_walk(path: &[String], corridors: &CorridorMap) -> (w: Walk)
    ensures
        w.current_index == 0,
        w.steps@.len() == path@.len(),
        rooms_of(w.steps@) == path@.map_values(|s: String| s@),
        forall|i: int|
            0 <= i < path@.len() ==> {
                &&& (#[trigger] w.steps@[i]).room_id@ == path@[i]@
                &&& w.steps@[i].action matches WalkAction::Enter(d) && d@ == entry_direction(
                    corridors@,
                    path@.map_values(|s: String| s@),
                    i,
                )
            },
        // a later room is entered with the direction of the first corridor
        // added from the room before it to it, or "forward" when there is none
        forall|i: int|
            0 < i < path@.len() ==> direction_from_corridors(
                corridors@,
                path@.map_values(|s: String| s@),
                i,
                #[trigger] w.steps@[i],
            ),
{
    let ghost names = path@.map_values(|s: String| s@);
    let mut steps: Vec<WalkStep> = Vec::new();
    let mut i: usize = 0;
    while i < path.len()
        invariant
            i <= path@.len(),
            names == path@.map_values(|s: String| s@),
            steps@.len() == i,
            forall|j: int|
                0 <= j < i ==> {
                    &&& (#[trigger] steps@[j]).room_id@ == path@[j]@
                    &&& steps@[j].action matches WalkAction::Enter(d) && d@ == entry_direction(
                        corridors@,
                        names,
                        j,
                    )
                },
        decreases path@.len() - i,
    {
        let direction = if i == 0 {
            proof {
                reveal_strlit("start");
            }
            "start".to_string()
        } else {
            direction_between(corridors, path[i - 1].as_str(), path[i].as_str())
        };
        assert(names[i as int] == path@[i as int]@);
        assert(i > 0 ==> names[i - 1] == path@[i - 1]@);
        steps.push(WalkStep { room_id: path[i].clone(), action: WalkAction::Enter(direction) });
        i = i + 1;
    }
    assert(rooms_of(steps@) =~= names);
    assert forall|i: int| 0 < i < path@.len() implies direction_from_corridors(
        corridors@,
        names,
        i,
        #[trigger] steps@[i],
    ) by {
        law_entry_direction(corridors@, names, i);
    }
    Walk::new(steps)
}

/// A walk of one step recalls that step's concept when its action is a
/// recall, and nothing otherwise.
pub proof fn law_recalled_single_step(step: WalkStep)
    ensures
        recalled(seq![step]) == match step.action {
            WalkAction::Recall(c) => seq![c@],
            _ => Seq::<Seq<char>>::empty(),
        },
{
    let one = seq![step];
    assert(one.drop_last() =~= Seq::<WalkStep>::empty());
    assert(one.last() == step);
    assert(recalled(one.drop_last()) == Seq::<Seq<char>>::empty());
    match step.action {
        WalkAction::Recall(c) => {
            assert(recalled(one) =~= seq![c@]);
        },
        _ => {},
    }
}

/// The concepts recalled along two walks joined one after the other are
/// those of the first walk followed by those of the second.
pub proof fn law_recalled_concatenates(a: Seq<WalkStep>, b: Seq<WalkStep>)
    ensures
        recalled(a + b) == recalled(a) + recalled(b),
    decreases b.len(),
{
    if b.len() == 0 {
        assert(a + b =~= a);
        assert(recalled(a) + recalled(b) =~= recalled(a));
    } else {
        law_recalled_concatenates(a, b.drop_last());
        assert((a + b).drop_last() =~= a + b.drop_last());
        assert((a + b).last() == b.last());
        match b.last().action {
            WalkAction::Recall(c) => {
                assert(recalled(a) + recalled(b) =~= (recalled(a) + recalled(b.drop_last())).push(c@));
            },
            _ => {
                assert(recalled(a) + recalled(b) =~= recalled(a) + recalled(b.drop_last()));
            },
        }
    }
}

/// Every recall step contributes its concept: a walk whose steps are all
/// recalls yields their concepts, one per step and in step order.
pub proof fn law_recalled_all_recalls(steps: Seq<WalkStep>)
    requires
        forall|i: int| 0 <= i < steps.len() ==> (#[trigger] steps[i]).action is Recall,
    ensures
        recalled(steps).len() == steps.len(),
        forall|i: int|
            0 <= i < steps.len() ==> #[trigger] recalled(steps)[i] == steps[i].action->Recall_0@,
    decreases steps.len(),
{
    if steps.len() > 0 {
        let t = steps.drop_last();
        assert forall|i: int| 0 <= i < t.len() implies (#[trigger] t[i]).action is Recall by {
            assert(t[i] == steps[i]);
        }
        law_recalled_all_recalls(t);
        assert(steps.last() == steps[steps.len() - 1]);
        assert forall|i: int| 0 <= i < steps.len() implies #[trigger] recalled(steps)[i]
            == steps[i].action->Recall_0@ by {
            if i < t.len() {
                assert(t[i] == steps[i]);
                assert(recalled(t)[i] == t[i].action->Recall_0@);
            }
        }
    }
}

/// `s.filter(p).filter(q)` keeps the elements satisfying both predicates.
proof fn lemma_filter_twice<A>(s: Seq<A>, p: spec_fn(A) -> bool, q: spec_fn(A) -> bool)
    ensures
        s.filter(p).filter(q) == s.filter(|x: A| p(x) && q(x)),
    decreases s.len(),
{
    let pq = |x: A| p(x) && q(x);
    if s.len() == 0 {
        reveal(Seq::filter);
        assert(s.filter(p) =~= s);
        assert(s.filter(p).filter(q) =~= s);
        assert(s.filter(pq) =~= s);
    } else {
        let t = s.drop_last();
        let x = s.last();
        lemma_filter_twice(t, p, q);
        assert(s =~= t.push(x));
        t.lemma_filter_push(x, p);
        t.lemma_filter_push(x, pq);
        t.filter(p).lemma_filter_push(x, q);
    }
}

/// The direction with which a walk enters room `i`, in terms of the
/// corridors themselves: "start" for the first room; for a later room, the
/// direction of the first corridor added that leads from the room before it
/// to it, and "forward" when no corridor does.
pub proof fn law_entry_direction(cs: Seq<CorridorView>, path: Seq<Seq<char>>, i: int)
    requires
        0 <= i < path.len(),
    ensures
        i == 0 ==> entry_direction(cs, path, i) == "start"@,
        i > 0 && (exists|k: int|
            0 <= k < cs.len() && #[trigger] cs[k].from == path[i - 1] && cs[k].to == path[i]) ==> exists|k: int|
            0 <= k < cs.len() && #[trigger] cs[k].from == path[i - 1] && cs[k].to == path[i]
                && entry_direction(cs, path, i) == cs[k].direction && forall|j: int|
                0 <= j < k ==> !(#[trigger] cs[j].from == path[i - 1] && cs[j].to == path[i]),
        i > 0 && !(exists|k: int|
            0 <= k < cs.len() && #[trigger] cs[k].from == path[i - 1] && cs[k].to == path[i])
            ==> entry_direction(cs, path, i) == "forward"@,
{
    if i > 0 {
        let a = path[i - 1];
        let b = path[i];
        let both = |c: CorridorView| leaves(a)(c) && arrives(b)(c);
        lemma_filter_twice(cs, leaves(a), arrives(b));
        if exists|k: int| 0 <= k < cs.len() && #[trigger] cs[k].from == a && cs[k].to == b {
            let k0 = choose|k: int| 0 <= k < cs.len() && #[trigger] cs[k].from == a && cs[k].to == b;
            // the least index with a matching corridor
            let k = least_match(cs, a, b, k0);
            assert(both(cs[k]));
            assert forall|j: int| 0 <= j < k implies !both(#[trigger] cs[j]) by {}
            lemma_first_match(cs, both, k);
        } else {
            assert forall|j: int| 0 <= j < cs.len() implies !both(#[trigger] cs[j]) by {
                if both(cs[j]) {
                    assert(cs[j].from == a && cs[j].to == b);
                }
            }
            cs.lemma_all_neg_filter_empty(both);
        }
    }
}

/// The least index at or below `k` of a corridor from `a` to `b`.
proof fn least_match(cs: Seq<CorridorView>, a: Seq<char>, b: Seq<char>, k: int) -> (m: int)
    requires
        0 <= k < cs.len(),
        cs[k].from == a && cs[k].to == b,
    ensures
        0 <= m <= k,
        cs[m].from == a && cs[m].to == b,
        forall|j: int| 0 <= j < m ==> !(#[trigger] cs[j].from == a && cs[j].to == b),
    decreases k,
{
    if exists|j: int| 0 <= j < k && #[trigger] cs[j].from == a && cs[j].to == b {
        let j = choose|j: int| 0 <= j < k && #[trigger] cs[j].from == a && cs[j].to == b;
        least_match(cs, a, b, j)
    } else {
        k
    }
}

} // verus!
