use vstd::prelude::*;

verus! {

/// A corridor as plain character sequences.
pub struct CorridorView {
    pub from: Seq<char>,
    pub to: Seq<char>,
    pub direction: Seq<char>,
    pub cue: Seq<char>,
}

/// Some corridor of `cs` leads from room `a` to room `b`.
pub open spec fn connects(cs: Seq<CorridorView>, a: Seq<char>, b: Seq<char>) -> bool {
    exists|k: int| 0 <= k < cs.len() && #[trigger] cs[k].from == a && cs[k].to == b
}

/// Step `i` of `r` goes through a corridor of `cs`.
pub open spec fn links(cs: Seq<CorridorView>, r: Seq<Seq<char>>, i: int) -> bool {
    connects(cs, r[i], r[i + 1])
}

/// `r` is a non-empty sequence of rooms, each next one reached by a corridor.
pub open spec fn is_route(cs: Seq<CorridorView>, r: Seq<Seq<char>>) -> bool {
    &&& r.len() >= 1
    &&& forall|i: int| 0 <= i < r.len() - 1 ==> #[trigger] links(cs, r, i)
}

/// `r` is a route from room `a` to room `b`.
pub open spec fn route_between(
    cs: Seq<CorridorView>,
    r: Seq<Seq<char>>,
    a: Seq<char>,
    b: Seq<char>,
) -> bool {
    &&& is_route(cs, r)
    &&& r[0] == a
    &&& r.last() == b
}

/// Room `b` can be reached from room `a` through the corridors `cs`.
pub open spec fn reachable(cs: Seq<CorridorView>, a: Seq<char>, b: Seq<char>) -> bool {
    exists|r: Seq<Seq<char>>| #[trigger] route_between(cs, r, a, b)
}

/// `r` is a route from `a` to `b` and no route between them is shorter.
pub open spec fn shortest_route(
    cs: Seq<CorridorView>,
    r: Seq<Seq<char>>,
    a: Seq<char>,
    b: Seq<char>,
) -> bool {
    &&& route_between(cs, r, a, b)
    &&& forall|o: Seq<Seq<char>>| #[trigger] route_between(cs, o, a, b) ==> r.len() <= o.len()
}

/// Dropping the last room of a route of two or more rooms leaves a route.
pub proof fn lemma_route_drop_last(cs: Seq<CorridorView>, r: Seq<Seq<char>>)
    requires
        is_route(cs, r),
        r.len() >= 2,
    ensures
        is_route(cs, r.drop_last()),
        connects(cs, r.drop_last().last(), r.last()),
{
    let t = r.drop_last();
    assert forall|i: int| 0 <= i < t.len() - 1 implies #[trigger] links(cs, t, i) by {
        assert(links(cs, r, i));
        assert(t[i] == r[i] && t[i + 1] == r[i + 1]);
    }
    assert(links(cs, r, r.len() - 2));
}

/// Extending a route by a room reached through a corridor gives a route.
pub proof fn lemma_route_push(cs: Seq<CorridorView>, r: Seq<Seq<char>>, x: Seq<char>)
    requires
        is_route(cs, r),
        connects(cs, r.last(), x),
    ensures
        is_route(cs, r.push(x)),
        r.push(x)[0] == r[0],
        r.push(x).last() == x,
{
    let u = r.push(x);
    assert forall|i: int| 0 <= i < u.len() - 1 implies #[trigger] links(cs, u, i) by {
        if i < r.len() - 1 {
            assert(links(cs, r, i));
            assert(u[i] == r[i] && u[i + 1] == r[i + 1]);
        } else {
            assert(u[i] == r.last() && u[i + 1] == x);
        }
    }
}

/// The room of a queue entry, and the route recorded to reach it.
pub type QueueEntry = (Seq<char>, Seq<Seq<char>>);

/// Room `x` has been put into the search queue.
pub open spec fn queued(qv: Seq<QueueEntry>, x: Seq<char>) -> bool {
    exists|i: int| 0 <= i < qv.len() && #[trigger] qv[i].0 == x
}

/// Entry `i` records a route from `start` to its room that has no room twice
/// and only passes through queued rooms.
pub open spec fn entry_sound(
    cs: Seq<CorridorView>,
    qv: Seq<QueueEntry>,
    i: int,
    start: Seq<char>,
) -> bool {
    &&& route_between(cs, qv[i].1, start, qv[i].0)
    &&& qv[i].1.no_duplicates()
    &&& forall|k: int| 0 <= k < qv[i].1.len() ==> queued(qv, #[trigger] qv[i].1[k])
}

/// The route recorded by entry `i` is no longer than any route to its room.
pub open spec fn entry_shortest(
    cs: Seq<CorridorView>,
    qv: Seq<QueueEntry>,
    i: int,
    start: Seq<char>,
) -> bool {
    forall|o: Seq<Seq<char>>| #[trigger] route_between(cs, o, start, qv[i].0) ==> qv[i].1.len() <= o.len()
}

/// Every corridor out of the room of entry `i` leads to a queued room.
pub open spec fn entry_expanded(cs: Seq<CorridorView>, qv: Seq<QueueEntry>, i: int) -> bool {
    forall|k: int| 0 <= k < cs.len() && #[trigger] cs[k].from == qv[i].0 ==> queued(qv, cs[k].to)
}

/// Every room with a route from `start` shorter than `n` rooms is the room of
/// one of the first `h` entries.
pub open spec fn settled_below(
    cs: Seq<CorridorView>,
    qv: Seq<QueueEntry>,
    h: int,
    n: int,
    start: Seq<char>,
) -> bool {
    forall|r: Seq<Seq<char>>|
        #[trigger] is_route(cs, r) && r[0] == start && r.len() < n ==> exists|i: int|
            0 <= i < h && qv[i].0 == r.last()
}

/// The state of the breadth-first search from `start` towards `goal`, after
/// the first `h` queue entries have been expanded.
pub open spec fn search_inv(
    cs: Seq<CorridorView>,
    qv: Seq<QueueEntry>,
    h: int,
    start: Seq<char>,
    goal: Seq<char>,
) -> bool {
    &&& 1 <= qv.len()
    &&& 0 <= h <= qv.len()
    &&& qv[0].0 == start
    &&& start != goal
    &&& !queued(qv, goal)
    &&& forall|i: int| 0 <= i < qv.len() ==> #[trigger] entry_sound(cs, qv, i, start)
    &&& forall|i: int| 0 <= i < qv.len() ==> #[trigger] entry_shortest(cs, qv, i, start)
    &&& forall|i: int, j: int| 0 <= i <= j < qv.len() ==> #[trigger] qv[i].1.len() <= #[trigger] qv[j].1.len()
    &&& h < qv.len() ==> qv.last().1.len() <= qv[h].1.len() + 1
    &&& forall|i: int| 0 <= i < h ==> #[trigger] entry_expanded(cs, qv, i)
    &&& h < qv.len() ==> settled_below(cs, qv, h, qv[h].1.len() as int, start)
}

/// Number of corridors of `cs` whose destination is not queued yet.
pub open spec fn pending_corridors(cs: Seq<CorridorView>, qv: Seq<QueueEntry>) -> nat
    decreases cs.len(),
{
    if cs.len() == 0 {
        0
    } else {
        pending_corridors(cs.drop_last(), qv) + if queued(qv, cs.last().to) {
            0nat
        } else {
            1nat
        }
    }
}

/// Queueing more rooms never raises the count of pending_corridors corridors, and
/// lowers it when the destination of some corridor becomes queued.
pub proof fn lemma_pending_corridors_shrinks(
    cs: Seq<CorridorView>,
    qv: Seq<QueueEntry>,
    qw: Seq<QueueEntry>,
    k: int,
)
    requires
        forall|x: Seq<char>| queued(qv, x) ==> queued(qw, x),
    ensures
        pending_corridors(cs, qw) <= pending_corridors(cs, qv),
        0 <= k < cs.len() && !queued(qv, cs[k].to) && queued(qw, cs[k].to) ==> pending_corridors(cs, qw)
            < pending_corridors(cs, qv),
    decreases cs.len(),
{
    if cs.len() > 0 {
        let t = cs.drop_last();
        if 0 <= k < cs.len() - 1 {
            lemma_pending_corridors_shrinks(t, qv, qw, k);
            assert(t[k] == cs[k]);
        } else {
            lemma_pending_corridors_shrinks(t, qv, qw, -1);
        }
    }
}

/// A queue entry stays queued when the queue grows.
pub proof fn lemma_queued_push(qv: Seq<QueueEntry>, e: QueueEntry)
    ensures
        forall|x: Seq<char>| queued(qv, x) ==> queued(qv.push(e), x),
        queued(qv.push(e), e.0),
{
    assert forall|x: Seq<char>| queued(qv, x) implies queued(qv.push(e), x) by {
        let i = choose|i: int| 0 <= i < qv.len() && #[trigger] qv[i].0 == x;
        assert(qv.push(e)[i].0 == x);
    }
    assert(qv.push(e)[qv.len() as int].0 == e.0);
}

/// The search starts with the single entry for `start`.
pub proof fn lemma_search_start(cs: Seq<CorridorView>, start: Seq<char>, goal: Seq<char>)
    requires
        start != goal,
    ensures
        search_inv(cs, seq![(start, seq![start])], 0, start, goal),
{
    let qv: Seq<QueueEntry> = seq![(start, seq![start])];
    assert(qv[0].0 == start);
    assert forall|i: int| 0 <= i < qv.len() implies #[trigger] entry_sound(cs, qv, i, start) by {
        assert(qv[i].1[0] == start);
        assert(queued(qv, start));
    }
    assert(!queued(qv, goal)) by {
        if queued(qv, goal) {
            let i = choose|i: int| 0 <= i < qv.len() && #[trigger] qv[i].0 == goal;
        }
    }
}

/// A route from `start` no longer than the route recorded at `h` ends in a
/// queued room: every room closer than that is settled and expanded.
proof fn lemma_short_route_ends_queued(
    cs: Seq<CorridorView>,
    qv: Seq<QueueEntry>,
    h: int,
    start: Seq<char>,
    goal: Seq<char>,
    r: Seq<Seq<char>>,
)
    requires
        search_inv(cs, qv, h, start, goal),
        h < qv.len(),
        is_route(cs, r),
        r[0] == start,
        r.len() <= qv[h].1.len(),
    ensures
        queued(qv, r.last()),
{
    if r.len() == 1 {
        assert(qv[0].0 == r.last());
    } else {
        lemma_route_drop_last(cs, r);
        let t = r.drop_last();
        assert(is_route(cs, t) && t[0] == start && t.len() < qv[h].1.len());
        let i = choose|i: int| 0 <= i < h && qv[i].0 == t.last();
        assert(entry_expanded(cs, qv, i));
        let k = choose|k: int| 0 <= k < cs.len() && #[trigger] cs[k].from == t.last() && cs[k].to == r.last();
        assert(cs[k].from == qv[i].0);
    }
}

/// Queueing a room reached from the entry at `h` by corridor `k` keeps the
/// search state, and lowers the count of pending_corridors corridors.
pub proof fn lemma_search_push(
    cs: Seq<CorridorView>,
    qv: Seq<QueueEntry>,
    h: int,
    start: Seq<char>,
    goal: Seq<char>,
    k: int,
)
    requires
        search_inv(cs, qv, h, start, goal),
        h < qv.len(),
        0 <= k < cs.len(),
        cs[k].from == qv[h].0,
        cs[k].to != goal,
        !queued(qv, cs[k].to),
    ensures
        search_inv(cs, qv.push((cs[k].to, qv[h].1.push(cs[k].to))), h, start, goal),
        pending_corridors(cs, qv.push((cs[k].to, qv[h].1.push(cs[k].to)))) < pending_corridors(cs, qv),
        forall|x: Seq<char>| queued(qv, x) ==> queued(qv.push((cs[k].to, qv[h].1.push(cs[k].to))), x),
{
    let v = cs[k].to;
    let p = qv[h].1;
    let e: QueueEntry = (v, p.push(v));
    let qw = qv.push(e);
    let n = qv.len() as int;
    lemma_queued_push(qv, e);
    lemma_pending_corridors_shrinks(cs, qv, qw, k);
    assert(entry_sound(cs, qv, h, start));
    assert(connects(cs, p.last(), v));
    lemma_route_push(cs, p, v);
    assert forall|i: int| 0 <= i < qw.len() implies #[trigger] entry_sound(cs, qw, i, start) by {
        if i < n {
            assert(entry_sound(cs, qv, i, start));
            assert(qw[i] == qv[i]);
            assert forall|m: int| 0 <= m < qw[i].1.len() implies queued(qw, #[trigger] qw[i].1[m]) by {
                assert(queued(qv, qv[i].1[m]));
            }
        } else {
            assert(qw[i] == e);
            assert forall|m: int| 0 <= m < e.1.len() implies queued(qw, #[trigger] e.1[m]) by {
                if m < p.len() {
                    assert(e.1[m] == p[m]);
                    assert(queued(qv, p[m]));
                }
            }
            assert forall|a: int, b: int| 0 <= a < e.1.len() && 0 <= b < e.1.len() && a != b
                implies e.1[a] != e.1[b] by {
                if a < p.len() && b < p.len() {
                } else if a < p.len() {
                    assert(queued(qv, p[a]));
                } else if b < p.len() {
                    assert(queued(qv, p[b]));
                }
            }
        }
    }
    assert forall|i: int| 0 <= i < qw.len() implies #[trigger] entry_shortest(cs, qw, i, start) by {
        if i < n {
            assert(entry_shortest(cs, qv, i, start));
            assert(qw[i] == qv[i]);
        } else {
            assert(qw[i] == e);
            assert forall|o: Seq<Seq<char>>| #[trigger] route_between(cs, o, start, qw[i].0) implies qw[i].1.len()
                <= o.len() by {
                if o.len() <= p.len() {
                    lemma_short_route_ends_queued(cs, qv, h, start, goal, o);
                }
            }
        }
    }
    assert forall|i: int, j: int| 0 <= i <= j < qw.len() implies #[trigger] qw[i].1.len() <= #[trigger] qw[j].1.len() by {
        if j < n {
            assert(qw[i] == qv[i] && qw[j] == qv[j]);
            assert(qv[i].1.len() <= qv[j].1.len());
        } else if i < n {
            assert(qw[i] == qv[i]);
            assert(qv[i].1.len() <= qv[n - 1].1.len());
        }
    }
    assert forall|i: int| 0 <= i < h implies #[trigger] entry_expanded(cs, qw, i) by {
        assert(entry_expanded(cs, qv, i));
        assert(qw[i] == qv[i]);
    }
    assert(settled_below(cs, qw, h, qw[h].1.len() as int, start)) by {
        assert(qw[h] == qv[h]);
        assert(settled_below(cs, qv, h, qv[h].1.len() as int, start));
        assert forall|r: Seq<Seq<char>>|
            #[trigger] is_route(cs, r) && r[0] == start && r.len() < qw[h].1.len() implies exists|i: int|
            0 <= i < h && qw[i].0 == r.last() by {
            let i = choose|i: int| 0 <= i < h && qv[i].0 == r.last();
            assert(qw[i] == qv[i]);
        }
    }
    assert(!queued(qw, goal)) by {
        if queued(qw, goal) {
            let i = choose|i: int| 0 <= i < qw.len() && #[trigger] qw[i].0 == goal;
            if i < n {
                assert(qv[i].0 == goal);
            }
        }
    }
    assert(qw[0] == qv[0]);
}

/// Reaching `goal` from the entry at `h` by corridor `k` yields a shortest
/// route without repeated rooms.
pub proof fn lemma_search_found(
    cs: Seq<CorridorView>,
    qv: Seq<QueueEntry>,
    h: int,
    start: Seq<char>,
    goal: Seq<char>,
    k: int,
)
    requires
        search_inv(cs, qv, h, start, goal),
        h < qv.len(),
        0 <= k < cs.len(),
        cs[k].from == qv[h].0,
        cs[k].to == goal,
    ensures
        shortest_route(cs, qv[h].1.push(goal), start, goal),
        qv[h].1.push(goal).no_duplicates(),
{
    let p = qv[h].1;
    assert(entry_sound(cs, qv, h, start));
    assert(connects(cs, p.last(), goal));
    lemma_route_push(cs, p, goal);
    let u = p.push(goal);
    assert forall|o: Seq<Seq<char>>| #[trigger] route_between(cs, o, start, goal) implies u.len() <= o.len() by {
        if o.len() <= p.len() {
            lemma_short_route_ends_queued(cs, qv, h, start, goal, o);
        }
    }
    assert forall|a: int, b: int| 0 <= a < u.len() && 0 <= b < u.len() && a != b implies u[a] != u[b] by {
        if a < p.len() && b < p.len() {
        } else if a < p.len() {
            assert(queued(qv, p[a]));
        } else if b < p.len() {
            assert(queued(qv, p[b]));
        }
    }
}

/// Once every corridor out of the entry at `h` leads to a queued room, the
/// search may move on to the next entry.
pub proof fn lemma_search_advance(
    cs: Seq<CorridorView>,
    qv: Seq<QueueEntry>,
    h: int,
    start: Seq<char>,
    goal: Seq<char>,
)
    requires
        search_inv(cs, qv, h, start, goal),
        h < qv.len(),
        entry_expanded(cs, qv, h),
    ensures
        search_inv(cs, qv, h + 1, start, goal),
{
    assert forall|i: int| 0 <= i < h + 1 implies #[trigger] entry_expanded(cs, qv, i) by {}
    if h + 1 < qv.len() {
        let n = qv[h].1.len() as int;
        let n2 = qv[h + 1].1.len() as int;
        assert(n <= n2);
        assert(n2 <= qv.last().1.len()) by {
            assert(qv[h + 1].1.len() <= qv[qv.len() - 1].1.len());
        }
        assert forall|r: Seq<Seq<char>>|
            #[trigger] is_route(cs, r) && r[0] == start && r.len() < n2 implies exists|i: int|
            0 <= i < h + 1 && qv[i].0 == r.last() by {
            if r.len() < n {
                let i = choose|i: int| 0 <= i < h && qv[i].0 == r.last();
            } else if r.len() == 1 {
                assert(qv[0].0 == r.last());
            } else {
                lemma_route_drop_last(cs, r);
                let t = r.drop_last();
                assert(is_route(cs, t) && t[0] == start && t.len() < n);
                let i = choose|i: int| 0 <= i < h && qv[i].0 == t.last();
                assert(entry_expanded(cs, qv, i));
                let k = choose|k: int| 0 <= k < cs.len() && #[trigger] cs[k].from == t.last() && cs[k].to == r.last();
                assert(cs[k].from == qv[i].0);
                assert(queued(qv, r.last()));
                let m = choose|m: int| 0 <= m < qv.len() && #[trigger] qv[m].0 == r.last();
                assert(entry_shortest(cs, qv, m, start));
                assert(route_between(cs, r, start, qv[m].0));
                if m > h {
                    assert(qv[h + 1].1.len() <= qv[m].1.len());
                    assert(false);
                }
            }
        }
    }
}

/// Every room of a route from a queued room through expanded entries is queued.
proof fn lemma_route_stays_queued(
    cs: Seq<CorridorView>,
    qv: Seq<QueueEntry>,
    r: Seq<Seq<char>>,
    m: int,
)
    requires
        is_route(cs, r),
        queued(qv, r[0]),
        forall|i: int| 0 <= i < qv.len() ==> #[trigger] entry_expanded(cs, qv, i),
        0 <= m < r.len(),
    ensures
        queued(qv, r[m]),
    decreases m,
{
    if m > 0 {
        lemma_route_stays_queued(cs, qv, r, m - 1);
        assert(links(cs, r, m - 1));
        let i = choose|i: int| 0 <= i < qv.len() && #[trigger] qv[i].0 == r[m - 1];
        assert(entry_expanded(cs, qv, i));
        let k = choose|k: int| 0 <= k < cs.len() && #[trigger] cs[k].from == r[m - 1] && cs[k].to == r[m];
    }
}

/// When every queue entry has been expanded without meeting `goal`, no
/// route leads from `start` to `goal`.
pub proof fn lemma_search_exhausted(
    cs: Seq<CorridorView>,
    qv: Seq<QueueEntry>,
    start: Seq<char>,
    goal: Seq<char>,
)
    requires
        search_inv(cs, qv, qv.len() as int, start, goal),
    ensures
        !reachable(cs, start, goal),
{
    if reachable(cs, start, goal) {
        let r = choose|r: Seq<Seq<char>>| #[trigger] route_between(cs, r, start, goal);
        assert(qv[0].0 == r[0]);
        lemma_route_stays_queued(cs, qv, r, r.len() - 1);
    }
}

/// Adding a corridor never cuts a room off: every route stays a route.
pub proof fn law_route_survives_new_corridor(
    cs: Seq<CorridorView>,
    c: CorridorView,
    r: Seq<Seq<char>>,
)
    requires
        is_route(cs, r),
    ensures
        is_route(cs.push(c), r),
{
    assert forall|i: int| 0 <= i < r.len() - 1 implies #[trigger] links(cs.push(c), r, i) by {
        assert(links(cs, r, i));
        let k = choose|k: int| 0 <= k < cs.len() && #[trigger] cs[k].from == r[i] && cs[k].to == r[i + 1];
        assert(cs.push(c)[k] == cs[k]);
    }
}

/// Adding a corridor never lengthens the shortest route between two rooms,
/// and keeps reachable rooms reachable.
pub proof fn law_shortest_route_never_grows(
    cs: Seq<CorridorView>,
    c: CorridorView,
    a: Seq<char>,
    b: Seq<char>,
    before: Seq<Seq<char>>,
    after: Seq<Seq<char>>,
)
    requires
        shortest_route(cs, before, a, b),
        shortest_route(cs.push(c), after, a, b),
    ensures
        after.len() <= before.len(),
{
    law_route_survives_new_corridor(cs, c, before);
    assert(route_between(cs.push(c), before, a, b));
}

/// Rooms reachable through `cs` stay reachable when a corridor is added.
pub proof fn law_reachable_survives_new_corridor(
    cs: Seq<CorridorView>,
    c: CorridorView,
    a: Seq<char>,
    b: Seq<char>,
)
    requires
        reachable(cs, a, b),
    ensures
        reachable(cs.push(c), a, b),
{
    let r = choose|r: Seq<Seq<char>>| #[trigger] route_between(cs, r, a, b);
    law_route_survives_new_corridor(cs, c, r);
    assert(route_between(cs.push(c), r, a, b));
}

} // verus!
