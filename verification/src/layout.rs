use vstd::prelude::*;

use crate::corridor::{Corridor, CorridorMap};
use crate::room::{item_view, Room};
use crate::route::{connects, links, reachable, route_between, CorridorView};
use crate::text::{
    decimal, decimal_string, lemma_decimal_injective, lemma_pairs_map_dom, lemma_pairs_map_last,
    pairs_map,
};

verus! {

broadcast use vstd::string::group_string_axioms;

/// How many concepts one room of `lay_out_pairs` holds.
pub const ROOM_CAPACITY: usize = 5;

/// Where `lay_out_pairs` anchors one concept: the room, and the slot along
/// the room's x axis.
#[derive(Debug, Clone)]
pub struct AnchorSlot {
    pub concept: String,
    pub room_id: String,
    pub slot: usize,
}

/// The rooms, corridors and anchor slots that pairs of (concept,
/// description) are laid out into.
#[derive(Debug, Clone)]
pub struct PairsLayout {
    pub rooms: Vec<Room>,
    pub corridors: CorridorMap,
    pub anchors: Vec<AnchorSlot>,
}

/// The id of room `i`: the prefix, an underscore, and the decimal index.
pub open spec fn room_key(prefix: Seq<char>, i: nat) -> Seq<char> {
    prefix + "_"@ + decimal(i)
}

/// The name of room `i`: "Room " and the decimal index.
pub open spec fn room_title(i: nat) -> Seq<char> {
    "Room "@ + decimal(i)
}

/// The pairs as character sequences.
pub open spec fn pair_views(pairs: Seq<(String, String)>) -> Seq<(Seq<char>, Seq<char>)> {
    pairs.map_values(|p: (String, String)| item_view(p))
}

/// Number of rooms needed for `n` pairs: `n` divided by the room capacity,
/// rounded up.
pub open spec fn rooms_needed(n: nat) -> nat {
    if n % 5 == 0 {
        n / 5
    } else {
        n / 5 + 1
    }
}

/// The pairs that go into room `i`.
pub open spec fn room_share(pv: Seq<(Seq<char>, Seq<char>)>, i: int) -> Seq<(Seq<char>, Seq<char>)> {
    pv.subrange(5 * i, if 5 * i + 5 <= pv.len() {
        5 * i + 5
    } else {
        pv.len() as int
    })
}

/// The concept of pair `k` is placed in the room that its anchor slot names.
pub open spec fn concept_placed(layout: PairsLayout, pairs: Seq<(String, String)>, k: int) -> bool {
    &&& k / 5 < layout.rooms@.len()
    &&& layout.rooms@[k / 5].id@ == layout.anchors@[k].room_id@
    &&& layout.rooms@[k / 5].contents().contains_key(pairs[k].0@)
}

/// Room `k / 5` describes the concept of pair `k` by that pair's description.
pub open spec fn own_description(layout: PairsLayout, pairs: Seq<(String, String)>, k: int) -> bool {
    &&& k / 5 < layout.rooms@.len()
    &&& layout.rooms@[k / 5].contents().contains_key(pairs[k].0@)
    &&& layout.rooms@[k / 5].contents()[pairs[k].0@] == pairs[k].1@
}

/// The corridor from room `i` to room `i + 1`.
pub open spec fn chain_corridor(prefix: Seq<char>, i: nat) -> CorridorView {
    CorridorView {
        from: room_key(prefix, i),
        to: room_key(prefix, i + 1),
        direction: "forward"@,
        cue: "doorway"@,
    }
}

/// Different rooms get different ids.
pub proof fn lemma_room_key_injective(prefix: Seq<char>, i: nat, j: nat)
    requires
        room_key(prefix, i) == room_key(prefix, j),
    ensures
        i == j,
{
    let n = prefix.len() + 1;
    reveal_strlit("_");
    assert(room_key(prefix, i).skip(n as int) =~= decimal(i));
    assert(room_key(prefix, j).skip(n as int) =~= decimal(j));
    lemma_decimal_injective(i, j);
}

/// Along chained corridors, rooms `0` to `i` form a route from room `0` to
/// room `i`.
pub proof fn lemma_chain_route(cs: Seq<CorridorView>, prefix: Seq<char>, i: nat)
    requires
        i <= cs.len(),
        forall|j: int| 0 <= j < cs.len() ==> #[trigger] cs[j] == chain_corridor(prefix, j as nat),
    ensures
        route_between(
            cs,
            Seq::new(i + 1, |m: int| room_key(prefix, m as nat)),
            room_key(prefix, 0),
            room_key(prefix, i),
        ),
        reachable(cs, room_key(prefix, 0), room_key(prefix, i)),
{
    let r = Seq::new(i + 1, |m: int| room_key(prefix, m as nat));
    assert forall|m: int| 0 <= m < r.len() - 1 implies #[trigger] links(cs, r, m) by {
        assert(cs[m] == chain_corridor(prefix, m as nat));
        assert(r[m] == room_key(prefix, m as nat));
        assert(r[m + 1] == room_key(prefix, (m + 1) as nat));
        assert(cs[m].from == r[m] && cs[m].to == r[m + 1]);
        assert(connects(cs, r[m], r[m + 1]));
    }
    assert(route_between(cs, r, room_key(prefix, 0), room_key(prefix, i)));
}

/// The pair at `k` falls in the share of room `k / 5`.
proof fn lemma_share_holds(pv: Seq<(Seq<char>, Seq<char>)>, k: int)
    requires
        0 <= k < pv.len(),
    ensures
        pairs_map(room_share(pv, k / 5)).contains_key(pv[k].0),
{
    let s = room_share(pv, k / 5);
    lemma_pairs_map_dom(s);
    assert(s[k - 5 * (k / 5)] == pv[k]);
}

/// The id of room `i`.
fn room_id(prefix: &str, i: usize) -> (id: String)
    ensures
        id@ == room_key(prefix@, i as nat),
{
    let mut id = prefix.to_string();
    proof {
        reveal_strlit("_");
    }
    id.append("_");
    let digits = decimal_string(i);
    id.append(digits.as_str());
    id
}

/// The name of room `i`.
fn room_name(i: usize) -> (name: String)
    ensures
        name@ == room_title(i as nat),
{
    let mut name = "Room ".to_string();
    proof {
        reveal_strlit("Room ");
    }
    let digits = decimal_string(i);
    name.append(digits.as_str());
    name
}

/// Lay out pairs of (concept, description): rooms of at most five concepts,
/// named after `room_prefix` and chained by corridors, each concept placed
/// in its room and given an anchor slot there.
pub fn lay_out_pairs(pairs: &[(String, String)], room_prefix: &str) -> (layout: PairsLayout)
    ensures
        layout.rooms@.len() == rooms_needed(pairs@.len()),
        forall|i: int|
            0 <= i < layout.rooms@.len() ==> {
                &&& (#[trigger] layout.rooms@[i]).wf()
                &&& layout.rooms@[i].id@ == room_key(room_prefix@, i as nat)
                &&& layout.rooms@[i].name@ == room_title(i as nat)
                &&& layout.rooms@[i].atmosphere@ == "neutral"@
                &&& layout.rooms@[i].contents() == pairs_map(room_share(pair_views(pairs@), i))
            },
        layout.corridors@.len() == if layout.rooms@.len() == 0 {
            0
        } else {
            layout.rooms@.len() - 1
        },
        forall|i: int|
            0 <= i < layout.corridors@.len() ==> #[trigger] layout.corridors@[i] == chain_corridor(
                room_prefix@,
                i as nat,
            ),
        layout.anchors@.len() == pairs@.len(),
        forall|k: int|
            0 <= k < pairs@.len() ==> {
                &&& (#[trigger] layout.anchors@[k]).concept@ == pairs@[k].0@
                &&& layout.anchors@[k].room_id@ == room_key(room_prefix@, (k / 5) as nat)
                &&& layout.anchors@[k].slot == k % 5
            },
        // no two rooms share an id
        forall|i: int, j: int|
            0 <= i < j < layout.rooms@.len() ==> #[trigger] layout.rooms@[i].id@
                != #[trigger] layout.rooms@[j].id@,
        // every concept is placed in the room its anchor names
        forall|k: int|
            0 <= k < pairs@.len() ==> #[trigger] concept_placed(layout, pairs@, k),
        // every room can be reached from the first
        forall|i: int|
            0 <= i < layout.rooms@.len() ==> reachable(
                layout.corridors@,
                room_key(room_prefix@, 0),
                #[trigger] room_key(room_prefix@, i as nat),
            ),
        // rooms of five, just enough of them that none is left empty
        pairs@.len() == 0 ==> layout.rooms@.len() == 0,
        pairs@.len() > 0 ==> 5 * (layout.rooms@.len() - 1) < pairs@.len() <= 5 * layout.rooms@.len(),
        // a concept not repeated later in its room is described by its own pair
        forall|k: int|
            0 <= k < pairs@.len() && (forall|m: int|
                k < m < 5 * (k / 5) + 5 && m < pairs@.len() ==> #[trigger] pairs@[m].0@
                    != pairs@[k].0@) ==> #[trigger] own_description(layout, pairs@, k),
{
    let n = pairs.len();
    let ghost pv = pair_views(pairs@);
    let num_rooms = n / ROOM_CAPACITY + if n % ROOM_CAPACITY > 0 {
        1
    } else {
        0
    };
    let mut rooms: Vec<Room> = Vec::new();
    let mut corridors = CorridorMap::new();
    let mut i: usize = 0;
    let mut lo: usize = 0;
    while i < num_rooms
        invariant
            n == pairs@.len(),
            pv == pair_views(pairs@),
            num_rooms == rooms_needed(n as nat),
            i <= num_rooms,
            lo == 5 * i,
            rooms@.len() == i,
            forall|j: int|
                0 <= j < i ==> {
                    &&& (#[trigger] rooms@[j]).wf()
                    &&& rooms@[j].id@ == room_key(room_prefix@, j as nat)
                    &&& rooms@[j].name@ == room_title(j as nat)
                    &&& rooms@[j].atmosphere@ == "neutral"@
                    &&& rooms@[j].contents() == pairs_map(room_share(pv, j))
                },
            corridors@.len() == if i == 0 {
                0
            } else {
                i - 1
            },
            forall|j: int|
                0 <= j < corridors@.len() ==> #[trigger] corridors@[j] == chain_corridor(
                    room_prefix@,
                    j as nat,
                ),
        decreases num_rooms - i,
    {
        assert(lo < n);
        let id = room_id(room_prefix, i);
        let title = room_name(i);
        let mut room = Room::new(id.as_str(), title.as_str(), "neutral");
        proof {
            reveal_strlit("neutral");
        }
        let hi = if n - lo >= ROOM_CAPACITY {
            lo + ROOM_CAPACITY
        } else {
            n
        };
        let mut k = lo;
        while k < hi
            invariant
                n == pairs@.len(),
                pv == pair_views(pairs@),
                lo <= k <= hi <= n,
                room.wf(),
                room.id@ == room_key(room_prefix@, i as nat),
                room.name@ == room_title(i as nat),
                room.atmosphere@ == "neutral"@,
                room.contents() == pairs_map(pv.subrange(lo as int, k as int)),
            decreases hi - k,
        {
            room.place(pairs[k].0.as_str(), pairs[k].1.as_str());
            proof {
                let s = pv.subrange(lo as int, k + 1);
                assert(s.drop_last() =~= pv.subrange(lo as int, k as int));
                assert(s.last() == pv[k as int]);
            }
            k = k + 1;
        }
        assert(pv.subrange(lo as int, hi as int) =~= room_share(pv, i as int));
        rooms.push(room);
        if i > 0 {
            let prev = room_id(room_prefix, i - 1);
            proof {
                reveal_strlit("forward");
                reveal_strlit("doorway");
            }
            let c = Corridor::new(prev.as_str(), id.as_str(), "forward", "doorway");
            corridors.add(c);
        }
        i = i + 1;
        lo = lo + ROOM_CAPACITY;
    }
    let mut anchors: Vec<AnchorSlot> = Vec::new();
    let mut k: usize = 0;
    while k < n
        invariant
            n == pairs@.len(),
            k <= n,
            anchors@.len() == k,
            forall|m: int|
                0 <= m < k ==> {
                    &&& (#[trigger] anchors@[m]).concept@ == pairs@[m].0@
                    &&& anchors@[m].room_id@ == room_key(room_prefix@, (m / 5) as nat)
                    &&& anchors@[m].slot == m % 5
                },
        decreases n - k,
    {
        let room = room_id(room_prefix, k / ROOM_CAPACITY);
        anchors.push(
            AnchorSlot { concept: pairs[k].0.clone(), room_id: room, slot: k % ROOM_CAPACITY },
        );
        k = k + 1;
    }
    let layout = PairsLayout { rooms, corridors, anchors };
    proof {
        assert forall|i: int, j: int| 0 <= i < j < layout.rooms@.len() implies #[trigger] layout.rooms@[i].id@
            != #[trigger] layout.rooms@[j].id@ by {
            if layout.rooms@[i].id@ == layout.rooms@[j].id@ {
                lemma_room_key_injective(room_prefix@, i as nat, j as nat);
            }
        }
        assert forall|k: int| 0 <= k < pairs@.len() implies #[trigger] concept_placed(
            layout,
            pairs@,
            k,
        ) by {
            assert(pv[k].0 == pairs@[k].0@);
            let nn = pairs@.len() as int;
            assert(k / 5 < if nn % 5 == 0 { nn / 5 } else { nn / 5 + 1 }) by (nonlinear_arith)
                requires
                    0 <= k < nn,
            ;
            lemma_share_holds(pv, k);
        }
        assert forall|i: int| 0 <= i < layout.rooms@.len() implies reachable(
            layout.corridors@,
            room_key(room_prefix@, 0),
            #[trigger] room_key(room_prefix@, i as nat),
        ) by {
            lemma_chain_route(layout.corridors@, room_prefix@, i as nat);
        }
        law_rooms_needed(n as nat);
        assert forall|k: int|
            0 <= k < pairs@.len() && (forall|m: int|
                k < m < 5 * (k / 5) + 5 && m < pairs@.len() ==> #[trigger] pairs@[m].0@
                    != pairs@[k].0@) implies #[trigger] own_description(layout, pairs@, k) by {
            assert(concept_placed(layout, pairs@, k));
            let i = k / 5;
            law_room_contents(pv, i);
            assert(pv[k] == (pairs@[k].0@, pairs@[k].1@));
            assert forall|m: int| k < m < 5 * i + 5 && m < pv.len() implies #[trigger] pv[m].0 != pv[k].0 by {
                assert(pv[m].0 == pairs@[m].0@);
                assert(pairs@[m].0@ != pairs@[k].0@);
            }
            assert(pairs_map(room_share(pv, i)).contains_key(pv[k].0));
        }
    }
    layout
}

/// The number of rooms for `n` pairs is `n` divided by five, rounded up:
/// no rooms for no pairs, and otherwise just enough rooms of five that the
/// last one is not empty.
pub proof fn law_rooms_needed(n: nat)
    ensures
        n == 0 ==> rooms_needed(n) == 0,
        n > 0 ==> 5 * (rooms_needed(n) - 1) < n <= 5 * rooms_needed(n),
{
}

/// Room `i` receives the pairs at positions `5 * i` up to `5 * i + 5`
/// (fewer for the last room), and at least one of them: it holds exactly
/// their concepts, and a concept that does not occur again later among them
/// is described by its own pair.
pub proof fn law_room_contents(pv: Seq<(Seq<char>, Seq<char>)>, i: int)
    requires
        0 <= i < rooms_needed(pv.len()),
    ensures
        room_share(pv, i).len() >= 1,
        forall|c: Seq<char>|
            #[trigger] pairs_map(room_share(pv, i)).contains_key(c) <==> exists|k: int|
                5 * i <= k < 5 * i + 5 && k < pv.len() && pv[k].0 == c,
        forall|k: int|
            5 * i <= k < 5 * i + 5 && k < pv.len() && (forall|m: int|
                k < m < 5 * i + 5 && m < pv.len() ==> #[trigger] pv[m].0 != pv[k].0) ==> {
                &&& pairs_map(room_share(pv, i)).contains_key(#[trigger] pv[k].0)
                &&& pairs_map(room_share(pv, i))[pv[k].0] == pv[k].1
            },
{
    let n = pv.len() as int;
    let lo = 5 * i;
    let hi = if 5 * i + 5 <= n { 5 * i + 5 } else { n };
    let sh = room_share(pv, i);
    assert(lo < n) by (nonlinear_arith)
        requires
            0 <= i,
            i < if n % 5 == 0 { n / 5 } else { n / 5 + 1 },
            lo == 5 * i,
    ;
    assert(sh.len() == hi - lo);
    lemma_pairs_map_dom(sh);
    assert forall|c: Seq<char>| #[trigger] pairs_map(sh).contains_key(c) <==> exists|k: int|
        5 * i <= k < 5 * i + 5 && k < pv.len() && pv[k].0 == c by {
        if pairs_map(sh).contains_key(c) {
            let j = choose|j: int| 0 <= j < sh.len() && sh[j].0 == c;
            assert(sh[j] == pv[lo + j]);
        }
        if exists|k: int| 5 * i <= k < 5 * i + 5 && k < pv.len() && pv[k].0 == c {
            let k = choose|k: int| 5 * i <= k < 5 * i + 5 && k < pv.len() && pv[k].0 == c;
            assert(sh[k - lo] == pv[k]);
        }
    }
    assert forall|k: int|
        5 * i <= k < 5 * i + 5 && k < pv.len() && (forall|m: int|
            k < m < 5 * i + 5 && m < pv.len() ==> #[trigger] pv[m].0 != pv[k].0) implies {
        &&& pairs_map(sh).contains_key(#[trigger] pv[k].0)
        &&& pairs_map(sh)[pv[k].0] == pv[k].1
    } by {
        let j = k - lo;
        assert(sh[j] == pv[k]);
        assert forall|m: int| j < m < sh.len() implies #[trigger] sh[m].0 != sh[j].0 by {
            assert(sh[m] == pv[lo + m]);
            assert(pv[lo + m].0 != pv[k].0);
        }
        lemma_pairs_map_last(sh, j);
    }
}

} // verus!
