use crate::direction::{major_of, minor_of, opposite_of, orientation_of, Direction};
use crate::random::{random_below, random_bool};
use vstd::prelude::*;

verus! {

/// Three tunnels out of a room: the index of the room each one leads to, and
/// its direction.
pub type Room = [(usize, Direction); 3];

/// Arrows the player starts a game with.
pub const STARTING_ARROWS: i32 = 5;

/// The cave: its rooms, indexed by room number, and the rooms that hold the
/// bats, the pit and the wumpus.
#[derive(Clone, Debug)]
pub struct Maze {
    pub rooms: Vec<Room>,
    pub bats: usize,
    pub pit: usize,
    pub wumpus: usize,
    pub arrows: i32,
}

/// A room graph as plain sequences: entry `r` lists the tunnels of room `r`.
pub type Graph = Seq<Seq<(usize, Direction)>>;

pub open spec fn graph_of(rooms: Seq<Room>) -> Graph {
    rooms.map_values(|r: Room| r@)
}

/// Room `a` holds a tunnel to room `b` with direction `d`.
pub open spec fn has_edge(g: Graph, a: int, b: int, d: Direction) -> bool {
    exists|j: int| 0 <= j < 3 && #[trigger] g[a][j] == (b as usize, d)
}

/// Room `a` holds a tunnel to room `b`.
pub open spec fn adjacent(g: Graph, a: int, b: int) -> bool {
    exists|j: int| 0 <= j < 3 && #[trigger] g[a][j].0 == b
}

/// Room `r` has three tunnels, to three distinct existing rooms other than
/// itself, in three distinct directions.
pub open spec fn room_ok(g: Graph, r: int) -> bool {
    &&& g[r].len() == 3
    &&& forall|i: int| 0 <= i < 3 ==> #[trigger] g[r][i].0 < g.len() && g[r][i].0 != r
    &&& forall|i: int, j: int|
        0 <= i < j < 3 ==> (#[trigger] g[r][i]).0 != (#[trigger] g[r][j]).0 && g[r][i].1 != g[r][j].1
}

/// Every tunnel is matched by one leading back with the opposite direction.
pub open spec fn reciprocal(g: Graph) -> bool {
    forall|r: int, i: int|
        0 <= r < g.len() && 0 <= i < 3 ==> has_edge(
            g,
            (#[trigger] g[r][i]).0 as int,
            r,
            opposite_of(g[r][i].1),
        )
}

/// The structural invariant of a cave.
#[verifier::opaque]
pub open spec fn well_formed(g: Graph) -> bool {
    &&& forall|r: int| 0 <= r < g.len() ==> #[trigger] room_ok(g, r)
    &&& reciprocal(g)
}

/// A non-empty sequence of existing rooms, each adjacent to the next.
pub open spec fn is_walk(g: Graph, w: Seq<int>) -> bool {
    &&& w.len() > 0
    &&& forall|k: int| 0 <= k < w.len() ==> 0 <= #[trigger] w[k] < g.len()
    &&& forall|k: int| 0 <= k < w.len() - 1 ==> adjacent(g, #[trigger] w[k], w[k + 1])
}

/// Room `r` can be reached from the start room 0.
pub open spec fn reachable(g: Graph, r: int) -> bool {
    exists|w: Seq<int>| #[trigger] is_walk(g, w) && w[0] == 0 && w.last() == r
}

/// Every room can be reached from the start room 0.
pub open spec fn connected(g: Graph) -> bool {
    forall|r: int| 0 <= r < g.len() ==> #[trigger] reachable(g, r)
}

/// The four-room cave every maze grows from.
pub open spec fn base_graph() -> Graph {
    seq![
        seq![(1usize, Direction::West), (2usize, Direction::North), (3usize, Direction::East)],
        seq![(0usize, Direction::East), (2usize, Direction::West), (3usize, Direction::North)],
        seq![(0usize, Direction::South), (1usize, Direction::East), (3usize, Direction::West)],
        seq![(0usize, Direction::West), (1usize, Direction::South), (2usize, Direction::East)],
    ]
}

/// The room that the tunnel of `room` in direction `d` leads to, if there is
/// one.
pub open spec fn toward(room: Seq<(usize, Direction)>, d: Direction) -> Option<usize> {
    if room[0].1 == d {
        Some(room[0].0)
    } else if room[1].1 == d {
        Some(room[1].0)
    } else if room[2].1 == d {
        Some(room[2].0)
    } else {
        None
    }
}

/// The roles of a room's three tunnels when it is split, as slot indices
/// `(major, minor, lone)`: the two tunnels on a shared axis, major first, and
/// the one on the other axis.
#[verifier::opaque]
pub open spec fn split_roles(room: Seq<(usize, Direction)>) -> (int, int, int) {
    let o = orientation_of(room[0].1);
    if orientation_of(room[1].1) == o {
        if major_of(o) == room[0].1 { (0, 1, 2) } else { (1, 0, 2) }
    } else if orientation_of(room[2].1) == o {
        if major_of(o) == room[0].1 { (0, 2, 1) } else { (2, 0, 1) }
    } else {
        if major_of(orientation_of(room[1].1)) == room[1].1 { (1, 2, 0) } else { (2, 1, 0) }
    }
}

/// The slot of `room` whose tunnel leads to `target` (the first such slot).
#[verifier::opaque]
pub open spec fn slot_to(room: Seq<(usize, Direction)>, target: int) -> int {
    if room[0].0 == target { 0 } else if room[1].0 == target { 1 } else { 2 }
}

/// The graph after splitting room `idx` into three rooms: `idx` and two new
/// rooms appended at `n` and `n + 1`. `choice` picks the direction of the
/// tunnel between the two new rooms.
#[verifier::opaque]
pub open spec fn expanded(g: Graph, idx: int, choice: bool) -> Graph {
    let n = g.len();
    let r0 = g[idx];
    let (a, b, c) = split_roles(r0);
    let ax = orientation_of(r0[a].1);
    let sd = r0[c].1;
    let link = if choice { major_of(ax) } else { sd };
    let nb = r0[b].0 as int;
    let nc = r0[c].0 as int;
    let room_c = g[nc].update(slot_to(g[nc], idx), (n as usize, opposite_of(sd)));
    let room_b = g[nb].update(slot_to(g[nb], idx), ((n + 1) as usize, major_of(ax)));
    let center = seq![(r0[a].0, major_of(ax)), (n as usize, minor_of(ax)), ((n + 1) as usize, sd)];
    let first = seq![(idx as usize, major_of(ax)), (r0[c].0, sd), ((n + 1) as usize, opposite_of(link))];
    let second = seq![(n as usize, link), (r0[b].0, minor_of(ax)), (idx as usize, opposite_of(sd))];
    g.update(nc, room_c).update(nb, room_b).update(idx, center).push(first).push(second)
}

/// For a room with three distinct directions, the split roles are the three
/// slots, the first two on one axis (major, then minor), the third on the other.
pub proof fn lemma_split_roles(room: Seq<(usize, Direction)>)
    requires
        room.len() == 3,
        room[0].1 != room[1].1,
        room[0].1 != room[2].1,
        room[1].1 != room[2].1,
    ensures
        ({
            let (a, b, c) = split_roles(room);
            let ax = orientation_of(room[a].1);
            &&& 0 <= a < 3 && 0 <= b < 3 && 0 <= c < 3
            &&& a != b && a != c && b != c
            &&& room[a].1 == major_of(ax)
            &&& room[b].1 == minor_of(ax)
            &&& orientation_of(room[c].1) != ax
        }),
{
    reveal(split_roles);
}

/// The slot that `slot_to` finds holds a tunnel to the target.
pub proof fn lemma_slot_to(room: Seq<(usize, Direction)>, target: int, j: int)
    requires
        room.len() == 3,
        0 <= j < 3,
        room[j].0 == target,
        room[0].0 != room[1].0 && room[0].0 != room[2].0 && room[1].0 != room[2].0,
    ensures
        slot_to(room, target) == j,
{
    reveal(slot_to);
}

/// Each room of a well-formed cave is well formed.
pub proof fn lemma_room_ok(g: Graph, r: int)
    requires
        well_formed(g),
        0 <= r < g.len(),
    ensures
        room_ok(g, r),
{
    reveal(well_formed);
}

/// What `expanded` is, room by room.
pub proof fn lemma_expanded_rooms(g: Graph, idx: int, choice: bool)
    requires
        well_formed(g),
        0 <= idx < g.len(),
    ensures
        ({
            let g2 = expanded(g, idx, choice);
            let n = g.len() as int;
            let r0 = g[idx];
            let (a, b, c) = split_roles(r0);
            let ax = orientation_of(r0[a].1);
            let sd = r0[c].1;
            let link = if choice { major_of(ax) } else { sd };
            let nb = r0[b].0 as int;
            let nc = r0[c].0 as int;
            &&& g2.len() == n + 2
            &&& g2[idx] == seq![(r0[a].0, major_of(ax)), (n as usize, minor_of(ax)), ((n + 1) as usize, sd)]
            &&& g2[n] == seq![(idx as usize, major_of(ax)), (r0[c].0, sd), ((n + 1) as usize, opposite_of(link))]
            &&& g2[n + 1] == seq![(n as usize, link), (r0[b].0, minor_of(ax)), (idx as usize, opposite_of(sd))]
            &&& g2[nc] == g[nc].update(slot_to(g[nc], idx), (n as usize, opposite_of(sd)))
            &&& g2[nb] == g[nb].update(slot_to(g[nb], idx), ((n + 1) as usize, major_of(ax)))
            &&& forall|x: int| 0 <= x < n && x != idx && x != nb && x != nc ==> #[trigger] g2[x] == g[x]
        }),
{
    reveal(expanded);
    let r0 = g[idx];
    lemma_room_ok(g, idx);
    lemma_split_roles(r0);
}


/// Every tunnel of a well-formed cave is matched by one leading back.
pub proof fn lemma_back_edge(g: Graph, r: int, i: int)
    requires
        well_formed(g),
        0 <= r < g.len(),
        0 <= i < 3,
    ensures
        has_edge(g, g[r][i].0 as int, r, opposite_of(g[r][i].1)),
{
    reveal(well_formed);
}

/// Splitting a room of a well-formed cave keeps it well formed and adds
/// exactly two rooms.
#[verifier::rlimit(100)]
pub proof fn lemma_expand_preserves_well_formed(g: Graph, idx: int, choice: bool)
    requires
        well_formed(g),
        0 <= idx < g.len(),
        g.len() + 2 <= usize::MAX,
    ensures
        expanded(g, idx, choice).len() == g.len() + 2,
        well_formed(expanded(g, idx, choice)),
{
    let g2 = expanded(g, idx, choice);
    let n = g.len() as int;
    let r0 = g[idx];
    lemma_room_ok(g, idx);
    assert(r0[0].1 != r0[1].1 && r0[0].1 != r0[2].1 && r0[1].1 != r0[2].1);
    lemma_split_roles(r0);
    let (a, b, c) = split_roles(r0);
    let ax = orientation_of(r0[a].1);
    let sd = r0[c].1;
    let link = if choice { major_of(ax) } else { sd };
    let na = r0[a].0 as int;
    let nb = r0[b].0 as int;
    let nc = r0[c].0 as int;
    let sb = slot_to(g[nb], idx);
    let sc = slot_to(g[nc], idx);
    lemma_room_ok(g, na);
    lemma_room_ok(g, nb);
    lemma_room_ok(g, nc);
    lemma_back_edge(g, idx, c);
    lemma_back_edge(g, idx, b);
    lemma_back_edge(g, idx, a);
    let jc = choose|j: int| 0 <= j < 3 && #[trigger] g[nc][j] == (idx as usize, opposite_of(sd));
    lemma_slot_to(g[nc], idx, jc);
    let jb = choose|j: int| 0 <= j < 3 && #[trigger] g[nb][j] == (idx as usize, opposite_of(r0[b].1));
    lemma_slot_to(g[nb], idx, jb);
    assert(0 <= sc < 3 && g[nc][sc] == (idx as usize, opposite_of(sd)));
    assert(0 <= sb < 3 && g[nb][sb] == (idx as usize, major_of(ax)));
    lemma_expanded_rooms(g, idx, choice);
    assert forall|r: int| 0 <= r < g2.len() implies #[trigger] room_ok(g2, r) by {
        if r < n {
            lemma_room_ok(g, r);
        }
    }
    assert forall|r: int, i: int| 0 <= r < g2.len() && 0 <= i < 3 implies has_edge(
        g2,
        (#[trigger] g2[r][i]).0 as int,
        r,
        opposite_of(g2[r][i].1),
    ) by {
        let x = g2[r][i].0 as int;
        let d = g2[r][i].1;
        if r == idx {
            if i == 0 {
                let j = choose|j: int| 0 <= j < 3 && #[trigger] g[na][j] == (idx as usize, opposite_of(r0[a].1));
                assert(g2[na][j] == (r as usize, opposite_of(d)));
            } else if i == 1 {
                assert(g2[n][0] == (r as usize, opposite_of(d)));
            } else {
                assert(g2[n + 1][2] == (r as usize, opposite_of(d)));
            }
        } else if r == n {
            if i == 0 {
                assert(g2[idx][1] == (r as usize, opposite_of(d)));
            } else if i == 1 {
                assert(g2[nc][sc] == (r as usize, opposite_of(d)));
            } else {
                assert(g2[n + 1][0] == (r as usize, opposite_of(d)));
            }
        } else if r == n + 1 {
            if i == 0 {
                assert(g2[n][2] == (r as usize, opposite_of(d)));
            } else if i == 1 {
                assert(g2[nb][sb] == (r as usize, opposite_of(d)));
            } else {
                assert(g2[idx][2] == (r as usize, opposite_of(d)));
            }
        } else if (r == nc && i == sc) {
            assert(g2[n][1] == (r as usize, opposite_of(d)));
        } else if (r == nb && i == sb) {
            assert(g2[n + 1][1] == (r as usize, opposite_of(d)));
        } else {
            assert(g2[r][i] == g[r][i]);
            lemma_room_ok(g, r);
            lemma_back_edge(g, r, i);
            let j = choose|j: int| 0 <= j < 3 && #[trigger] g[x][j] == (r as usize, opposite_of(d));
            if x == idx {
                assert(r == na);
                assert(g[idx][a] == (r as usize, major_of(ax)));
                assert(g[x][a].1 == opposite_of(d));
                assert(g2[idx][0] == (r as usize, opposite_of(d)));
            } else {
                lemma_room_ok(g, x);
                if x == nb || x == nc {
                    lemma_slot_to(g[x], idx, if x == nb { jb } else { jc });
                }
                assert(j != slot_to(g[x], idx) || (x != nb && x != nc));
                assert(g2[x][j] == (r as usize, opposite_of(d)));
            }
        }
    }
    assert(well_formed(g2)) by {
        reveal(well_formed);
    }
}

#[verifier::rlimit(100)]
/// A room reached by a walk from room 0 stays reachable after a split.
proof fn lemma_expand_reaches(g: Graph, idx: int, choice: bool, w: Seq<int>)
    requires
        well_formed(g),
        0 <= idx < g.len(),
        g.len() + 2 <= usize::MAX,
        is_walk(g, w),
        w[0] == 0,
    ensures
        reachable(expanded(g, idx, choice), w.last()),
    decreases w.len(),
{
    let g2 = expanded(g, idx, choice);
    lemma_expanded_rooms(g, idx, choice);
    let n = g.len() as int;
    let r0 = g[idx];
    lemma_room_ok(g, idx);
    lemma_split_roles(r0);
    let (a, b, c) = split_roles(r0);
    let na = r0[a].0 as int;
    let nb = r0[b].0 as int;
    let nc = r0[c].0 as int;
    lemma_room_ok(g, nb);
    lemma_room_ok(g, nc);
    lemma_back_edge(g, idx, b);
    lemma_back_edge(g, idx, c);
    let jb = choose|j: int| 0 <= j < 3 && #[trigger] g[nb][j] == (idx as usize, opposite_of(r0[b].1));
    lemma_slot_to(g[nb], idx, jb);
    let jc = choose|j: int| 0 <= j < 3 && #[trigger] g[nc][j] == (idx as usize, opposite_of(r0[c].1));
    lemma_slot_to(g[nc], idx, jc);
    if w.len() == 1 {
        let v = seq![0int];
        assert(is_walk(g2, v));
    } else {
        let w1 = w.drop_last();
        assert(is_walk(g, w1));
        lemma_expand_reaches(g, idx, choice, w1);
        let q = w1.last();
        let r = w.last();
        let v = choose|v: Seq<int>| #[trigger] is_walk(g2, v) && v[0] == 0 && v.last() == q;
        assert(adjacent(g, w[w.len() - 2], w[w.len() - 1]));
        let i = choose|i: int| 0 <= i < 3 && #[trigger] g[q][i].0 == r;
        lemma_room_ok(g, q);
        if (q == idx && r == nc) || (q == nc && r == idx) {
            let mid = n;
            assert(adjacent(g2, q, mid)) by {
                if q == idx {
                    assert(g2[q][1].0 == mid);
                } else {
                    assert(g2[q][slot_to(g[nc], idx)].0 == mid);
                }
            }
            assert(adjacent(g2, mid, r)) by {
                if r == idx {
                    assert(g2[mid][0].0 == r);
                } else {
                    assert(g2[mid][1].0 == r);
                }
            }
            let v2 = v.push(mid).push(r);
            assert(is_walk(g2, v2)) by {
                assert forall|k: int| 0 <= k < v2.len() - 1 implies adjacent(g2, #[trigger] v2[k], v2[k + 1]) by {
                    if k < v.len() - 1 {
                        assert(v2[k] == v[k] && v2[k + 1] == v[k + 1]);
                    }
                }
            }
            assert(v2.last() == r);
        } else if (q == idx && r == nb) || (q == nb && r == idx) {
            let mid = n + 1;
            assert(adjacent(g2, q, mid)) by {
                if q == idx {
                    assert(g2[q][2].0 == mid);
                } else {
                    assert(g2[q][slot_to(g[nb], idx)].0 == mid);
                }
            }
            assert(adjacent(g2, mid, r)) by {
                if r == idx {
                    assert(g2[mid][2].0 == r);
                } else {
                    assert(g2[mid][1].0 == r);
                }
            }
            let v2 = v.push(mid).push(r);
            assert(is_walk(g2, v2)) by {
                assert forall|k: int| 0 <= k < v2.len() - 1 implies adjacent(g2, #[trigger] v2[k], v2[k + 1]) by {
                    if k < v.len() - 1 {
                        assert(v2[k] == v[k] && v2[k + 1] == v[k + 1]);
                    }
                }
            }
            assert(v2.last() == r);
        } else {
            assert(adjacent(g2, q, r)) by {
                if q == idx {
                    assert(r == na || r == nb || r == nc);
                    assert(r == na);
                    assert(g2[q][0].0 == r);
                } else if q == nc || q == nb {
                    assert(i != slot_to(g[q], idx));
                    assert(g2[q][i].0 == r);
                } else {
                    assert(g2[q][i].0 == r);
                }
            }
            let v2 = v.push(r);
            assert(is_walk(g2, v2)) by {
                assert forall|k: int| 0 <= k < v2.len() - 1 implies adjacent(g2, #[trigger] v2[k], v2[k + 1]) by {
                    if k < v.len() - 1 {
                        assert(v2[k] == v[k] && v2[k + 1] == v[k + 1]);
                    }
                }
            }
            assert(v2.last() == r);
        }
    }
}

/// Splitting a room of a connected, well-formed cave keeps every room
/// reachable from the start room.
pub proof fn lemma_expand_preserves_connected(g: Graph, idx: int, choice: bool)
    requires
        well_formed(g),
        connected(g),
        0 <= idx < g.len(),
        g.len() + 2 <= usize::MAX,
    ensures
        connected(expanded(g, idx, choice)),
{
    let g2 = expanded(g, idx, choice);
    lemma_expanded_rooms(g, idx, choice);
    let n = g.len() as int;
    assert(reachable(g, idx));
    let wi = choose|w: Seq<int>| #[trigger] is_walk(g, w) && w[0] == 0 && w.last() == idx;
    lemma_expand_reaches(g, idx, choice, wi);
    let vi = choose|v: Seq<int>| #[trigger] is_walk(g2, v) && v[0] == 0 && v.last() == idx;
    assert forall|r: int| 0 <= r < g2.len() implies #[trigger] reachable(g2, r) by {
        if r < n {
            assert(reachable(g, r));
            let w = choose|w: Seq<int>| #[trigger] is_walk(g, w) && w[0] == 0 && w.last() == r;
            lemma_expand_reaches(g, idx, choice, w);
        } else {
            let v2 = vi.push(r);
            if r == n {
                assert(g2[idx][1].0 == r);
            } else {
                assert(g2[idx][2].0 == r);
            }
            assert(is_walk(g2, v2)) by {
                assert forall|k: int| 0 <= k < v2.len() - 1 implies adjacent(g2, #[trigger] v2[k], v2[k + 1]) by {
                    if k < vi.len() - 1 {
                        assert(v2[k] == vi[k] && v2[k + 1] == vi[k + 1]);
                    }
                }
            }
            assert(v2.last() == r);
        }
    }
}

/// The base cave is well formed and connected.
pub proof fn lemma_base_valid()
    ensures
        well_formed(base_graph()),
        connected(base_graph()),
        base_graph().len() == 4,
{
    let g = base_graph();
    assert(well_formed(g)) by {
        reveal(well_formed);
        assert forall|r: int, i: int| 0 <= r < g.len() && 0 <= i < 3 implies has_edge(
            g,
            (#[trigger] g[r][i]).0 as int,
            r,
            opposite_of(g[r][i].1),
        ) by {
            let x = g[r][i].0 as int;
            let j = if r == 0 { 0int } else if r == 1 { if x == 0 { 0int } else { 1int } } else if r == 2 {
                if x == 3 { 2int } else { 1int }
            } else { 2int };
            assert(g[x][j] == (r as usize, opposite_of(g[r][i].1)));
        }
    }
    assert forall|r: int| 0 <= r < g.len() implies #[trigger] reachable(g, r) by {
        if r == 0 {
            assert(is_walk(g, seq![0int]));
        } else {
            let w = seq![0int, r];
            assert(g[0][r - 1].0 == r);
            assert(is_walk(g, w));
            assert(w.last() == r);
        }
    }
}

/// The slot of `room` that leads to `target`.
fn link_index(room: &Room, target: usize) -> (j: usize)
    ensures
        j < 3,
        j == slot_to(room@, target as int),
{
    proof {
        reveal(slot_to);
    }
    if room[0].0 == target {
        0
    } else if room[1].0 == target {
        1
    } else {
        2
    }
}

/// The split roles `(major, minor, lone)` of a room's three slots.
fn split_slots(room: &Room) -> (r: (usize, usize, usize))
    ensures
        (r.0 as int, r.1 as int, r.2 as int) == split_roles(room@),
{
    proof {
        reveal(split_roles);
    }
    let o = room[0].1.orientation();
    if room[1].1.orientation() == o {
        if o.major() == room[0].1 { (0, 1, 2) } else { (1, 0, 2) }
    } else if room[2].1.orientation() == o {
        if o.major() == room[0].1 { (0, 2, 1) } else { (2, 0, 1) }
    } else {
        if room[1].1.orientation().major() == room[1].1 { (1, 2, 0) } else { (2, 1, 0) }
    }
}

impl Maze {
    /// The tunnels of every room, as sequences.
    pub open spec fn graph(&self) -> Graph {
        graph_of(self.rooms@)
    }

    /// The four-room base cave, with every role on room 0.
    pub fn quad() -> (m: Maze)
        ensures
            m.graph() == base_graph(),
            m.bats == 0,
            m.pit == 0,
            m.wumpus == 0,
            m.arrows == STARTING_ARROWS,
    {
        let rooms: Vec<Room> = vec![
            [(1, Direction::West), (2, Direction::North), (3, Direction::East)],
            [(0, Direction::East), (2, Direction::West), (3, Direction::North)],
            [(0, Direction::South), (1, Direction::East), (3, Direction::West)],
            [(0, Direction::West), (1, Direction::South), (2, Direction::East)],
        ];
        let m = Maze { rooms, bats: 0, pit: 0, wumpus: 0, arrows: STARTING_ARROWS };
        assert(m.graph() =~~= base_graph());
        m
    }

    /// Splits room `idx` into three: `idx` itself and two new rooms appended
    /// at the end. `choice` picks the direction of the tunnel between the two
    /// new rooms. The roles are left as they were.
    #[verifier::rlimit(60)]
    pub fn expand(&mut self, idx: usize, choice: bool)
        requires
            well_formed(old(self).graph()),
            idx < old(self).rooms.len(),
            old(self).rooms.len() + 2 <= usize::MAX,
        ensures
            final(self).graph() == expanded(old(self).graph(), idx as int, choice),
            final(self).rooms.len() == old(self).rooms.len() + 2,
            final(self).bats == old(self).bats,
            final(self).pit == old(self).pit,
            final(self).wumpus == old(self).wumpus,
            final(self).arrows == old(self).arrows,
    {
        let ghost g = self.graph();
        let r0 = self.rooms[idx];
        proof {
            assert(g[idx as int] == r0@);
            lemma_room_ok(g, idx as int);
            lemma_split_roles(r0@);
        }
        let (fst_maj, fst_min, snd) = split_slots(&r0);
        let n_min = r0[fst_min].0;
        let n_snd = r0[snd].0;
        let at_min = link_index(&self.rooms[n_min], idx);
        let at_snd = link_index(&self.rooms[n_snd], idx);
        let r1_idx = self.rooms.len();
        let r2_idx = r1_idx + 1;
        let fst_or = r0[fst_maj].1.orientation();
        let snd_d = r0[snd].1;
        let r0_new: Room = [(r0[fst_maj].0, fst_or.major()), (r1_idx, fst_or.minor()), (r2_idx, snd_d)];
        let r2_r1_d = if choice { fst_or.major() } else { snd_d };
        let r1: Room = [(idx, fst_or.major()), (n_snd, snd_d), (r2_idx, r2_r1_d.opposite())];
        let r2: Room = [(r1_idx, r2_r1_d), (n_min, fst_or.minor()), (idx, snd_d.opposite())];
        proof {
            assert(n_snd != n_min && n_snd != idx && n_min != idx);
        }
        let mut room_snd = self.rooms[n_snd];
        room_snd[at_snd] = (r1_idx, snd_d.opposite());
        self.rooms[n_snd] = room_snd;
        let mut room_min = self.rooms[n_min];
        room_min[at_min] = (r2_idx, fst_or.major());
        self.rooms[n_min] = room_min;
        self.rooms[idx] = r0_new;
        self.rooms.push(r1);
        self.rooms.push(r2);
        proof {
            let g2 = expanded(g, idx as int, choice);
            lemma_expanded_rooms(g, idx as int, choice);
            assert(g[n_snd as int] == old(self).rooms@[n_snd as int]@);
            assert(g[n_min as int] == old(self).rooms@[n_min as int]@);
            assert forall|x: int| 0 <= x < g2.len() implies #[trigger] self.graph()[x] == g2[x] by {
                if x == idx {
                    assert(self.graph()[x] =~= g2[x]);
                } else if x == n_snd {
                    assert(room_snd@ =~= g[x].update(at_snd as int, (r1_idx, opposite_of(snd_d))));
                    assert(self.graph()[x] =~= g2[x]);
                } else if x == n_min {
                    assert(room_min@ =~= g[x].update(at_min as int, (r2_idx, major_of(fst_or))));
                    assert(self.graph()[x] =~= g2[x]);
                } else if x == g.len() {
                    assert(self.graph()[x] =~= g2[x]);
                } else if x == g.len() + 1 {
                    assert(self.graph()[x] =~= g2[x]);
                }
            }
            assert(self.graph() =~= g2);
        }
    }

    /// Where the tunnel out of room `r` in direction `d` leads, or `None`
    /// where that side of the room is a wall.
    pub fn neighbor_toward(&self, r: usize, d: Direction) -> (res: Option<usize>)
        requires
            r < self.rooms.len(),
        ensures
            res == toward(self.graph()[r as int], d),
    {
        let room = self.rooms[r];
        if room[0].1 == d {
            Some(room[0].0)
        } else if room[1].1 == d {
            Some(room[1].0)
        } else if room[2].1 == d {
            Some(room[2].0)
        } else {
            None
        }
    }

    /// Room number `k` among rooms `1..n` once room `bats` is left out.
    pub fn pit_room(n: usize, bats: usize, k: usize) -> (r: usize)
        requires
            1 <= bats < n,
            k + 2 < n,
        ensures
            r == (if k + 1 < bats { k + 1 } else { k + 2 }),
            1 <= r < n,
            r != bats,
    {
        if k + 1 < bats {
            k + 1
        } else {
            k + 2
        }
    }

    /// The rooms other than room 0 that have no tunnel from room 0, in
    /// increasing order.
    pub fn start_safe_rooms(&self) -> (c: Vec<usize>)
        requires
            self.rooms.len() >= 1,
        ensures
            forall|y: usize| c@.contains(y) <==> (1 <= y < self.rooms.len() && !adjacent(self.graph(), 0, y as int)),
            forall|i: int, j: int| 0 <= i < j < c.len() ==> c[i] < c[j],
    {
        let ghost g = self.graph();
        let n = self.rooms.len();
        let r = self.rooms[0];
        let mut c: Vec<usize> = Vec::new();
        let mut x: usize = 1;
        while x < n
            invariant
                1 <= x <= n,
                n == self.rooms.len(),
                g == self.graph(),
                r@ == g[0],
                forall|y: usize| c@.contains(y) <==> (1 <= y < x && !adjacent(g, 0, y as int)),
                forall|i: int, j: int| 0 <= i < j < c.len() ==> c[i] < c[j],
                forall|i: int| 0 <= i < c.len() ==> c[i] < x,
            decreases n - x,
        {
            let ghost before = c@;
            let safe = r[0].0 != x && r[1].0 != x && r[2].0 != x;
            if safe {
                c.push(x);
            }
            proof {
                assert(safe == !adjacent(g, 0, x as int));
                assert(safe ==> c@ == before.push(x));
                assert(!safe ==> c@ == before);
                assert forall|y: usize| c@.contains(y) <==> (1 <= y < x + 1 && !adjacent(g, 0, y as int)) by {
                    if c@.contains(y) {
                        let i = choose|i: int| 0 <= i < c@.len() && c@[i] == y;
                        if i < before.len() {
                            assert(before[i] == y);
                            assert(before.contains(y));
                        } else {
                            assert(safe && y == x);
                        }
                    }
                    if 1 <= y < x + 1 && !adjacent(g, 0, y as int) {
                        if y < x {
                            assert(before.contains(y));
                            let i = choose|i: int| 0 <= i < before.len() && before[i] == y;
                            assert(c@[i] == y);
                        } else {
                            assert(c@[c@.len() - 1] == y);
                        }
                    }
                }
            }
            x = x + 1;
        }
        c
    }

    /// A maze of `4 + 2 * adds` rooms: the base cave split `adds` times at
    /// random rooms, then bats, pit and wumpus placed at random rooms other
    /// than room 0, the bats and the pit apart, and the wumpus out of reach of
    /// room 0 whenever a split took place.
    pub fn generate(adds: u32) -> (m: Maze)
        requires
            4 + 2 * adds <= usize::MAX,
        ensures
            m.rooms.len() == 4 + 2 * adds,
            well_formed(m.graph()),
            connected(m.graph()),
            adds == 0 ==> m.graph() == base_graph(),
            1 <= m.bats < m.rooms.len(),
            1 <= m.pit < m.rooms.len(),
            1 <= m.wumpus < m.rooms.len(),
            m.bats != m.pit,
            adds > 0 ==> !adjacent(m.graph(), 0, m.wumpus as int),
            m.arrows == STARTING_ARROWS,
    {
        let mut maze = Maze::quad();
        proof {
            lemma_base_valid();
        }
        let mut k: u32 = 0;
        while k < adds
            invariant
                k <= adds,
                4 + 2 * adds <= usize::MAX,
                maze.rooms.len() == 4 + 2 * k,
                well_formed(maze.graph()),
                connected(maze.graph()),
                k == 0 ==> maze.graph() == base_graph(),
                maze.arrows == STARTING_ARROWS,
            decreases adds - k,
        {
            let idx = random_below(maze.rooms.len());
            let choice = random_bool();
            proof {
                lemma_expand_preserves_well_formed(maze.graph(), idx as int, choice);
                lemma_expand_preserves_connected(maze.graph(), idx as int, choice);
            }
            maze.expand(idx, choice);
            k = k + 1;
        }
        let n = maze.rooms.len();
        maze.bats = 1 + random_below(n - 1);
        maze.pit = Maze::pit_room(n, maze.bats, random_below(n - 2));
        if adds != 0 {
            let safe = maze.start_safe_rooms();
            proof {
                let g = maze.graph();
                lemma_room_ok(g, 0);
                assert(!adjacent(g, 0, 1) || !adjacent(g, 0, 2) || !adjacent(g, 0, 3) || !adjacent(g, 0, 4));
                if !adjacent(g, 0, 1) {
                    assert(safe@.contains(1));
                } else if !adjacent(g, 0, 2) {
                    assert(safe@.contains(2));
                } else if !adjacent(g, 0, 3) {
                    assert(safe@.contains(3));
                } else {
                    assert(safe@.contains(4));
                }
            }
            let w = safe[random_below(safe.len())];
            proof {
                assert(safe@.contains(w));
            }
            maze.wumpus = w;
        } else {
            maze.wumpus = 1 + random_below(n - 1);
        }
        maze
    }
}

} // verus!
