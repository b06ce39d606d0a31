//! The board of a Faritany game: which cells hold a stone of which player,
//! which stones are captured, and which polygons a player has closed.
//!
//! Placing a stone looks for the group of stones it joins, keeps the part of
//! that group that forms closed loops, traces the loop as a polygon, and
//! captures the opponent's stones inside it.
use vstd::prelude::*;
use crate::player::Player;
use crate::point::{Point, in_polygon, point_key, crosses_right, crossing_count, prev_index};

verus! {

broadcast use vstd::seq_lib::group_seq_properties;

// ---------------------------------------------------------------------------
// Model
// ---------------------------------------------------------------------------

/// What a board is, as the contracts speak of it.
#[verifier::ext_equal]
pub struct GridModel {
    /// Occupied cells: a stone of a player, or `None` for a cell that a
    /// capture has neutralised.
    pub cells: Map<Point, Option<Player>>,
    /// Polygons that a player has closed without capturing anything, with
    /// their owner, in the order in which they were closed.
    pub loops: Seq<(Seq<Point>, Player)>,
    /// Captured stones: they no longer count for their owner.
    pub disabled: Set<Point>,
    /// Width and height of the board.
    pub size: int,
}

/// `points` lists the occupied cells of `g` by key, with what each holds,
/// in the order in which the cells were first occupied.
pub open spec fn point_key_list(g: Grid, points: Seq<(String, Option<Player>)>) -> bool {
    &&& g.cell_order().no_duplicates()
    &&& g.cell_order().to_set() == g@.cells.dom()
    &&& points.len() == g.cell_order().len()
    &&& forall|i: int|
        0 <= i < points.len() ==> #[trigger] points[i].0@ == point_key(g.cell_order()[i])
            && points[i].1 == g@.cells[g.cell_order()[i]]
}

/// What a placement reports, as the contracts speak of it.
pub struct PlaceStoneModel {
    pub closed_loop: Seq<Point>,
    pub enclosed_points: int,
    pub is_closer: bool,
}

/// The map that an association list of cells describes (a later entry wins).
pub open spec fn cell_map(s: Seq<(Point, Option<Player>)>) -> Map<Point, Option<Player>>
    decreases s.len(),
{
    if s.len() == 0 {
        Map::empty()
    } else {
        cell_map(s.drop_last()).insert(s.last().0, s.last().1)
    }
}

/// No point occurs twice as a key of the list.
pub open spec fn cell_keys_distinct(s: Seq<(Point, Option<Player>)>) -> bool {
    forall|i: int, j: int| 0 <= i < j < s.len() ==> s[i].0 != s[j].0
}

/// No polygon occurs twice as a key of the list.
pub open spec fn loop_keys_distinct(s: Seq<(Seq<Point>, Player)>) -> bool {
    forall|i: int, j: int| 0 <= i < j < s.len() ==> s[i].0 != s[j].0
}

/// The stone on `p`, if any: `None` for an empty or neutralised cell.
pub open spec fn player_at(g: GridModel, p: Point) -> Option<Player> {
    if g.cells.contains_key(p) {
        g.cells[p]
    } else {
        None
    }
}

/// Index of the entry of `l` whose polygon is `poly`, or `l.len()`.
pub open spec fn loop_index(l: Seq<(Seq<Point>, Player)>, poly: Seq<Point>, i: int) -> int
    decreases l.len() - i,
{
    if i >= l.len() || i < 0 {
        l.len() as int
    } else if l[i].0 == poly {
        i
    } else {
        loop_index(l, poly, i + 1)
    }
}

/// The polygons after `poly` is recorded for `owner` (a polygon that is
/// there already changes owner and keeps its place).
pub open spec fn loops_insert(
    l: Seq<(Seq<Point>, Player)>,
    poly: Seq<Point>,
    owner: Player,
) -> Seq<(Seq<Point>, Player)> {
    let i = loop_index(l, poly, 0);
    if i < l.len() {
        l.update(i, (poly, owner))
    } else {
        l.push((poly, owner))
    }
}

// ---------------------------------------------------------------------------
// Neighbourhoods
// ---------------------------------------------------------------------------

/// The eight directions, turning clockwise from east (with `y` growing downwards).
pub open spec fn dir8(i: int) -> (int, int) {
    if i == 0 {
        (1, 0)
    } else if i == 1 {
        (1, 1)
    } else if i == 2 {
        (0, 1)
    } else if i == 3 {
        (-1, 1)
    } else if i == 4 {
        (-1, 0)
    } else if i == 5 {
        (-1, -1)
    } else if i == 6 {
        (0, -1)
    } else {
        (1, -1)
    }
}

/// The four axis directions.
pub open spec fn dir4(i: int) -> (int, int) {
    if i == 0 {
        (1, 0)
    } else if i == 1 {
        (0, 1)
    } else if i == 2 {
        (-1, 0)
    } else {
        (0, -1)
    }
}

pub open spec fn in_i32(v: int) -> bool {
    i32::MIN <= v <= i32::MAX
}

/// `p` moved by `(dx, dy)`, when the result is a point.
pub open spec fn shift(p: Point, d: (int, int)) -> Option<Point> {
    if in_i32(p.x + d.0) && in_i32(p.y + d.1) {
        Some(Point { x: (p.x + d.0) as i32, y: (p.y + d.1) as i32 })
    } else {
        None
    }
}

pub open spec fn in_bounds(p: Point, size: int) -> bool {
    0 <= p.x < size && 0 <= p.y < size
}

/// Two distinct points that touch by a side or a corner.
pub open spec fn adjacent8(a: Point, b: Point) -> bool {
    &&& a != b
    &&& -1 <= b.x - a.x <= 1
    &&& -1 <= b.y - a.y <= 1
}

// ---------------------------------------------------------------------------
// Groups of stones
// ---------------------------------------------------------------------------

/// A stone of `player` that is not captured.
pub open spec fn live_stone(g: GridModel, player: Player, q: Point) -> bool {
    player_at(g, q) == Some(player) && !g.disabled.contains(q)
}

/// A chain of live stones of `player`, each after the first on the board
/// and touching the one before it.
pub open spec fn is_chain(g: GridModel, player: Player, path: Seq<Point>) -> bool {
    &&& path.len() > 0
    &&& forall|i: int| 0 <= i < path.len() ==> live_stone(g, player, #[trigger] path[i])
    &&& forall|i: int|
        0 < i < path.len() ==> in_bounds(#[trigger] path[i], g.size) && adjacent8(path[i - 1], path[i])
}

/// The group of `start`: the live stones of `player` that a chain from `start` reaches.
pub open spec fn group_of(g: GridModel, start: Point, player: Player) -> Set<Point> {
    Set::new(
        |q: Point|
            exists|path: Seq<Point>|
                #[trigger] is_chain(g, player, path) && path[0] == start && path.last() == q,
    )
}

/// A chain walked backwards is a chain, when its first stone is on the board.
proof fn lemma_chain_reverse(g: GridModel, player: Player, path: Seq<Point>)
    requires
        is_chain(g, player, path),
        in_bounds(path[0], g.size),
    ensures
        is_chain(g, player, Seq::new(path.len(), |i: int| path[path.len() - 1 - i])),
        Seq::new(path.len(), |i: int| path[path.len() - 1 - i])[0] == path.last(),
        Seq::new(path.len(), |i: int| path[path.len() - 1 - i]).last() == path[0],
{
    let n = path.len() as int;
    let rev = Seq::new(path.len(), |i: int| path[path.len() - 1 - i]);
    assert forall|i: int| 0 <= i < n implies live_stone(g, player, #[trigger] rev[i]) by {
        assert(rev[i] == path[n - 1 - i]);
    }
    assert forall|i: int| 0 < i < n implies in_bounds(#[trigger] rev[i], g.size) && adjacent8(
        rev[i - 1],
        rev[i],
    ) by {
        assert(rev[i] == path[n - 1 - i]);
        assert(rev[i - 1] == path[n - i]);
        assert(adjacent8(path[n - i - 1], path[n - i]));
        if n - 1 - i > 0 {
            assert(in_bounds(path[n - 1 - i], g.size));
        }
    }
}

/// A chain that ends where another begins, followed by the rest of the other, is a chain.
#[verifier::spinoff_prover]
#[verifier::rlimit(30)]
proof fn lemma_chain_concat(g: GridModel, player: Player, a: Seq<Point>, b: Seq<Point>)
    requires
        is_chain(g, player, a),
        is_chain(g, player, b),
        a.last() == b[0],
    ensures
        is_chain(g, player, a + b.subrange(1, b.len() as int)),
        (a + b.subrange(1, b.len() as int))[0] == a[0],
        (a + b.subrange(1, b.len() as int)).last() == b.last(),
{
    let c = a + b.subrange(1, b.len() as int);
    let na = a.len() as int;
    assert forall|i: int| 0 <= i < c.len() implies live_stone(g, player, #[trigger] c[i]) by {
        if i >= na {
            assert(c[i] == b[i - na + 1]);
        }
    }
    assert forall|i: int| 0 < i < c.len() implies in_bounds(#[trigger] c[i], g.size) && adjacent8(
        c[i - 1],
        c[i],
    ) by {
        if i < na {
            assert(c[i] == a[i] && c[i - 1] == a[i - 1]);
        } else {
            assert(c[i] == b[i - na + 1]);
            if i == na {
                assert(c[i - 1] == a.last());
            } else {
                assert(c[i - 1] == b[i - na]);
            }
        }
    }
    if b.len() == 1 {
        assert(c =~= a);
    }
}

/// A group is the group of any of its stones: whichever member of a group
/// the search starts from, it finds the same group.
pub proof fn lemma_group_of_member(g: GridModel, start: Point, q: Point, player: Player)
    requires
        in_bounds(start, g.size),
        group_of(g, start, player).contains(q),
    ensures
        group_of(g, q, player) == group_of(g, start, player),
{
    let p = choose|path: Seq<Point>|
        #[trigger] is_chain(g, player, path) && path[0] == start && path.last() == q;
    lemma_chain_reverse(g, player, p);
    let rp = Seq::new(p.len(), |i: int| p[p.len() - 1 - i]);
    assert forall|x: Point| group_of(g, start, player).contains(x) implies group_of(
        g,
        q,
        player,
    ).contains(x) by {
        let a = choose|path: Seq<Point>|
            #[trigger] is_chain(g, player, path) && path[0] == start && path.last() == x;
        lemma_chain_concat(g, player, rp, a);
        let c = rp + a.subrange(1, a.len() as int);
        assert(is_chain(g, player, c) && c[0] == q && c.last() == x);
    }
    assert forall|x: Point| group_of(g, q, player).contains(x) implies group_of(
        g,
        start,
        player,
    ).contains(x) by {
        let b = choose|path: Seq<Point>|
            #[trigger] is_chain(g, player, path) && path[0] == q && path.last() == x;
        lemma_chain_concat(g, player, p, b);
        let c = p + b.subrange(1, b.len() as int);
        assert(is_chain(g, player, c) && c[0] == start && c.last() == x);
    }
    assert(group_of(g, q, player) =~= group_of(g, start, player));
}

/// The index in `0 .. 8` of the direction that leads from `p` to `q`
/// (see `dir8`), or `8` when `q` does not touch `p`.
pub open spec fn dir_index(p: Point, q: Point) -> int {
    let dx = q.x - p.x;
    let dy = q.y - p.y;
    if dx == 1 && dy == 0 {
        0
    } else if dx == 1 && dy == 1 {
        1
    } else if dx == 0 && dy == 1 {
        2
    } else if dx == -1 && dy == 1 {
        3
    } else if dx == -1 && dy == 0 {
        4
    } else if dx == -1 && dy == -1 {
        5
    } else if dx == 0 && dy == -1 {
        6
    } else if dx == 1 && dy == -1 {
        7
    } else {
        8
    }
}

/// The first index of `r`, from `j` on, of a point that touches `q`, or `r.len()`.
pub open spec fn first_touching(r: Seq<Point>, q: Point, j: int) -> int
    decreases r.len() - j,
{
    if j < 0 || j >= r.len() {
        r.len() as int
    } else if adjacent8(r[j], q) {
        j
    } else {
        first_touching(r, q, j + 1)
    }
}

/// `r` lists points in breadth-first order from `r[0]`: each later point
/// touches an earlier one, and the points come in the order of the first
/// earlier point that they touch, then of the direction (see `dir8`) that
/// leads to them from it.
pub open spec fn bfs_ordered(r: Seq<Point>) -> bool {
    &&& forall|k: int| 0 < k < r.len() ==> #[trigger] first_touching(r, r[k], 0) < k
    &&& forall|a: int, b: int|
        0 < a < b < r.len() ==> {
            let pa = #[trigger] first_touching(r, r[a], 0);
            let pb = #[trigger] first_touching(r, r[b], 0);
            pa < pb || (pa == pb && dir_index(r[pa], r[a]) < dir_index(r[pb], r[b]))
        }
}

/// A source of a queued point: the index of the stone it was met from, then
/// the direction; `a` was queued before `b`.
pub open spec fn src_before(a: (int, int), b: (int, int)) -> bool {
    a.0 < b.0 || (a.0 == b.0 && a.1 < b.1)
}

/// What the breadth-first search of `find_connected_stones` knows of the
/// order of its queue and of the stones it has found: `qsrc[k]` says from
/// which found stone, and in which direction, `queue[k]` was queued, and
/// `pos[k]` where in the queue the found stone `connected[k]` was taken.
#[verifier::opaque]
spec fn bfs_inv(
    g: GridModel,
    queue: Seq<Point>,
    qsrc: Seq<(int, int)>,
    connected: Seq<Point>,
    pos: Seq<int>,
    visited: Seq<Point>,
    head: int,
) -> bool {
    &&& 0 <= head <= queue.len()
    &&& qsrc.len() == queue.len()
    &&& forall|k: int|
        1 <= k < queue.len() ==> 0 <= (#[trigger] qsrc[k]).0 < connected.len() && 0 <= qsrc[k].1 < 8
            && shift(connected[qsrc[k].0], dir8(qsrc[k].1)) == Some(queue[k])
    &&& forall|k1: int, k2: int|
        1 <= k1 < k2 < queue.len() ==> src_before(#[trigger] qsrc[k1], #[trigger] qsrc[k2])
    &&& pos.len() == connected.len()
    &&& forall|k: int|
        1 <= k < connected.len() ==> 1 <= #[trigger] pos[k] < head && queue[pos[k]] == connected[k]
            && qsrc[pos[k]].0 < k
    &&& forall|k: int, j: int|
        1 <= k < connected.len() && 0 <= j < qsrc[pos[k]].0 ==> !adjacent8(
            #[trigger] connected[j],
            #[trigger] connected[k],
        )
    &&& forall|a: int, b: int| 1 <= a < b < connected.len() ==> #[trigger] pos[a] < #[trigger] pos[b]
    &&& forall|c: int, d: int|
        0 <= c < connected.len() && 0 <= d < 8 && #[trigger] shift(connected[c], dir8(d)) is Some
            && in_bounds(shift(connected[c], dir8(d))->0, g.size) ==> visited.contains(
            shift(connected[c], dir8(d))->0,
        ) || exists|k: int| 1 <= k < queue.len() && #[trigger] qsrc[k] == (c, d)
    &&& forall|k: int|
        0 <= k < head ==> visited.contains(#[trigger] queue[k]) || g.disabled.contains(queue[k])
}

proof fn lemma_bfs_start(g: GridModel, start: Point)
    ensures
        bfs_inv(g, seq![start], seq![(-1int, -1int)], seq![], seq![], seq![], 0),
{
    reveal(bfs_inv);
}

/// Taking from the queue a point that is not found: the order facts still hold.
proof fn lemma_bfs_skip(
    g: GridModel,
    queue: Seq<Point>,
    qsrc: Seq<(int, int)>,
    connected: Seq<Point>,
    pos: Seq<int>,
    old_visited: Seq<Point>,
    visited: Seq<Point>,
    head: int,
)
    requires
        bfs_inv(g, queue, qsrc, connected, pos, old_visited, head),
        0 <= head < queue.len(),
        visited == old_visited || visited == old_visited.push(queue[head]),
        visited.contains(queue[head]) || g.disabled.contains(queue[head]),
    ensures
        bfs_inv(g, queue, qsrc, connected, pos, visited, head + 1),
{
    reveal(bfs_inv);
    assert forall|q: Point| old_visited.contains(q) implies visited.contains(q) by {
        if visited != old_visited {
            let i = choose|i: int| 0 <= i < old_visited.len() && old_visited[i] == q;
            assert(visited[i] == q);
        }
    }
}

/// Taking from the queue the stone `current`, which joins the found stones
/// and queues its neighbours: the order facts still hold.
proof fn lemma_bfs_take(
    g: GridModel,
    start: Point,
    old_queue: Seq<Point>,
    queue: Seq<Point>,
    old_qsrc: Seq<(int, int)>,
    qsrc: Seq<(int, int)>,
    old_connected: Seq<Point>,
    current: Point,
    old_pos: Seq<int>,
    old_visited: Seq<Point>,
    head: int,
)
    requires
        bfs_inv(g, old_queue, old_qsrc, old_connected, old_pos, old_visited, head),
        0 <= head < old_queue.len(),
        current == old_queue[head],
        !old_visited.contains(current),
        !g.disabled.contains(current),
        old_connected.len() > 0 ==> head >= 1 && in_bounds(current, g.size),
        queue.len() >= old_queue.len(),
        queue.subrange(0, old_queue.len() as int) == old_queue,
        qsrc.len() == queue.len(),
        qsrc.subrange(0, old_queue.len() as int) == old_qsrc,
        forall|k: int|
            old_queue.len() <= k < queue.len() ==> (#[trigger] qsrc[k]).0 == old_connected.len() && 0
                <= qsrc[k].1 < 8 && shift(current, dir8(qsrc[k].1)) == Some(queue[k]),
        forall|k1: int, k2: int|
            old_queue.len() <= k1 < k2 < queue.len() ==> (#[trigger] qsrc[k1]).1 < (#[trigger] qsrc[k2]).1,
        forall|e: int|
            0 <= e < 8 && #[trigger] shift(current, dir8(e)) is Some && in_bounds(
                shift(current, dir8(e))->0,
                g.size,
            ) ==> old_visited.push(current).contains(shift(current, dir8(e))->0) || exists|k: int|
                old_queue.len() <= k < queue.len() && qsrc[k] == (old_connected.len() as int, e),
    ensures
        bfs_inv(
            g,
            queue,
            qsrc,
            old_connected.push(current),
            old_pos.push(head),
            old_visited.push(current),
            head + 1,
        ),
{
    reveal(bfs_inv);
    let connected = old_connected.push(current);
    let pos = old_pos.push(head);
    let visited = old_visited.push(current);
    let n0 = old_queue.len() as int;
    let c = old_connected.len() as int;
    assert forall|k: int| 0 <= k < n0 implies #[trigger] queue[k] == old_queue[k] && qsrc[k] == old_qsrc[k] by {
        assert(queue.subrange(0, n0)[k] == queue[k]);
        assert(qsrc.subrange(0, n0)[k] == qsrc[k]);
    }
    assert forall|q: Point| old_visited.contains(q) implies visited.contains(q) by {
        let i = choose|i: int| 0 <= i < old_visited.len() && old_visited[i] == q;
        assert(visited[i] == q);
    }
    assert(visited[visited.len() - 1] == current);
    assert forall|k: int|
        1 <= k < queue.len() implies 0 <= (#[trigger] qsrc[k]).0 < connected.len() && 0 <= qsrc[k].1 < 8
            && shift(connected[qsrc[k].0], dir8(qsrc[k].1)) == Some(queue[k]) by {
        if k < n0 {
            assert(qsrc[k] == old_qsrc[k]);
        }
    }
    assert forall|k1: int, k2: int|
        1 <= k1 < k2 < queue.len() implies src_before(#[trigger] qsrc[k1], #[trigger] qsrc[k2]) by {
        if k2 < n0 {
            assert(qsrc[k1] == old_qsrc[k1] && qsrc[k2] == old_qsrc[k2]);
        } else if k1 < n0 {
            assert(qsrc[k1] == old_qsrc[k1]);
        }
    }
    if c >= 1 {
        assert forall|j: int| 0 <= j < qsrc[head].0 implies !adjacent8(
            #[trigger] connected[j],
            #[trigger] connected[c],
        ) by {
            assert(qsrc[head] == old_qsrc[head]);
            if adjacent8(connected[j], current) {
                assert(connected[j] == old_connected[j]);
                let dd = lemma_adjacent_shift(old_connected[j], current);
                assert(shift(old_connected[j], dir8(dd)) is Some);
                let k = choose|k: int| 1 <= k < n0 && #[trigger] old_qsrc[k] == (j, dd);
                assert(old_queue[k] == current);
                assert(src_before(old_qsrc[k], old_qsrc[head]));
                if k > head {
                    assert(src_before(old_qsrc[head], old_qsrc[k]));
                }
                assert(old_visited.contains(old_queue[k]) || g.disabled.contains(old_queue[k]));
            }
        }
    }
    assert forall|k: int|
        1 <= k < connected.len() implies 1 <= #[trigger] pos[k] < head + 1 && queue[pos[k]] == connected[k]
            && qsrc[pos[k]].0 < k by {
        if k < c {
            assert(pos[k] == old_pos[k] && connected[k] == old_connected[k]);
        } else {
            assert(pos[k] == head);
            assert(qsrc[head] == old_qsrc[head]);
        }
    }
    assert forall|k: int, j: int|
        1 <= k < connected.len() && 0 <= j < qsrc[pos[k]].0 implies !adjacent8(
            #[trigger] connected[j],
            #[trigger] connected[k],
        ) by {
        if k < c {
            assert(pos[k] == old_pos[k] && connected[k] == old_connected[k]);
            assert(qsrc[pos[k]] == old_qsrc[old_pos[k]]);
            assert(connected[j] == old_connected[j]);
        } else {
            assert(pos[k] == head);
        }
    }
    assert forall|a: int, b: int| 1 <= a < b < connected.len() implies #[trigger] pos[a] < #[trigger] pos[b] by {
        if b < c {
            assert(pos[a] == old_pos[a] && pos[b] == old_pos[b]);
        } else {
            assert(pos[a] == old_pos[a]);
        }
    }
    assert forall|cc: int, d: int|
        0 <= cc < connected.len() && 0 <= d < 8 && #[trigger] shift(connected[cc], dir8(d)) is Some
            && in_bounds(shift(connected[cc], dir8(d))->0, g.size) implies visited.contains(
        shift(connected[cc], dir8(d))->0,
    ) || exists|k: int| 1 <= k < queue.len() && #[trigger] qsrc[k] == (cc, d) by {
        if cc < c {
            assert(connected[cc] == old_connected[cc]);
            let nb = shift(connected[cc], dir8(d))->0;
            if !old_visited.contains(nb) {
                let k = choose|k: int| 1 <= k < n0 && #[trigger] old_qsrc[k] == (cc, d);
                assert(qsrc[k] == old_qsrc[k]);
            }
        } else {
            assert(connected[cc] == current);
            if !visited.contains(shift(current, dir8(d))->0) {
                let k = choose|k: int| n0 <= k < queue.len() && qsrc[k] == (c, d);
                assert(k >= 1);
            }
        }
    }
    assert forall|k: int|
        0 <= k < head + 1 implies visited.contains(#[trigger] queue[k]) || g.disabled.contains(queue[k]) by {
        if k < head {
            assert(queue[k] == old_queue[k]);
        } else {
            assert(queue[k] == current);
        }
    }
}

/// At the end of the search, the found stones are in breadth-first order.
proof fn lemma_bfs_final(
    g: GridModel,
    queue: Seq<Point>,
    qsrc: Seq<(int, int)>,
    connected: Seq<Point>,
    pos: Seq<int>,
    visited: Seq<Point>,
    head: int,
)
    requires
        bfs_inv(g, queue, qsrc, connected, pos, visited, head),
    ensures
        bfs_ordered(connected),
{
    reveal(bfs_inv);
    assert forall|k: int| 1 <= k < connected.len() implies #[trigger] first_touching(connected, connected[k], 0)
        == qsrc[pos[k]].0 && dir_index(connected[qsrc[pos[k]].0], connected[k]) == qsrc[pos[k]].1 by {
        let src = qsrc[pos[k]];
        assert(1 <= pos[k] < queue.len());
        lemma_shift_adjacent(connected[src.0], src.1);
        lemma_dir_index(connected[src.0], src.1);
        assert forall|i: int| 0 <= i < src.0 implies !adjacent8(#[trigger] connected[i], connected[k]) by {}
        lemma_first_touching(connected, connected[k], src.0, 0);
    }
    assert forall|a: int, b: int| 0 < a < b < connected.len() implies {
        let pa = #[trigger] first_touching(connected, connected[a], 0);
        let pb = #[trigger] first_touching(connected, connected[b], 0);
        pa < pb || (pa == pb && dir_index(connected[pa], connected[a]) < dir_index(
            connected[pb],
            connected[b],
        ))
    } by {
        assert(first_touching(connected, connected[a], 0) == qsrc[pos[a]].0);
        assert(first_touching(connected, connected[b], 0) == qsrc[pos[b]].0);
        assert(pos[a] < pos[b]);
        assert(1 <= pos[a] && pos[b] < queue.len());
        assert(src_before(qsrc[pos[a]], qsrc[pos[b]]));
    }
    assert forall|k: int| 0 < k < connected.len() implies #[trigger] first_touching(
        connected,
        connected[k],
        0,
    ) < k by {
        assert(first_touching(connected, connected[k], 0) == qsrc[pos[k]].0);
    }
}

proof fn lemma_first_touching(r: Seq<Point>, q: Point, c: int, j: int)
    requires
        0 <= j <= c < r.len(),
        adjacent8(r[c], q),
        forall|i: int| 0 <= i < c ==> !adjacent8(#[trigger] r[i], q),
    ensures
        first_touching(r, q, j) == c,
    decreases c - j,
{
    if j < c {
        lemma_first_touching(r, q, c, j + 1);
    }
}

proof fn lemma_dir_index(p: Point, d: int)
    requires
        0 <= d < 8,
        shift(p, dir8(d)) is Some,
    ensures
        dir_index(p, shift(p, dir8(d))->0) == d,
{
}

// ---------------------------------------------------------------------------
// Closed loops and their outline
// ---------------------------------------------------------------------------

/// Number of the directions `dir8(0) .. dir8(k - 1)` in which `p` has a neighbour in `s`.
pub open spec fn count_neighbours(s: Set<Point>, p: Point, k: int) -> nat
    decreases k,
{
    if k <= 0 {
        0
    } else {
        count_neighbours(s, p, k - 1) + if shift(p, dir8(k - 1)) matches Some(q) && s.contains(q) {
            1nat
        } else {
            0nat
        }
    }
}

/// Number of the eight neighbours of `p` that lie in `s`.
pub open spec fn neighbour_count(s: Set<Point>, p: Point) -> nat {
    count_neighbours(s, p, 8)
}

/// One round of pruning: drop every point of `s` that has exactly one neighbour in `s`.
pub open spec fn prune_step(s: Set<Point>) -> Set<Point> {
    s.filter(|p: Point| neighbour_count(s, p) != 1)
}

pub proof fn lemma_prune_step_shrinks(s: Set<Point>)
    requires
        s.finite(),
        prune_step(s) != s,
    ensures
        prune_step(s).finite(),
        prune_step(s).len() < s.len(),
{
    let t = prune_step(s);
    assert(t.subset_of(s));
    if forall|p: Point| s.contains(p) ==> t.contains(p) {
        assert(t =~= s);
    }
    let a = choose|p: Point| s.contains(p) && !t.contains(p);
    assert(t.subset_of(s.remove(a)));
    vstd::set_lib::lemma_len_subset(t, s.remove(a));
}

/// Pruning repeated until nothing changes: what remains of `s` once every
/// dangling branch has been cut away.
pub open spec fn pruned(s: Set<Point>) -> Set<Point>
    decreases s.len(),
    when s.finite()
{
    if prune_step(s) == s {
        s
    } else {
        proof {
            lemma_prune_step_shrinks(s);
        }
        pruned(prune_step(s))
    }
}

/// `p` comes no later than `q` in the order by row, then by column.
pub open spec fn before_eq(p: Point, q: Point) -> bool {
    p.y < q.y || (p.y == q.y && p.x <= q.x)
}

/// The first point of `s` by row, then by column.
pub open spec fn lowest(s: Set<Point>) -> Point {
    choose|p: Point| s.contains(p) && forall|q: Point| s.contains(q) ==> #[trigger] before_eq(p, q)
}

/// The first direction, turning clockwise from `dir + k`, in which `cur` has a
/// neighbour in `s`: that neighbour, and the direction two steps back from
/// the move (where the next search starts).
pub open spec fn next_from(s: Set<Point>, cur: Point, dir: int, k: int) -> Option<(Point, int)>
    decreases 8 - k,
{
    if k >= 8 || k < 0 {
        None
    } else {
        let idx = (dir + k) % 8;
        match shift(cur, dir8(idx)) {
            Some(n) => if s.contains(n) {
                Some((n, (idx + 6) % 8))
            } else {
                next_from(s, cur, dir, k + 1)
            },
            None => next_from(s, cur, dir, k + 1),
        }
    }
}

/// The walk along the outline of `s` from `cur` (looking first in direction
/// `dir`): it goes on until it finds no neighbour or comes back to `start`,
/// and visits at most `fuel` points.
pub open spec fn trace(s: Set<Point>, start: Point, cur: Point, dir: int, first: bool, fuel: nat) -> Seq<
    Point,
>
    decreases fuel,
{
    if fuel == 0 {
        seq![]
    } else {
        seq![cur] + match next_from(s, cur, dir, 0) {
            None => seq![],
            Some(m) => if !first && m.0 == start {
                seq![]
            } else {
                trace(s, start, m.0, m.1, false, (fuel - 1) as nat)
            },
        }
    }
}

/// The outline of `s` as a walk: from its first point by row and column,
/// following neighbours clockwise until the walk is back at the start
/// (bounded by the number of position and direction pairs).
pub open spec fn trace_polygon(s: Set<Point>) -> Seq<Point> {
    if s.len() == 0 {
        seq![]
    } else {
        let start = lowest(s);
        trace(s, start, start, 0, true, (8 * s.len()) as nat)
    }
}

/// The state of the outline walk of `s` from `start` after `k` moves: the
/// point reached and the direction where its search starts, or `None` once
/// the walk has stopped (no neighbour, or back at `start`).
pub open spec fn walk(s: Set<Point>, start: Point, k: nat) -> Option<(Point, int)>
    decreases k,
{
    if k == 0 {
        Some((start, 0int))
    } else {
        match walk(s, start, (k - 1) as nat) {
            None => None,
            Some(st) => match next_from(s, st.0, st.1, 0) {
                None => None,
                Some(m) => if k > 1 && m.0 == start {
                    None
                } else {
                    Some(m)
                },
            },
        }
    }
}

/// A neighbour that `next_from` finds lies in `s`, differs from the point it
/// is found from, and comes with a direction in `0 .. 8`.
proof fn lemma_next_from_facts(s: Set<Point>, cur: Point, dir: int, k: int)
    ensures
        next_from(s, cur, dir, k) matches Some(m) ==> s.contains(m.0) && m.0 != cur && 0 <= m.1 < 8,
    decreases 8 - k,
{
    if 0 <= k < 8 {
        lemma_next_from_facts(s, cur, dir, k + 1);
    }
}

/// A walk that is still going after `j` moves was going after each earlier move.
proof fn lemma_walk_monotone(s: Set<Point>, start: Point, i: nat, j: nat)
    requires
        i <= j,
        walk(s, start, j) is Some,
    ensures
        walk(s, start, i) is Some,
    decreases j - i,
{
    if i < j {
        lemma_walk_monotone(s, start, i, (j - 1) as nat);
    }
}

/// After at least one move, the walk is on a point of `s` other than `start`,
/// with a direction in `0 .. 8`.
proof fn lemma_walk_state(s: Set<Point>, start: Point, k: nat)
    requires
        k >= 1,
        walk(s, start, k) is Some,
    ensures
        ({
            let st = walk(s, start, k)->0;
            s.contains(st.0) && st.0 != start && 0 <= st.1 < 8
        }),
{
    let st = walk(s, start, (k - 1) as nat)->0;
    lemma_next_from_facts(s, st.0, st.1, 0);
}

/// The walk traced from its state after `k` moves fills `f` points exactly
/// when it is still going after `k + f - 1` moves.
proof fn lemma_trace_walk(s: Set<Point>, start: Point, k: nat, c: Point, d: int, f: nat)
    requires
        walk(s, start, k) == Some((c, d)),
    ensures
        trace(s, start, c, d, k == 0, f).len() == f <==> (f == 0 || walk(s, start, (k + f - 1) as nat) is Some),
    decreases f,
{
    if f > 0 {
        lemma_trace_len(s, start, c, d, k == 0, f);
        match next_from(s, c, d, 0) {
            None => {
                assert(walk(s, start, k + 1) is None);
                if f > 1 && walk(s, start, (k + f - 1) as nat) is Some {
                    lemma_walk_monotone(s, start, k + 1, (k + f - 1) as nat);
                }
            },
            Some(m) => {
                if k != 0 && m.0 == start {
                    assert(walk(s, start, k + 1) is None);
                    if f > 1 && walk(s, start, (k + f - 1) as nat) is Some {
                        lemma_walk_monotone(s, start, k + 1, (k + f - 1) as nat);
                    }
                } else {
                    assert(walk(s, start, k + 1) == Some(m));
                    lemma_trace_walk(s, start, k + 1, m.0, m.1, (f - 1) as nat);
                }
            },
        }
    }
}

/// Once the walk is in a state it was in before, it repeats itself.
proof fn lemma_walk_periodic(s: Set<Point>, start: Point, i: nat, j: nat, t: nat)
    requires
        1 <= i < j,
        walk(s, start, i) == walk(s, start, j),
    ensures
        walk(s, start, i + t) == walk(s, start, j + t),
    decreases t,
{
    if t > 0 {
        lemma_walk_periodic(s, start, i, j, (t - 1) as nat);
        assert(walk(s, start, i + t) == walk(s, start, j + t));
    }
}

/// A walk that comes back to a state it was in goes on for ever.
proof fn lemma_walk_endless(s: Set<Point>, start: Point, i: nat, j: nat, k: nat)
    requires
        1 <= i < j,
        walk(s, start, i) == walk(s, start, j),
        walk(s, start, j) is Some,
    ensures
        walk(s, start, k) is Some,
    decreases k,
{
    if k <= j {
        lemma_walk_monotone(s, start, k, j);
    } else {
        lemma_walk_periodic(s, start, i, j, (k - j) as nat);
        lemma_walk_endless(s, start, i, j, (k - (j - i)) as nat);
    }
}

/// The pairs of a point of `r` and a direction below `k`.
spec fn dir_states(r: Set<Point>, k: int) -> Set<(Point, int)>
    decreases k,
{
    if k <= 0 {
        Set::empty()
    } else {
        dir_states(r, k - 1).union(r.map(|p: Point| (p, k - 1)))
    }
}

proof fn lemma_dir_states(r: Set<Point>, k: int)
    requires
        r.finite(),
        k >= 0,
    ensures
        dir_states(r, k).finite(),
        dir_states(r, k).len() <= k * r.len(),
        forall|p: Point, d: int| r.contains(p) && 0 <= d < k ==> #[trigger] dir_states(r, k).contains((p, d)),
    decreases k,
{
    if k > 0 {
        lemma_dir_states(r, k - 1);
        let f = |p: Point| (p, k - 1);
        r.lemma_map_finite(f);
        vstd::set_lib::lemma_map_size_bound(r, r.map(f), f);
        vstd::set_lib::lemma_len_union(dir_states(r, k - 1), r.map(f));
        let n = r.len() as int;
        assert((k - 1) * n + n == k * n) by (nonlinear_arith);
        assert forall|p: Point, d: int| r.contains(p) && 0 <= d < k implies #[trigger] dir_states(
            r,
            k,
        ).contains((p, d)) by {
            if d == k - 1 {
                assert(f(p) == (p, d));
            } else {
                assert(dir_states(r, k - 1).contains((p, d)));
            }
        }
    }
}

/// If the outline walk of `s` from a point of `s` is still going after
/// `8 * |s|` moves, it never stops: walking at most `8 * |s|` points, as
/// `trace_polygon` does, cuts only walks that never come back.
pub proof fn lemma_trace_cut_only_endless(s: Set<Point>, start: Point, fuel: nat)
    requires
        s.finite(),
        s.contains(start),
        trace(s, start, start, 0, true, (8 * s.len() + 1) as nat).len() > 8 * s.len(),
    ensures
        trace(s, start, start, 0, true, fuel).len() == fuel,
{
    let n = (8 * s.len()) as nat;
    lemma_trace_len(s, start, start, 0, true, n + 1);
    lemma_trace_walk(s, start, 0, start, 0, n + 1);
    assert(walk(s, start, n) is Some);
    let st = Seq::new(n, |a: int| walk(s, start, (a + 1) as nat)->0);
    let r = s.remove(start);
    lemma_dir_states(r, 8);
    if st.no_duplicates() {
        assert forall|x: (Point, int)| st.to_set().contains(x) implies dir_states(r, 8).contains(x) by {
            let a = choose|a: int| 0 <= a < n && st[a] == x;
            lemma_walk_monotone(s, start, (a + 1) as nat, n);
            lemma_walk_state(s, start, (a + 1) as nat);
            assert(r.contains(x.0));
        }
        st.unique_seq_to_set();
        vstd::set_lib::lemma_len_subset(st.to_set(), dir_states(r, 8));
        assert(false);
    }
    let (a, b) = choose|a: int, b: int| 0 <= a < n && 0 <= b < n && a != b && st[a] == st[b];
    let (i, j) = if a < b {
        ((a + 1) as nat, (b + 1) as nat)
    } else {
        ((b + 1) as nat, (a + 1) as nat)
    };
    lemma_walk_monotone(s, start, i, n);
    lemma_walk_monotone(s, start, j, n);
    assert(walk(s, start, i) == walk(s, start, j));
    if fuel > 0 {
        lemma_walk_endless(s, start, i, j, (fuel - 1) as nat);
    }
    lemma_trace_walk(s, start, 0, start, 0, fuel);
}

/// The closed loop within a group of stones: the group pruned of its dangling
/// branches, traced as a polygon when at least four stones remain.
pub open spec fn closed_loop(s: Set<Point>) -> Seq<Point> {
    let p = pruned(s);
    if p.len() >= 4 {
        trace_polygon(p)
    } else {
        seq![]
    }
}

/// How many entries of `s` lie in `t` (a point listed twice counts twice).
pub open spec fn count_in(s: Seq<Point>, t: Set<Point>) -> nat
    decreases s.len(),
{
    if s.len() == 0 {
        0
    } else {
        count_in(s.drop_last(), t) + if t.contains(s.last()) {
            1nat
        } else {
            0nat
        }
    }
}

/// The closed loop within a list of stones: the listed points pruned of
/// their dangling branches (every entry of a pruned point goes), traced as a
/// polygon when at least four entries remain.
pub open spec fn closed_loop_of(points: Seq<Point>) -> Seq<Point> {
    let p = pruned(points.to_set());
    if count_in(points, p) >= 4 {
        trace_polygon(p)
    } else {
        seq![]
    }
}

/// Pruning keeps only points of the set it starts from.
proof fn lemma_pruned_subset(s: Set<Point>)
    requires
        s.finite(),
    ensures
        pruned(s).subset_of(s),
    decreases s.len(),
{
    if prune_step(s) != s {
        lemma_prune_step_shrinks(s);
        lemma_pruned_subset(prune_step(s));
    }
}

/// For a list without repeated points, the entries that lie in `t` are as
/// many as the listed points that lie in `t`.
proof fn lemma_count_in_distinct(s: Seq<Point>, t: Set<Point>)
    requires
        s.no_duplicates(),
    ensures
        count_in(s, t) == s.to_set().intersect(t).len(),
    decreases s.len(),
{
    if s.len() == 0 {
        assert(s.to_set().intersect(t) =~= Set::<Point>::empty());
    } else {
        let d = s.drop_last();
        let x = s.last();
        assert(d.no_duplicates()) by {
            assert forall|i: int, j: int| 0 <= i < d.len() && 0 <= j < d.len() && i != j implies d[i]
                != d[j] by {
                assert(d[i] == s[i] && d[j] == s[j]);
            }
        }
        lemma_count_in_distinct(d, t);
        assert(!d.to_set().contains(x)) by {
            if d.contains(x) {
                let k = choose|k: int| 0 <= k < d.len() && d[k] == x;
                assert(s[k] == s[s.len() - 1]);
            }
        }
        assert(s =~= d.push(x));
        let a = d.to_set().intersect(t);
        assert(a.finite());
        if t.contains(x) {
            assert(s.to_set().intersect(t) =~= a.insert(x));
        } else {
            assert(s.to_set().intersect(t) =~= a);
        }
    }
}

/// For a list without repeated points, its closed loop is that of its set.
proof fn lemma_closed_loop_distinct(points: Seq<Point>)
    requires
        points.no_duplicates(),
    ensures
        closed_loop_of(points) == closed_loop(points.to_set()),
{
    let s = points.to_set();
    lemma_pruned_subset(s);
    lemma_count_in_distinct(points, pruned(s));
    assert(s.intersect(pruned(s)) =~= pruned(s));
}

// ---------------------------------------------------------------------------
// Capturing inside a polygon
// ---------------------------------------------------------------------------

pub open spec fn min_x(s: Seq<Point>) -> int
    decreases s.len(),
{
    if s.len() <= 1 {
        s[0].x as int
    } else if s.last().x < min_x(s.drop_last()) {
        s.last().x as int
    } else {
        min_x(s.drop_last())
    }
}

pub open spec fn max_x(s: Seq<Point>) -> int
    decreases s.len(),
{
    if s.len() <= 1 {
        s[0].x as int
    } else if s.last().x > max_x(s.drop_last()) {
        s.last().x as int
    } else {
        max_x(s.drop_last())
    }
}

pub open spec fn min_y(s: Seq<Point>) -> int
    decreases s.len(),
{
    if s.len() <= 1 {
        s[0].y as int
    } else if s.last().y < min_y(s.drop_last()) {
        s.last().y as int
    } else {
        min_y(s.drop_last())
    }
}

pub open spec fn max_y(s: Seq<Point>) -> int
    decreases s.len(),
{
    if s.len() <= 1 {
        s[0].y as int
    } else if s.last().y > max_y(s.drop_last()) {
        s.last().y as int
    } else {
        max_y(s.drop_last())
    }
}

/// `p` lies in the bounding box of the vertices of `poly`.
pub open spec fn in_box(p: Point, poly: Seq<Point>) -> bool {
    &&& min_x(poly) <= p.x <= max_x(poly)
    &&& min_y(poly) <= p.y <= max_y(poly)
}

/// The points of the bounding box of `poly` that lie inside it.
pub open spec fn capture_set(poly: Seq<Point>) -> Set<Point> {
    Set::new(|p: Point| in_box(p, poly) && in_polygon(p, poly))
}

/// Whether the edge `a`–`b` straddles the row of `p` (half-open in `y`).
spec fn straddles(p: Point, a: Point, b: Point) -> bool {
    (a.y > p.y) != (b.y > p.y)
}

/// Number of edges `(poly[i], poly[prev_index(i)])`, `i < k`, that straddle the row of `p`.
spec fn straddle_count(poly: Seq<Point>, p: Point, k: int) -> nat
    decreases k,
{
    if k <= 0 {
        0
    } else {
        straddle_count(poly, p, k - 1) + if straddles(
            p,
            poly[k - 1],
            poly[prev_index(poly.len() as int, k - 1)],
        ) {
            1nat
        } else {
            0nat
        }
    }
}

/// Walking a closed polygon, one crosses the row of `p` an even number of times.
proof fn lemma_straddle_parity(poly: Seq<Point>, p: Point, k: int)
    requires
        1 <= k <= poly.len(),
    ensures
        (straddle_count(poly, p, k) - straddle_count(poly, p, 1)) % 2 == if (poly[0].y > p.y) != (
        poly[k - 1].y > p.y) {
            1int
        } else {
            0int
        },
    decreases k,
{
    if k > 1 {
        lemma_straddle_parity(poly, p, k - 1);
    }
}

/// Every vertex of `poly` lies within its bounding box.
proof fn lemma_box_bounds(s: Seq<Point>)
    requires
        s.len() > 0,
    ensures
        forall|i: int|
            0 <= i < s.len() ==> min_x(s) <= (#[trigger] s[i]).x <= max_x(s) && min_y(s) <= s[i].y
                <= max_y(s),
    decreases s.len(),
{
    if s.len() > 1 {
        lemma_box_bounds(s.drop_last());
        assert forall|i: int| 0 <= i < s.len() implies min_x(s) <= (#[trigger] s[i]).x <= max_x(s)
            && min_y(s) <= s[i].y <= max_y(s) by {
            if i < s.len() - 1 {
                assert(s[i] == s.drop_last()[i]);
            }
        }
    }
}

/// An edge whose ends both lie strictly right of `p` is crossed exactly when
/// it straddles the row of `p`; one whose ends lie no further right than `p`
/// is never crossed.
proof fn lemma_edge_beside(p: Point, a: Point, b: Point)
    ensures
        a.x > p.x && b.x > p.x ==> (crosses_right(p, a, b) == straddles(p, a, b)),
        a.x <= p.x && b.x <= p.x ==> !crosses_right(p, a, b),
{
    let u = p.x as int;
    let v = p.y as int;
    let ax = a.x as int;
    let ay = a.y as int;
    let bx = b.x as int;
    let by_ = b.y as int;
    let dy = by_ - ay;
    let sy = v - ay;
    let lhs = (u - ax) * dy;
    let rhs = (bx - ax) * sy;
    if straddles(p, a, b) {
        if dy > 0 {
            assert(0 <= sy < dy);
            assert(ax > u && bx > u ==> lhs < rhs) by (nonlinear_arith)
                requires
                    0 <= sy < dy,
                    lhs == (u - ax) * dy,
                    rhs == (bx - ax) * sy,
            ;
            assert(ax <= u && bx <= u ==> lhs >= rhs) by (nonlinear_arith)
                requires
                    0 <= sy < dy,
                    lhs == (u - ax) * dy,
                    rhs == (bx - ax) * sy,
            ;
        } else {
            assert(dy <= sy < 0);
            assert(ax > u && bx > u ==> lhs > rhs) by (nonlinear_arith)
                requires
                    dy <= sy < 0,
                    lhs == (u - ax) * dy,
                    rhs == (bx - ax) * sy,
            ;
            assert(ax <= u && bx <= u ==> lhs <= rhs) by (nonlinear_arith)
                requires
                    dy <= sy < 0,
                    lhs == (u - ax) * dy,
                    rhs == (bx - ax) * sy,
            ;
        }
    }
}

/// Crossings of the first `k` edges, when every vertex lies strictly right of
/// `p`, or when none lies right of `p`, or when no edge straddles its row.
proof fn lemma_count_beside(poly: Seq<Point>, p: Point, k: int)
    requires
        0 <= k <= poly.len(),
    ensures
        (forall|i: int| 0 <= i < poly.len() ==> (#[trigger] poly[i]).x > p.x) ==> crossing_count(
            poly,
            p,
            k,
        ) == straddle_count(poly, p, k),
        (forall|i: int| 0 <= i < poly.len() ==> (#[trigger] poly[i]).x <= p.x) ==> crossing_count(
            poly,
            p,
            k,
        ) == 0,
        (forall|i: int| 0 <= i < poly.len() ==> (#[trigger] poly[i]).y > p.y) ==> crossing_count(
            poly,
            p,
            k,
        ) == 0,
        (forall|i: int| 0 <= i < poly.len() ==> (#[trigger] poly[i]).y <= p.y) ==> crossing_count(
            poly,
            p,
            k,
        ) == 0,
    decreases k,
{
    if k > 0 {
        lemma_count_beside(poly, p, k - 1);
        let a = poly[k - 1];
        let b = poly[prev_index(poly.len() as int, k - 1)];
        lemma_edge_beside(p, a, b);
    }
}

/// A point inside a polygon lies in the polygon's bounding box, so scanning
/// the box finds every point inside.
pub proof fn lemma_inside_in_box(p: Point, poly: Seq<Point>)
    requires
        in_polygon(p, poly),
    ensures
        in_box(p, poly),
{
    let n = poly.len() as int;
    lemma_box_bounds(poly);
    lemma_count_beside(poly, p, n);
    if p.x < min_x(poly) {
        lemma_straddle_parity(poly, p, n);
        assert(straddle_count(poly, p, 1) == straddle_count(poly, p, 0) + if straddles(
            p,
            poly[0],
            poly[n - 1],
        ) {
            1nat
        } else {
            0nat
        });
        assert(crossing_count(poly, p, n) == straddle_count(poly, p, n));
    }
}

/// A stone of the opponent of `player` on `p`.
pub open spec fn opponent_stone(g: GridModel, p: Point, player: Player) -> bool {
    player_at(g, p) is Some && player_at(g, p)->0 != player
}

/// The opponent stones inside `poly` that are not captured yet.
pub open spec fn enclosed_set(g: GridModel, poly: Seq<Point>, player: Player) -> Set<Point> {
    capture_set(poly).filter(|p: Point| !g.disabled.contains(p) && opponent_stone(g, p, player))
}

/// `q` moved back by direction `dir4(d)`.
pub open spec fn back4(q: Point, d: int) -> Option<Point> {
    shift(q, (-dir4(d).0, -dir4(d).1))
}

/// The points outside `poly` that touch by a side a point inside it.
pub open spec fn perimeter_set(poly: Seq<Point>) -> Set<Point> {
    Set::new(
        |q: Point|
            !in_polygon(q, poly) && exists|d: int|
                0 <= d < 4 && #[trigger] back4(q, d) is Some && capture_set(poly).contains(
                    back4(q, d)->0,
                ),
    )
}

/// Empty cells inside `poly`, each marked as neutral (`None`).
pub open spec fn neutralised(g: GridModel, poly: Seq<Point>) -> Map<Point, Option<Player>> {
    Map::new(
        |p: Point| capture_set(poly).contains(p) && player_at(g, p) is None,
        |p: Point| None::<Player>,
    )
}

/// The board after `player` closes `poly`, the stones captured, and the
/// outline of the captured region. The opponent stones inside are captured;
/// when there are some, the empty cells inside become neutral; when there are
/// none but the polygon has an inside, the outline is recorded as a polygon of `player`.
pub open spec fn enclose(g: GridModel, poly: Seq<Point>, player: Player) -> (GridModel, Set<Point>, Seq<Point>) {
    if poly.len() == 0 {
        (g, Set::empty(), seq![])
    } else {
        let cap = capture_set(poly);
        let enc = enclosed_set(g, poly, player);
        let outline = trace_polygon(perimeter_set(poly));
        let cells = if enc != Set::<Point>::empty() {
            g.cells.union_prefer_right(neutralised(g, poly))
        } else {
            g.cells
        };
        let loops = if enc == Set::<Point>::empty() && cap != Set::<Point>::empty() {
            loops_insert(g.loops, outline, player)
        } else {
            g.loops
        };
        (GridModel { cells, loops, disabled: g.disabled + enc, size: g.size }, enc, outline)
    }
}

// ---------------------------------------------------------------------------
// Placing a stone
// ---------------------------------------------------------------------------

/// Index of the first polygon of `l`, from `i` on, that an opponent of
/// `player` owns and that holds `p` inside, or `l.len()`.
pub open spec fn capturing_loop(l: Seq<(Seq<Point>, Player)>, p: Point, player: Player, i: int) -> int
    decreases l.len() - i,
{
    if i >= l.len() || i < 0 {
        l.len() as int
    } else if l[i].1 != player && in_polygon(p, l[i].0) {
        i
    } else {
        capturing_loop(l, p, player, i + 1)
    }
}

/// The board after `player` puts a stone on `point`, and what the placement reports.
///
/// The stone joins its group; the closed loop of the group, if any, captures
/// the opponent stones inside it. When it captures nothing, the first
/// polygon of the opponent that holds the new stone inside is taken away
/// from the polygons and closed again by its owner, and the placement
/// reports that capture instead (or nothing, when there is no such polygon).
pub open spec fn place_stone_spec(g: GridModel, point: Point, player: Player) -> (GridModel, Option<
    PlaceStoneModel,
>) {
    let g1 = GridModel { cells: g.cells.insert(point, Some(player)), ..g };
    let lp = closed_loop(group_of(g1, point, player));
    let (g2, enc, outline) = enclose(g1, lp, player);
    if enc == Set::<Point>::empty() {
        let i = capturing_loop(g2.loops, point, player, 0);
        if i < g2.loops.len() {
            let poly = g2.loops[i].0;
            let owner = g2.loops[i].1;
            let g3 = GridModel { loops: g2.loops.remove(i), ..g2 };
            let (g4, enc2, outline2) = enclose(g3, poly, owner);
            (
                g4,
                Some(
                    PlaceStoneModel {
                        closed_loop: outline2,
                        enclosed_points: enc2.len() as int,
                        is_closer: true,
                    },
                ),
            )
        } else {
            (g2, None)
        }
    } else {
        (
            g2,
            Some(
                PlaceStoneModel {
                    closed_loop: outline,
                    enclosed_points: enc.len() as int,
                    is_closer: false,
                },
            ),
        )
    }
}

/// The report of a placement, as the contracts speak of it.
pub open spec fn result_model(r: Option<PlaceStoneResult>) -> Option<PlaceStoneModel> {
    match r {
        Some(res) => Some(res.model()),
        None => None,
    }
}

// ---------------------------------------------------------------------------
// Laws of the board
// ---------------------------------------------------------------------------

/// Closing a polygon keeps the board's size, erases no cell, moves no stone,
/// captures only live stones of the opponent (and keeps every earlier capture),
/// and the only cells it adds are neutral.
pub proof fn lemma_enclose_effects(g: GridModel, poly: Seq<Point>, player: Player)
    ensures
        ({
            let (g2, enc, outline) = enclose(g, poly, player);
            &&& g2.size == g.size
            &&& g2.disabled == g.disabled + enc
            &&& g.disabled.disjoint(enc)
            &&& forall|q: Point| #[trigger] enc.contains(q) ==> opponent_stone(g, q, player)
            &&& forall|q: Point| #[trigger] g.cells.contains_key(q) ==> g2.cells.contains_key(q)
            &&& forall|q: Point|
                #[trigger] player_at(g, q) is Some ==> player_at(g2, q) == player_at(g, q)
            &&& forall|q: Point|
                #[trigger] g2.cells.contains_key(q) && !g.cells.contains_key(q) ==> g2.cells[q] is None
        }),
{
    let (g2, enc, outline) = enclose(g, poly, player);
    if poly.len() == 0 {
        assert(g.disabled + enc =~= g.disabled);
    }
}

/// Closing the same polygon a second time captures nothing more and gives
/// the same outline: the stones it captured are captured once and for all.
pub proof fn lemma_enclose_idempotent(g: GridModel, poly: Seq<Point>, player: Player)
    ensures
        ({
            let (g2, e1, o1) = enclose(g, poly, player);
            let (g3, e2, o2) = enclose(g2, poly, player);
            &&& e2 == Set::<Point>::empty()
            &&& o2 == o1
        }),
{
    let (g2, e1, o1) = enclose(g, poly, player);
    let (g3, e2, o2) = enclose(g2, poly, player);
    if poly.len() > 0 {
        assert forall|q: Point| !#[trigger] e2.contains(q) by {
            if e2.contains(q) {
                assert(opponent_stone(g2, q, player));
                assert(player_at(g2, q) == player_at(g, q));
                assert(!g.disabled.contains(q));
                assert(e1.contains(q));
            }
        }
        assert(e2 =~= Set::<Point>::empty());
    }
}

/// Putting a stone of `player` on `point` leaves that stone on its cell,
/// moves or removes no other stone, keeps the board's size and every earlier
/// capture, and captures only stones that are on the board; when the
/// placement reports nothing, nothing is captured.
pub proof fn lemma_place_stone_effects(g: GridModel, point: Point, player: Player)
    ensures
        ({
            let (g2, r) = place_stone_spec(g, point, player);
            &&& g2.size == g.size
            &&& g2.cells.contains_key(point) && g2.cells[point] == Some(player)
            &&& forall|q: Point| #[trigger] g.cells.contains_key(q) ==> g2.cells.contains_key(q)
            &&& forall|q: Point|
                q != point && #[trigger] player_at(g, q) is Some ==> player_at(g2, q) == player_at(g, q)
            &&& g.disabled.subset_of(g2.disabled)
            &&& forall|q: Point|
                #[trigger] g2.disabled.contains(q) && !g.disabled.contains(q) ==> player_at(g2, q) is Some
            &&& r is None ==> g2.disabled == g.disabled
        }),
{
    let g1 = GridModel { cells: g.cells.insert(point, Some(player)), ..g };
    let lp = closed_loop(group_of(g1, point, player));
    lemma_enclose_effects(g1, lp, player);
    let (g2, enc, outline) = enclose(g1, lp, player);
    assert(player_at(g1, point) == Some(player));
    if enc == Set::<Point>::empty() {
        assert(g2.disabled =~= g.disabled);
        let i = capturing_loop(g2.loops, point, player, 0);
        if i < g2.loops.len() {
            let g3 = GridModel { loops: g2.loops.remove(i), ..g2 };
            lemma_enclose_effects(g3, g2.loops[i].0, g2.loops[i].1);
            let (g4, enc2, outline2) = enclose(g3, g2.loops[i].0, g2.loops[i].1);
            assert forall|q: Point|
                q != point && #[trigger] player_at(g, q) is Some implies player_at(g4, q) == player_at(
                    g,
                    q,
                ) by {
                assert(player_at(g1, q) == player_at(g, q));
            }
            assert forall|q: Point|
                #[trigger] g4.disabled.contains(q) && !g.disabled.contains(q) implies player_at(
                    g4,
                    q,
                ) is Some by {
                assert(enc2.contains(q));
            }
        } else {
            assert forall|q: Point|
                q != point && #[trigger] player_at(g, q) is Some implies player_at(g2, q) == player_at(
                    g,
                    q,
                ) by {
                assert(player_at(g1, q) == player_at(g, q));
            }
        }
    } else {
        assert forall|q: Point|
            q != point && #[trigger] player_at(g, q) is Some implies player_at(g2, q) == player_at(g, q) by {
            assert(player_at(g1, q) == player_at(g, q));
        }
        assert forall|q: Point|
            #[trigger] g2.disabled.contains(q) && !g.disabled.contains(q) implies player_at(g2, q) is Some by {
            assert(enc.contains(q));
        }
    }
}

// ---------------------------------------------------------------------------
// Ownerless cells come from captures
// ---------------------------------------------------------------------------

/// The points of column `x` with a row from `y0` to `y1`.
spec fn column_set(x: int, y0: int, y1: int) -> Set<Point> {
    vstd::set_lib::set_int_range(y0, y1 + 1).map(|y: int| Point { x: x as i32, y: y as i32 })
}

/// The points with a column from `x0` to `x1` and a row from `y0` to `y1`.
spec fn box_set(x0: int, x1: int, y0: int, y1: int) -> Set<Point>
    decreases x1 - x0 + 1,
{
    if x1 < x0 {
        Set::empty()
    } else {
        box_set(x0, x1 - 1, y0, y1).union(column_set(x1, y0, y1))
    }
}

proof fn lemma_box_set(x0: int, x1: int, y0: int, y1: int)
    ensures
        box_set(x0, x1, y0, y1).finite(),
        forall|p: Point|
            x0 <= p.x <= x1 && y0 <= p.y <= y1 ==> #[trigger] box_set(x0, x1, y0, y1).contains(p),
    decreases x1 - x0 + 1,
{
    if x1 >= x0 {
        lemma_box_set(x0, x1 - 1, y0, y1);
        let f = |y: int| Point { x: x1 as i32, y: y as i32 };
        if y0 <= y1 + 1 {
            vstd::set_lib::lemma_int_range(y0, y1 + 1);
        } else {
            assert(vstd::set_lib::set_int_range(y0, y1 + 1) =~= Set::<int>::empty());
        }
        vstd::set_lib::set_int_range(y0, y1 + 1).lemma_map_finite(f);
        assert forall|p: Point| x0 <= p.x <= x1 && y0 <= p.y <= y1 implies #[trigger] box_set(
            x0,
            x1,
            y0,
            y1,
        ).contains(p) by {
            if p.x == x1 {
                assert(vstd::set_lib::set_int_range(y0, y1 + 1).contains(p.y as int));
                assert(f(p.y as int) == p);
                assert(column_set(x1, y0, y1).contains(p));
            } else {
                assert(box_set(x0, x1 - 1, y0, y1).contains(p));
            }
        }
    }
}

/// The points inside a polygon are finitely many.
proof fn lemma_capture_set_finite(poly: Seq<Point>)
    ensures
        capture_set(poly).finite(),
{
    lemma_box_set(min_x(poly), max_x(poly), min_y(poly), max_y(poly));
    assert(capture_set(poly).subset_of(box_set(min_x(poly), max_x(poly), min_y(poly), max_y(poly))));
    vstd::set_lib::lemma_len_subset(
        capture_set(poly),
        box_set(min_x(poly), max_x(poly), min_y(poly), max_y(poly)),
    );
}

/// A cell that closing a polygon leaves occupied with no owner was either so
/// before, or the closing captured at least one stone.
proof fn lemma_enclose_ownerless(g: GridModel, poly: Seq<Point>, player: Player)
    requires
        g.cells.dom().finite(),
    ensures
        ({
            let (g2, enc, outline) = enclose(g, poly, player);
            &&& g2.cells.dom().finite()
            &&& enc.finite()
            &&& forall|q: Point|
                #[trigger] g2.cells.contains_key(q) && g2.cells[q] is None && !(g.cells.contains_key(q)
                    && g.cells[q] is None) ==> enc.len() > 0
        }),
{
    let (g2, enc, outline) = enclose(g, poly, player);
    if poly.len() == 0 {
        assert(enc =~= Set::<Point>::empty());
    } else {
        lemma_capture_set_finite(poly);
        assert(enc.subset_of(g.cells.dom()));
        vstd::set_lib::lemma_len_subset(enc, g.cells.dom());
        let nd = neutralised(g, poly).dom();
        assert(nd.subset_of(capture_set(poly)));
        vstd::set_lib::lemma_len_subset(nd, capture_set(poly));
        if enc != Set::<Point>::empty() {
            assert(g2.cells.dom() =~= g.cells.dom().union(nd));
            vstd::set_lib::lemma_set_empty_equivalency_len(enc);
        } else {
            assert(g2.cells == g.cells);
        }
    }
}

/// A placement leaves a cell occupied with no owner, where there was none
/// before, only when it captures stones (and it keeps the board's cells finitely many).
pub proof fn lemma_ownerless_cell_needs_capture(g: GridModel, point: Point, player: Player)
    requires
        g.cells.dom().finite(),
    ensures
        ({
            let (g2, r) = place_stone_spec(g, point, player);
            &&& g2.cells.dom().finite()
            &&& forall|q: Point|
                #[trigger] g2.cells.contains_key(q) && g2.cells[q] is None && !(g.cells.contains_key(q)
                    && g.cells[q] is None) ==> (r matches Some(m) && m.enclosed_points > 0)
        }),
{
    let g1 = GridModel { cells: g.cells.insert(point, Some(player)), ..g };
    assert(g1.cells.dom() =~= g.cells.dom().insert(point));
    let lp = closed_loop(group_of(g1, point, player));
    lemma_enclose_ownerless(g1, lp, player);
    let (g2, enc, outline) = enclose(g1, lp, player);
    assert forall|q: Point|
        g1.cells.contains_key(q) && g1.cells[q] is None implies g.cells.contains_key(q) && g.cells[q] is None by {
        assert(q != point);
    }
    if enc == Set::<Point>::empty() {
        assert(g2.cells == g1.cells);
        let i = capturing_loop(g2.loops, point, player, 0);
        if i < g2.loops.len() {
            let g3 = GridModel { loops: g2.loops.remove(i), ..g2 };
            lemma_enclose_ownerless(g3, g2.loops[i].0, g2.loops[i].1);
        }
    }
}

/// The boards and reports of placing `moves` one after the other on `g`.
pub open spec fn play_all(g: GridModel, moves: Seq<(Point, Player)>) -> (GridModel, Seq<Option<PlaceStoneModel>>)
    decreases moves.len(),
{
    if moves.len() == 0 {
        (g, seq![])
    } else {
        let (g1, rs) = play_all(g, moves.drop_last());
        let (g2, r) = place_stone_spec(g1, moves.last().0, moves.last().1);
        (g2, rs.push(r))
    }
}

/// On a board reached by placements from a board where every occupied cell
/// has an owner (a new board), a cell occupied with no owner is there only
/// because some placement captured stones.
pub proof fn lemma_ownerless_cells_come_from_captures(g: GridModel, moves: Seq<(Point, Player)>)
    requires
        g.cells.dom().finite(),
        forall|q: Point| #[trigger] g.cells.contains_key(q) ==> g.cells[q] is Some,
    ensures
        ({
            let (gn, rs) = play_all(g, moves);
            &&& gn.cells.dom().finite()
            &&& rs.len() == moves.len()
            &&& forall|q: Point|
                #[trigger] gn.cells.contains_key(q) && gn.cells[q] is None ==> exists|i: int|
                    0 <= i < rs.len() && (#[trigger] rs[i] matches Some(m) && m.enclosed_points > 0)
        }),
    decreases moves.len(),
{
    if moves.len() > 0 {
        lemma_ownerless_cells_come_from_captures(g, moves.drop_last());
        let (g1, rs1) = play_all(g, moves.drop_last());
        lemma_ownerless_cell_needs_capture(g1, moves.last().0, moves.last().1);
        let (gn, rs) = play_all(g, moves);
        assert forall|q: Point| #[trigger] gn.cells.contains_key(q) && gn.cells[q] is None implies exists|i: int|
            0 <= i < rs.len() && (#[trigger] rs[i] matches Some(m) && m.enclosed_points > 0) by {
            if g1.cells.contains_key(q) && g1.cells[q] is None {
                let i = choose|i: int|
                    0 <= i < rs1.len() && (#[trigger] rs1[i] matches Some(m) && m.enclosed_points > 0);
                assert(rs[i] == rs1[i]);
            } else {
                assert(rs[rs.len() - 1] == place_stone_spec(g1, moves.last().0, moves.last().1).1);
            }
        }
    }
}

// ---------------------------------------------------------------------------
// What a placement reports
// ---------------------------------------------------------------------------

/// The polygon that `capturing_loop` picks belongs to the other player and
/// holds `p` inside.
proof fn lemma_capturing_loop_found(l: Seq<(Seq<Point>, Player)>, p: Point, player: Player, i: int)
    requires
        0 <= i,
    ensures
        capturing_loop(l, p, player, i) <= l.len(),
        capturing_loop(l, p, player, i) < l.len() ==> ({
            let k = capturing_loop(l, p, player, i);
            k >= 0 && l[k].1 != player && in_polygon(p, l[k].0)
        }),
    decreases l.len() - i,
{
    if i < l.len() && !(l[i].1 != player && in_polygon(p, l[i].0)) {
        lemma_capturing_loop_found(l, p, player, i + 1);
    }
}

/// An entry of the polygons after recording one for `owner` that another
/// player owns was there before, at the same place.
proof fn lemma_loops_insert_other(l: Seq<(Seq<Point>, Player)>, poly: Seq<Point>, owner: Player, k: int)
    requires
        0 <= k < loops_insert(l, poly, owner).len(),
        loops_insert(l, poly, owner)[k].1 != owner,
    ensures
        k < l.len(),
        loops_insert(l, poly, owner)[k] == l[k],
{
    lemma_loop_index_bound(l, poly, 0);
}

proof fn lemma_loop_index_bound(l: Seq<(Seq<Point>, Player)>, poly: Seq<Point>, i: int)
    requires
        0 <= i,
    ensures
        0 <= loop_index(l, poly, i) <= l.len(),
    decreases l.len() - i,
{
    if i < l.len() && l[i].0 != poly {
        lemma_loop_index_bound(l, poly, i + 1);
    }
}

/// A placement that captures nothing by its own stones is reported as
/// closing a polygon (`is_closer`) only when a polygon of the other player,
/// recorded before the placement, holds the new stone inside: a stone put
/// inside a polygon of its own player alone is reported as nothing.
pub proof fn lemma_closer_needs_opponent_polygon(g: GridModel, point: Point, player: Player)
    ensures
        (place_stone_spec(g, point, player).1 matches Some(m) && m.is_closer) ==> exists|i: int|
            0 <= i < g.loops.len() && #[trigger] g.loops[i].1 != player && in_polygon(point, g.loops[i].0),
{
    let g1 = GridModel { cells: g.cells.insert(point, Some(player)), ..g };
    let lp = closed_loop(group_of(g1, point, player));
    let (g2, enc, outline) = enclose(g1, lp, player);
    if enc == Set::<Point>::empty() {
        let k = capturing_loop(g2.loops, point, player, 0);
        lemma_capturing_loop_found(g2.loops, point, player, 0);
        if k < g2.loops.len() {
            if g2.loops != g1.loops {
                lemma_loops_insert_other(g1.loops, outline, player, k);
            }
            assert(g.loops[k].1 != player && in_polygon(point, g.loops[k].0));
        }
    }
}

/// `a` and `b` touch by a side.
pub open spec fn side_adjacent(a: Point, b: Point) -> bool {
    ||| (a.x - b.x == 1 || b.x - a.x == 1) && a.y == b.y
    ||| (a.y - b.y == 1 || b.y - a.y == 1) && a.x == b.x
}

/// The first point of a finite non-empty set by row, then by column, is in the set.
proof fn lemma_lowest_in(s: Set<Point>)
    requires
        s.finite(),
        s.len() > 0,
    ensures
        s.contains(lowest(s)),
        forall|q: Point| s.contains(q) ==> #[trigger] before_eq(lowest(s), q),
    decreases s.len(),
{
    vstd::set_lib::lemma_set_empty_equivalency_len(s);
    let a = s.choose();
    let t = s.remove(a);
    if t.len() == 0 {
        vstd::set_lib::lemma_set_empty_equivalency_len(t);
        assert forall|q: Point| s.contains(q) implies #[trigger] before_eq(a, q) by {
            if q != a {
                assert(t.contains(q));
            }
        }
    } else {
        lemma_lowest_in(t);
        let m = lowest(t);
        if before_eq(m, a) {
            assert(s.contains(m) && forall|q: Point| s.contains(q) ==> #[trigger] before_eq(m, q)) by {
                assert forall|q: Point| s.contains(q) implies #[trigger] before_eq(m, q) by {
                    if q != a {
                        assert(t.contains(q));
                    }
                }
            }
        } else {
            assert(s.contains(a) && forall|q: Point| s.contains(q) ==> #[trigger] before_eq(a, q)) by {
                assert forall|q: Point| s.contains(q) implies #[trigger] before_eq(a, q) by {
                    if q != a {
                        assert(t.contains(q));
                        assert(before_eq(m, q));
                    }
                }
            }
        }
    }
}

/// The outline of the points touching a polygon's inside are finitely many.
proof fn lemma_perimeter_set_finite(poly: Seq<Point>)
    ensures
        perimeter_set(poly).finite(),
{
    let b = box_set(min_x(poly) - 1, max_x(poly) + 1, min_y(poly) - 1, max_y(poly) + 1);
    lemma_box_set(min_x(poly) - 1, max_x(poly) + 1, min_y(poly) - 1, max_y(poly) + 1);
    assert forall|q: Point| perimeter_set(poly).contains(q) implies b.contains(q) by {
        let d = choose|d: int|
            0 <= d < 4 && #[trigger] back4(q, d) is Some && capture_set(poly).contains(back4(q, d)->0);
        assert(in_box(back4(q, d)->0, poly));
    }
    vstd::set_lib::lemma_len_subset(perimeter_set(poly), b);
}

/// Every point of the traced outline of a polygon's inside lies outside the
/// polygon and touches by a side a point inside it.
proof fn lemma_outline_points(poly: Seq<Point>)
    ensures
        forall|k: int|
            0 <= k < trace_polygon(perimeter_set(poly)).len() ==> {
                let q = #[trigger] trace_polygon(perimeter_set(poly))[k];
                !in_polygon(q, poly) && exists|p: Point| in_polygon(p, poly) && side_adjacent(p, q)
            },
{
    let ps = perimeter_set(poly);
    lemma_perimeter_set_finite(poly);
    let t = trace_polygon(ps);
    if ps.len() > 0 {
        lemma_lowest_in(ps);
        lemma_trace_len(ps, lowest(ps), lowest(ps), 0, true, (8 * ps.len()) as nat);
        lemma_trace_shape(ps, lowest(ps), lowest(ps), 0, true, (8 * ps.len()) as nat);
        assert forall|k: int| 0 <= k < t.len() implies {
            let q = #[trigger] t[k];
            !in_polygon(q, poly) && exists|p: Point| in_polygon(p, poly) && side_adjacent(p, q)
        } by {
            let q = t[k];
            assert(ps.contains(q));
            let d = choose|d: int|
                0 <= d < 4 && #[trigger] back4(q, d) is Some && capture_set(poly).contains(back4(q, d)->0);
            let p = back4(q, d)->0;
            assert(in_polygon(p, poly) && side_adjacent(p, q));
        }
    }
}

/// When a placement captures stones with its own closed loop (`is_closer`
/// false), the reported loop is the outline of the captured region: each of
/// its points lies outside the closed polygon and touches by a side a point
/// inside it (so no corner stone of the loop is reported).
pub proof fn lemma_capture_reports_outline(g: GridModel, point: Point, player: Player)
    ensures
        ({
            let lp = closed_loop(
                group_of(GridModel { cells: g.cells.insert(point, Some(player)), ..g }, point, player),
            );
            let r = place_stone_spec(g, point, player).1;
            r is Some && !r->0.is_closer ==> forall|k: int|
                0 <= k < r->0.closed_loop.len() ==> {
                    let q = #[trigger] r->0.closed_loop[k];
                    !in_polygon(q, lp) && exists|p: Point| in_polygon(p, lp) && side_adjacent(p, q)
                }
        }),
{
    let g1 = GridModel { cells: g.cells.insert(point, Some(player)), ..g };
    let lp = closed_loop(group_of(g1, point, player));
    lemma_outline_points(lp);
}

// ---------------------------------------------------------------------------
// Lemmas on the association list of cells
// ---------------------------------------------------------------------------

proof fn lemma_cell_map_dom(s: Seq<(Point, Option<Player>)>, k: Point)
    ensures
        cell_map(s).contains_key(k) <==> exists|i: int| 0 <= i < s.len() && #[trigger] s[i].0 == k,
    decreases s.len(),
{
    if s.len() > 0 {
        lemma_cell_map_dom(s.drop_last(), k);
        if cell_map(s).contains_key(k) && k != s.last().0 {
            let i = choose|i: int| 0 <= i < s.len() - 1 && #[trigger] s.drop_last()[i].0 == k;
            assert(s[i].0 == k);
        }
        if exists|i: int| 0 <= i < s.len() && #[trigger] s[i].0 == k {
            let i = choose|i: int| 0 <= i < s.len() && #[trigger] s[i].0 == k;
            if i < s.len() - 1 {
                assert(s.drop_last()[i].0 == k);
            }
        }
    }
}

proof fn lemma_cell_map_value(s: Seq<(Point, Option<Player>)>, i: int)
    requires
        cell_keys_distinct(s),
        0 <= i < s.len(),
    ensures
        cell_map(s).contains_key(s[i].0),
        cell_map(s)[s[i].0] == s[i].1,
    decreases s.len(),
{
    if i < s.len() - 1 {
        lemma_cell_map_value(s.drop_last(), i);
        assert(s.drop_last()[i] == s[i]);
    }
}

proof fn lemma_cell_map_update(s: Seq<(Point, Option<Player>)>, i: int, v: Option<Player>)
    requires
        cell_keys_distinct(s),
        0 <= i < s.len(),
    ensures
        cell_map(s.update(i, (s[i].0, v))) == cell_map(s).insert(s[i].0, v),
    decreases s.len(),
{
    let t = s.update(i, (s[i].0, v));
    if i == s.len() - 1 {
        assert(t.drop_last() =~= s.drop_last());
        if cell_map(s.drop_last()).contains_key(s[i].0) {
            lemma_cell_map_dom(s.drop_last(), s[i].0);
            let j = choose|j: int| 0 <= j < s.len() - 1 && #[trigger] s.drop_last()[j].0 == s[i].0;
            assert(s[j].0 == s[i].0);
        }
        assert(cell_map(t) =~= cell_map(s).insert(s[i].0, v));
    } else {
        lemma_cell_map_update(s.drop_last(), i, v);
        assert(t.drop_last() =~= s.drop_last().update(i, (s[i].0, v)));
        assert(s.last().0 != s[i].0);
        assert(cell_map(t) =~= cell_map(s).insert(s[i].0, v));
    }
}

/// A sequence of distinct points is no longer than a list whose keys hold them all.
proof fn lemma_distinct_points_bound(pts: Seq<Point>, s: Seq<(Point, Option<Player>)>)
    requires
        pts.no_duplicates(),
        forall|k: int| 0 <= k < pts.len() ==> cell_map(s).contains_key(#[trigger] pts[k]),
    ensures
        pts.len() <= s.len(),
{
    let keys = s.map_values(|e: (Point, Option<Player>)| e.0);
    assert forall|p: Point| pts.to_set().contains(p) implies keys.to_set().contains(p) by {
        let k = choose|k: int| 0 <= k < pts.len() && pts[k] == p;
        lemma_cell_map_dom(s, pts[k]);
        let i = choose|i: int| 0 <= i < s.len() && #[trigger] s[i].0 == pts[k];
        assert(keys[i] == p);
    }
    pts.unique_seq_to_set();
    keys.lemma_cardinality_of_set();
    vstd::set_lib::lemma_len_subset(pts.to_set(), keys.to_set());
}

// ---------------------------------------------------------------------------
// The board
// ---------------------------------------------------------------------------

/// A Faritany board.
#[derive(Debug, Clone)]
pub struct Grid {
    occupied_cells: Vec<(Point, Option<Player>)>,
    polygon_loops: Vec<(Vec<Point>, Player)>,
    disabled_points: Vec<Point>,
    size: i32,
}

/// What `Grid::place_stone` reports when a placement closes or breaks a polygon.
pub struct PlaceStoneResult {
    /// The outline of the captured region, as a closed walk of points.
    pub closed_loop: Vec<Point>,
    /// The number of stones captured.
    pub enclosed_points: usize,
    /// Whether the stone captured inside a polygon that the opponent had closed earlier.
    pub is_closer: bool,
}

impl PlaceStoneResult {
    pub open spec fn model(&self) -> PlaceStoneModel {
        PlaceStoneModel {
            closed_loop: self.closed_loop@,
            enclosed_points: self.enclosed_points as int,
            is_closer: self.is_closer,
        }
    }
}

impl View for Grid {
    type V = GridModel;

    closed spec fn view(&self) -> GridModel {
        GridModel {
            cells: cell_map(self.occupied_cells@),
            loops: self.polygon_loops@.map_values(|e: (Vec<Point>, Player)| (e.0@, e.1)),
            disabled: self.disabled_points@.to_set(),
            size: self.size as int,
        }
    }
}

impl Grid {
    /// The board's own bookkeeping is consistent: no cell, captured stone or
    /// polygon is recorded twice.
    pub closed spec fn wf(&self) -> bool {
        &&& cell_keys_distinct(self.occupied_cells@)
        &&& self.disabled_points@.no_duplicates()
        &&& loop_keys_distinct(self@.loops)
    }

    /// The cells of the board in the order in which they were first occupied.
    pub closed spec fn cell_order(&self) -> Seq<Point> {
        self.occupied_cells@.map_values(|e: (Point, Option<Player>)| e.0)
    }

    /// An empty board of `size` by `size` cells.
    pub fn new(size: i32) -> (r: Grid)
        ensures
            r.wf(),
            r@.cells == Map::<Point, Option<Player>>::empty(),
            r@.loops == Seq::<(Seq<Point>, Player)>::empty(),
            r@.disabled == Set::<Point>::empty(),
            r@.size == size,
    {
        let g = Grid {
            occupied_cells: Vec::new(),
            polygon_loops: Vec::new(),
            disabled_points: Vec::new(),
            size,
        };
        proof {
            assert(g@.loops =~= Seq::<(Seq<Point>, Player)>::empty());
            assert(g@.disabled =~= Set::<Point>::empty());
        }
        g
    }

    /// Position of `point` in the list of occupied cells.
    fn find_cell(&self, point: &Point) -> (r: Option<usize>)
        requires
            self.wf(),
        ensures
            r is None ==> !self@.cells.contains_key(*point),
            r matches Some(i) ==> i < self.occupied_cells@.len() && self.occupied_cells@[i as int].0
                == *point && self@.cells[*point] == self.occupied_cells@[i as int].1
                && self@.cells.contains_key(*point),
    {
        let n = self.occupied_cells.len();
        let mut i: usize = 0;
        while i < n
            invariant
                n == self.occupied_cells@.len(),
                i <= n,
                self.wf(),
                forall|j: int| 0 <= j < i ==> self.occupied_cells@[j].0 != *point,
            decreases n - i,
        {
            if self.occupied_cells[i].0.equals(point) {
                proof {
                    lemma_cell_map_value(self.occupied_cells@, i as int);
                }
                return Some(i);
            }
            i = i + 1;
        }
        proof {
            lemma_cell_map_dom(self.occupied_cells@, *point);
        }
        None
    }

    /// Records `value` for the cell `point`.
    fn set_cell(&mut self, point: Point, value: Option<Player>)
        requires
            old(self).wf(),
        ensures
            final(self).wf(),
            final(self)@ == (GridModel { cells: old(self)@.cells.insert(point, value), ..old(self)@ }),
    {
        let found = self.find_cell(&point);
        let ghost s = self.occupied_cells@;
        match found {
            Some(i) => {
                proof {
                    lemma_cell_map_update(s, i as int, value);
                }
                self.occupied_cells.set(i, (point, value));
                assert(self.occupied_cells@ == s.update(i as int, (s[i as int].0, value)));
            },
            None => {
                proof {
                    assert forall|j: int| 0 <= j < s.len() implies s[j].0 != point by {
                        lemma_cell_map_dom(s, point);
                    }
                }
                self.occupied_cells.push((point, value));
                assert(self.occupied_cells@.drop_last() =~= s);
            },
        }
        proof {
            assert(self@.cells =~= old(self)@.cells.insert(point, value));
            assert(self@.loops =~= old(self)@.loops);
            assert(self@.disabled =~= old(self)@.disabled);
        }
    }

    /// Whether no stone, live or captured, and no neutralised mark is on `point`.
    pub fn is_cell_empty(&self, point: &Point) -> (r: bool)
        requires
            self.wf(),
        ensures
            r == !self@.cells.contains_key(*point),
            r ==> player_at(self@, *point) is None,
    {
        self.find_cell(point).is_none()
    }

    /// The player whose stone is on `point`, if any.
    pub fn get_player_at(&self, point: &Point) -> (r: Option<Player>)
        requires
            self.wf(),
        ensures
            r == player_at(self@, *point),
    {
        match self.find_cell(point) {
            Some(i) => self.occupied_cells[i].1,
            None => None,
        }
    }


    /// The group of `start_point` (see `group_of`), each stone once, in the
    /// order in which a breadth-first search over the eight directions meets them.
    #[verifier::spinoff_prover]
    #[verifier::rlimit(100)]
    fn find_connected_stones(&self, start_point: &Point, player: Player) -> (r: Vec<Point>)
        requires
            self.wf(),
        ensures
            r@.no_duplicates(),
            r@.to_set() == group_of(self@, *start_point, player),
            r@.len() > 0 ==> r@[0] == *start_point,
            bfs_ordered(r@),
    {
        let ghost g = self@;
        let ghost start = *start_point;
        let ghost bound = self.occupied_cells@.len();
        let mut visited: Vec<Point> = Vec::new();
        let mut queue: Vec<Point> = Vec::new();
        queue.push(*start_point);
        let mut head: usize = 0;
        let mut connected: Vec<Point> = Vec::new();
        let ghost mut qsrc: Seq<(int, int)> = seq![(-1int, -1int)];
        let ghost mut pos: Seq<int> = seq![];
        proof {
            lemma_bfs_start(g, start);
            assert(queue@ =~= seq![start]);
            assert(visited@ =~= Seq::<Point>::empty());
            assert(connected@ =~= Seq::<Point>::empty());
        }
        while head < queue.len()
            invariant
                bfs_inv(g, queue@, qsrc, connected@, pos, visited@, head as int),
                qsrc.len() == queue@.len(),
                self.wf(),
                g == self@,
                bound == self.occupied_cells@.len(),
                head <= queue@.len(),
                queue@.len() > 0,
                queue@[0] == start,
                visited@.no_duplicates(),
                connected@.no_duplicates(),
                connected@.len() <= bound,
                connected@.len() > 0 ==> connected@[0] == start,
                forall|k: int|
                    0 < k < connected@.len() ==> exists|j: int|
                        0 <= j < k && adjacent8(connected@[j], #[trigger] connected@[k]),
                forall|k: int| 0 <= k < connected@.len() ==> visited@.contains(#[trigger] connected@[k]),
                forall|k: int|
                    0 <= k < visited@.len() ==> !g.disabled.contains(#[trigger] visited@[k]) && (
                    player_at(g, visited@[k]) == Some(player) ==> connected@.contains(visited@[k])),
                forall|k: int|
                    0 <= k < connected@.len() ==> live_stone(g, player, #[trigger] connected@[k])
                        && group_of(g, start, player).contains(connected@[k]),
                forall|k: int|
                    0 <= k < queue@.len() ==> #[trigger] queue@[k] == start || (in_bounds(
                        queue@[k],
                        g.size,
                    ) && exists|c: int|
                        0 <= c < connected@.len() && adjacent8(#[trigger] connected@[c], queue@[k])),
                forall|k: int, d: int|
                    0 <= k < connected@.len() && 0 <= d < 8 && #[trigger] shift(
                        connected@[k],
                        dir8(d),
                    ) is Some && in_bounds(shift(connected@[k], dir8(d))->0, g.size) ==> {
                        let nb = shift(connected@[k], dir8(d))->0;
                        visited@.contains(nb) || g.disabled.contains(nb) || queue@.subrange(
                            head as int,
                            queue@.len() as int,
                        ).contains(nb)
                    },
                head > 0 ==> visited@.contains(start) || g.disabled.contains(start),
            decreases (queue@.len() - head) + 9 * (bound - connected@.len()),
        {
            let current = queue[head];
            let ghost old_queue = queue@;
            let ghost old_head = head;
            let ghost old_visited = visited@;
            let ghost old_connected = connected@;
            let ghost old_qsrc = qsrc;
            let ghost old_pos = pos;
            head = head + 1;
            if !contains_point(&visited, &current) && !self.is_disabled(&current) {
                visited.push(current);
                let owner = self.get_player_at(&current);
                if owner == Some(player) {
                    proof {
                        if old_queue[old_head as int] == start {
                            let path = seq![start];
                            assert(is_chain(g, player, path));
                        } else {
                            let c = choose|c: int|
                                0 <= c < connected@.len() && adjacent8(
                                    #[trigger] connected@[c],
                                    old_queue[old_head as int],
                                );
                            assert(group_of(g, start, player).contains(connected@[c]));
                            let path = choose|path: Seq<Point>|
                                #[trigger] is_chain(g, player, path) && path[0] == start
                                    && path.last() == connected@[c];
                            let path2 = path.push(current);
                            assert(is_chain(g, player, path2)) by {
                                assert forall|i: int| 0 < i < path2.len() implies in_bounds(
                                    #[trigger] path2[i],
                                    g.size,
                                ) && adjacent8(path2[i - 1], path2[i]) by {
                                    if i < path2.len() - 1 {
                                        assert(path2[i] == path[i]);
                                        assert(path2[i - 1] == path[i - 1]);
                                    }
                                }
                                assert forall|i: int| 0 <= i < path2.len() implies live_stone(
                                    g,
                                    player,
                                    #[trigger] path2[i],
                                ) by {
                                    if i < path2.len() - 1 {
                                        assert(path2[i] == path[i]);
                                    }
                                }
                            }
                            assert(path2[0] == start && path2.last() == current);
                        }
                        assert(!connected@.contains(current));
                        lemma_distinct_points_bound(connected@.push(current), self.occupied_cells@);
                        if connected@.len() > 0 {
                            assert(visited@.contains(connected@[0]));
                            assert(old_queue[old_head as int] != start);
                        }
                    }
                    let ghost c0 = connected@;
                    connected.push(current);
                    proof {
                        pos = pos.push(old_head as int);
                    }
                    let ghost cc = connected@;
                    let ghost vv = visited@;
                    proof {
                        assert(qsrc.subrange(0, old_queue.len() as int) =~= old_qsrc);
                    }
                    proof {
                        assert forall|k: int|
                            0 < k < connected@.len() implies exists|j: int|
                                0 <= j < k && adjacent8(connected@[j], #[trigger] connected@[k]) by {
                            if k < c0.len() {
                                let j = choose|j: int| 0 <= j < k && adjacent8(c0[j], #[trigger] c0[k]);
                                assert(connected@[j] == c0[j] && connected@[k] == c0[k]);
                            } else {
                                let c = choose|c: int|
                                    0 <= c < c0.len() && adjacent8(#[trigger] c0[c], old_queue[old_head as int]);
                                assert(connected@[c] == c0[c]);
                            }
                        }
                    }
                    let mut d: usize = 0;
                    while d < 8
                        invariant
                            self.wf(),
                            g == self@,
                            head == old_head + 1,
                            old_head < old_queue.len(),
                            queue@.len() >= old_queue.len(),
                            queue@.len() <= old_queue.len() + d,
                            d <= 8,
                            queue@.subrange(0, old_queue.len() as int) == old_queue,
                            visited@.contains(current),
                            connected@ == cc,
                            visited@ == vv,
                            cc.len() > 0,
                            cc[cc.len() - 1] == current,
                            qsrc.len() == queue@.len(),
                            qsrc.subrange(0, old_queue.len() as int) == old_qsrc,
                            forall|k: int|
                                old_queue.len() <= k < queue@.len() ==> (#[trigger] qsrc[k]).0 == cc.len()
                                    - 1 && 0 <= qsrc[k].1 < d && shift(current, dir8(qsrc[k].1)) == Some(
                                    queue@[k],
                                ),
                            forall|k1: int, k2: int|
                                old_queue.len() <= k1 < k2 < queue@.len() ==> (#[trigger] qsrc[k1]).1
                                    < (#[trigger] qsrc[k2]).1,
                            forall|e: int|
                                0 <= e < d && #[trigger] shift(current, dir8(e)) is Some && in_bounds(
                                    shift(current, dir8(e))->0,
                                    g.size,
                                ) ==> vv.contains(shift(current, dir8(e))->0) || exists|k: int|
                                    old_queue.len() <= k < queue@.len() && qsrc[k] == (cc.len() - 1, e),
                            forall|k: int|
                                old_queue.len() <= k < queue@.len() ==> in_bounds(
                                    #[trigger] queue@[k],
                                    g.size,
                                ) && adjacent8(current, queue@[k]),
                            forall|e: int|
                                0 <= e < d && #[trigger] shift(current, dir8(e)) is Some && in_bounds(
                                    shift(current, dir8(e))->0,
                                    g.size,
                                ) ==> visited@.contains(shift(current, dir8(e))->0) || queue@.subrange(
                                    head as int,
                                    queue@.len() as int,
                                ).contains(shift(current, dir8(e))->0),
                        decreases 8 - d,
                    {
                        let dir = dir8_exec(d);
                        let nb = shift_exec(&current, dir);
                        match nb {
                            Some(n) => {
                                if n.is_within_bounds(self.size) && !contains_point(&visited, &n) {
                                    proof {
                                        lemma_shift_adjacent(current, d as int);
                                    }
                                    let ghost q0 = queue@;
                                    let ghost s0 = qsrc;
                                    queue.push(n);
                                    proof {
                                        qsrc = qsrc.push(((cc.len() - 1) as int, d as int));
                                        assert(qsrc.subrange(0, old_queue.len() as int) =~= s0.subrange(
                                            0,
                                            old_queue.len() as int,
                                        ));
                                        assert forall|e: int|
                                            0 <= e < d + 1 && #[trigger] shift(current, dir8(e)) is Some
                                                && in_bounds(shift(current, dir8(e))->0, g.size) implies vv.contains(
                                            shift(current, dir8(e))->0,
                                        ) || exists|k: int|
                                            old_queue.len() <= k < queue@.len() && qsrc[k] == (
                                                cc.len() - 1,
                                                e,
                                            ) by {
                                            if e == d {
                                                assert(qsrc[queue@.len() - 1] == (cc.len() - 1, e));
                                            } else if !vv.contains(shift(current, dir8(e))->0) {
                                                let k = choose|k: int|
                                                    old_queue.len() <= k < q0.len() && s0[k] == (
                                                        cc.len() - 1,
                                                        e,
                                                    );
                                                assert(qsrc[k] == s0[k]);
                                            }
                                        }
                                    }
                                    proof {
                                        assert(queue@.subrange(head as int, queue@.len() as int)[queue@.len()
                                            - 1 - head] == n);
                                        assert forall|e: int|
                                            0 <= e < d && #[trigger] shift(current, dir8(e)) is Some
                                                && in_bounds(shift(current, dir8(e))->0, g.size)
                                                && !visited@.contains(
                                                shift(current, dir8(e))->0,
                                            ) implies queue@.subrange(
                                            head as int,
                                            queue@.len() as int,
                                        ).contains(shift(current, dir8(e))->0) by {
                                            let m = shift(current, dir8(e))->0;
                                            assert(q0.subrange(head as int, q0.len() as int).contains(m));
                                            let j = choose|j: int|
                                                0 <= j < q0.len() - head && q0.subrange(
                                                    head as int,
                                                    q0.len() as int,
                                                )[j] == m;
                                            assert(queue@.subrange(head as int, queue@.len() as int)[j]
                                                == m);
                                        }
                                        assert(queue@.subrange(0, old_queue.len() as int) =~= old_queue);
                                    }
                                }
                            },
                            None => {},
                        }
                        d = d + 1;
                    }
                }
            }
            proof {
                assert(visited@.contains(current) || g.disabled.contains(current));
                assert(queue@.subrange(0, old_queue.len() as int) =~= old_queue);
                if connected@.len() > old_connected.len() {
                    assert(connected@ == old_connected.push(current));
                    assert(visited@ == old_visited.push(current));
                    if old_connected.len() > 0 {
                        assert(visited@.contains(connected@[0]));
                        assert(old_visited.contains(old_connected[0]));
                        assert(current != start);
                        assert(old_head != 0);
                    }
                    lemma_bfs_take(
                        g,
                        start,
                        old_queue,
                        queue@,
                        old_qsrc,
                        qsrc,
                        old_connected,
                        current,
                        old_pos,
                        old_visited,
                        old_head as int,
                    );
                } else {
                    lemma_bfs_skip(g, queue@, qsrc, connected@, pos, old_visited, visited@, old_head as int);
                }
            }
            proof {
                assert(visited@.contains(current) || g.disabled.contains(current));
                assert(queue@.subrange(0, old_queue.len() as int) =~= old_queue);
                assert(connected@ == old_connected || connected@ == old_connected.push(current));
                assert(visited@ == old_visited || visited@ == old_visited.push(current));
                assert forall|k: int|
                    0 <= k < connected@.len() implies visited@.contains(#[trigger] connected@[k]) by {
                    if k < old_connected.len() {
                        assert(connected@[k] == old_connected[k]);
                        assert(old_visited.contains(old_connected[k]));
                    }
                }
                assert forall|k: int|
                    0 <= k < visited@.len() implies !g.disabled.contains(#[trigger] visited@[k]) && (
                    player_at(g, visited@[k]) == Some(player) ==> connected@.contains(visited@[k])) by {
                    if k < old_visited.len() {
                        assert(visited@[k] == old_visited[k]);
                        if player_at(g, visited@[k]) == Some(player) {
                            let j = choose|j: int| 0 <= j < old_connected.len() && old_connected[j] == visited@[k];
                            assert(connected@[j] == old_connected[j]);
                        }
                    } else {
                        assert(visited@[k] == current);
                        if player_at(g, current) == Some(player) {
                            assert(connected@[connected@.len() - 1] == current);
                        }
                    }
                }
                assert forall|k: int|
                    0 <= k < connected@.len() implies live_stone(g, player, #[trigger] connected@[k])
                        && group_of(g, start, player).contains(connected@[k]) by {
                    if k < old_connected.len() {
                        assert(connected@[k] == old_connected[k]);
                    }
                }
                assert forall|k: int|
                    0 <= k < queue@.len() implies #[trigger] queue@[k] == start || (in_bounds(
                        queue@[k],
                        g.size,
                    ) && exists|c: int|
                        0 <= c < connected@.len() && adjacent8(#[trigger] connected@[c], queue@[k])) by {
                    if k < old_queue.len() {
                        assert(queue@[k] == old_queue[k]);
                        if old_queue[k] != start {
                            let c = choose|c: int|
                                0 <= c < old_connected.len() && adjacent8(
                                    #[trigger] old_connected[c],
                                    old_queue[k],
                                );
                            assert(connected@[c] == old_connected[c]);
                        }
                    } else {
                        assert(connected@[connected@.len() - 1] == current);
                    }
                }
                assert forall|k: int, d: int|
                    0 <= k < connected@.len() && 0 <= d < 8 && #[trigger] shift(
                        connected@[k],
                        dir8(d),
                    ) is Some && in_bounds(shift(connected@[k], dir8(d))->0, g.size) implies {
                        let nb = shift(connected@[k], dir8(d))->0;
                        visited@.contains(nb) || g.disabled.contains(nb) || queue@.subrange(
                            head as int,
                            queue@.len() as int,
                        ).contains(nb)
                    } by {
                    let nb = shift(connected@[k], dir8(d))->0;
                    if k < old_connected.len() {
                        assert(connected@[k] == old_connected[k]);
                        if old_visited.contains(nb) {
                            let j = choose|j: int| 0 <= j < old_visited.len() && old_visited[j] == nb;
                            assert(visited@[j] == old_visited[j]);
                        } else if !g.disabled.contains(nb) {
                            let tail = old_queue.subrange(old_head as int, old_queue.len() as int);
                            let j = choose|j: int| 0 <= j < tail.len() && tail[j] == nb;
                            if j == 0 {
                                assert(nb == current);
                            } else {
                                assert(queue@.subrange(head as int, queue@.len() as int)[j - 1] == nb);
                            }
                        }
                    } else {
                        assert(connected@[k] == current);
                    }
                }
            }
        }
        proof {
            assert forall|q: Point| group_of(g, start, player).contains(q) implies connected@.to_set().contains(q) by {
                let path = choose|path: Seq<Point>|
                    #[trigger] is_chain(g, player, path) && path[0] == start && path.last() == q;
                lemma_chain_reached(g, start, player, connected@, visited@, path, path.len() - 1);
            }
            assert(connected@.to_set() =~= group_of(g, start, player));
            lemma_bfs_final(g, queue@, qsrc, connected@, pos, visited@, head as int);
        }
        connected
    }

    /// Whether `point` holds a captured stone.
    fn is_disabled(&self, point: &Point) -> (r: bool)
        ensures
            r == self@.disabled.contains(*point),
    {
        contains_point(&self.disabled_points, point)
    }
}


/// Direction `i` of `dir8`.
fn dir8_exec(i: usize) -> (r: (i32, i32))
    requires
        i < 8,
    ensures
        r.0 as int == dir8(i as int).0,
        r.1 as int == dir8(i as int).1,
{
    if i == 0 {
        (1, 0)
    } else if i == 1 {
        (1, 1)
    } else if i == 2 {
        (0, 1)
    } else if i == 3 {
        (-1, 1)
    } else if i == 4 {
        (-1, 0)
    } else if i == 5 {
        (-1, -1)
    } else if i == 6 {
        (0, -1)
    } else {
        (1, -1)
    }
}

/// Direction `i` of `dir4`.
fn dir4_exec(i: usize) -> (r: (i32, i32))
    requires
        i < 4,
    ensures
        r.0 as int == dir4(i as int).0,
        r.1 as int == dir4(i as int).1,
{
    if i == 0 {
        (1, 0)
    } else if i == 1 {
        (0, 1)
    } else if i == 2 {
        (-1, 0)
    } else {
        (0, -1)
    }
}

/// `p` moved by `d`, when the result is a point.
fn shift_exec(p: &Point, d: (i32, i32)) -> (r: Option<Point>)
    requires
        -1 <= d.0 <= 1,
        -1 <= d.1 <= 1,
    ensures
        r == shift(*p, (d.0 as int, d.1 as int)),
{
    let x = p.x as i64 + d.0 as i64;
    let y = p.y as i64 + d.1 as i64;
    if x < i32::MIN as i64 || x > i32::MAX as i64 || y < i32::MIN as i64 || y > i32::MAX as i64 {
        None
    } else {
        Some(Point { x: x as i32, y: y as i32 })
    }
}

proof fn lemma_shift_adjacent(a: Point, d: int)
    requires
        0 <= d < 8,
        shift(a, dir8(d)) is Some,
    ensures
        adjacent8(a, shift(a, dir8(d))->0),
{
}

proof fn lemma_adjacent_shift(a: Point, b: Point) -> (d: int)
    requires
        adjacent8(a, b),
    ensures
        0 <= d < 8,
        shift(a, dir8(d)) == Some(b),
{
    let dx = b.x - a.x;
    let dy = b.y - a.y;
    let d = if dx == 1 && dy == 0 {
        0
    } else if dx == 1 && dy == 1 {
        1
    } else if dx == 0 && dy == 1 {
        2
    } else if dx == -1 && dy == 1 {
        3
    } else if dx == -1 && dy == 0 {
        4
    } else if dx == -1 && dy == -1 {
        5
    } else if dx == 0 && dy == -1 {
        6
    } else {
        7
    };
    d
}


/// Once the search is over, every stone of a chain from `start` has been met.
proof fn lemma_chain_reached(
    g: GridModel,
    start: Point,
    player: Player,
    conn: Seq<Point>,
    vis: Seq<Point>,
    path: Seq<Point>,
    i: int,
)
    requires
        is_chain(g, player, path),
        path[0] == start,
        0 <= i < path.len(),
        vis.contains(start) || g.disabled.contains(start),
        forall|k: int|
            0 <= k < vis.len() ==> !g.disabled.contains(#[trigger] vis[k]) && (player_at(g, vis[k])
                == Some(player) ==> conn.contains(vis[k])),
        forall|k: int, d: int|
            0 <= k < conn.len() && 0 <= d < 8 && #[trigger] shift(conn[k], dir8(d)) is Some
                && in_bounds(shift(conn[k], dir8(d))->0, g.size) ==> {
                let nb = shift(conn[k], dir8(d))->0;
                vis.contains(nb) || g.disabled.contains(nb)
            },
    ensures
        conn.contains(path[i]),
    decreases i,
{
    assert(live_stone(g, player, path[i]));
    if i == 0 {
        let k = choose|k: int| 0 <= k < vis.len() && vis[k] == start;
        assert(vis[k] == start);
    } else {
        lemma_chain_reached(g, start, player, conn, vis, path, i - 1);
        let k = choose|k: int| 0 <= k < conn.len() && conn[k] == path[i - 1];
        assert(in_bounds(path[i], g.size) && adjacent8(path[i - 1], path[i]));
        let d = lemma_adjacent_shift(path[i - 1], path[i]);
        assert(shift(conn[k], dir8(d)) is Some);
        let j = choose|j: int| 0 <= j < vis.len() && vis[j] == path[i];
        assert(vis[j] == path[i]);
    }
}


/// A copy of `v`.
fn copy_points(v: &Vec<Point>) -> (r: Vec<Point>)
    ensures
        r@ == v@,
{
    let mut r: Vec<Point> = Vec::new();
    let n = v.len();
    let mut i: usize = 0;
    while i < n
        invariant
            n == v@.len(),
            i <= n,
            r@ == v@.take(i as int),
        decreases n - i,
    {
        r.push(v[i]);
        i = i + 1;
        assert(r@ =~= v@.take(i as int));
    }
    assert(v@.take(n as int) =~= v@);
    r
}

/// Number of the eight neighbours of `p` that `v` holds.
fn neighbour_count_exec(v: &Vec<Point>, p: &Point) -> (r: usize)
    ensures
        r == neighbour_count(v@.to_set(), *p),
        r <= 8,
{
    let mut count: usize = 0;
    let mut d: usize = 0;
    while d < 8
        invariant
            d <= 8,
            count == count_neighbours(v@.to_set(), *p, d as int),
            count <= d,
        decreases 8 - d,
    {
        let nb = shift_exec(p, dir8_exec(d));
        match nb {
            Some(n) => {
                if contains_point(v, &n) {
                    count = count + 1;
                }
            },
            None => {},
        }
        d = d + 1;
    }
    count
}

/// The first neighbour of `cur` in `v`, turning clockwise from direction `dir`,
/// and the direction where the next search starts.
fn next_move(v: &Vec<Point>, cur: &Point, dir: usize) -> (r: Option<(Point, usize)>)
    requires
        dir < 8,
    ensures
        match r {
            None => next_from(v@.to_set(), *cur, dir as int, 0) is None,
            Some(m) => next_from(v@.to_set(), *cur, dir as int, 0) == Some((m.0, m.1 as int)) && m.1 < 8,
        },
{
    let mut k: usize = 0;
    while k < 8
        invariant
            dir < 8,
            k <= 8,
            next_from(v@.to_set(), *cur, dir as int, 0) == next_from(v@.to_set(), *cur, dir as int, k as int),
        decreases 8 - k,
    {
        let idx = (dir + k) % 8;
        let nb = shift_exec(cur, dir8_exec(idx));
        match nb {
            Some(n) => {
                if contains_point(v, &n) {
                    return Some((n, (idx + 6) % 8));
                }
            },
            None => {},
        }
        k = k + 1;
    }
    None
}

/// The points of `v`, each once, in the order of their first occurrence.
fn distinct_points(v: &Vec<Point>) -> (r: Vec<Point>)
    ensures
        r@.no_duplicates(),
        r@.to_set() == v@.to_set(),
{
    let mut r: Vec<Point> = Vec::new();
    let n = v.len();
    let mut i: usize = 0;
    while i < n
        invariant
            n == v@.len(),
            i <= n,
            r@.no_duplicates(),
            forall|q: Point| r@.contains(q) <==> v@.take(i as int).contains(q),
        decreases n - i,
    {
        let p = v[i];
        let ghost r0 = r@;
        if !contains_point(&r, &p) {
            r.push(p);
        }
        proof {
            let t0 = v@.take(i as int);
            let t1 = v@.take(i + 1);
            assert forall|q: Point| r@.contains(q) <==> t1.contains(q) by {
                if t1.contains(q) {
                    let j = choose|j: int| 0 <= j < i + 1 && #[trigger] t1[j] == q;
                    if j < i {
                        assert(t0[j] == q);
                    }
                }
                if t0.contains(q) {
                    let j = choose|j: int| 0 <= j < i && #[trigger] t0[j] == q;
                    assert(t1[j] == q);
                }
                assert(t1[i as int] == p);
                if r@.contains(q) && !r0.contains(q) {
                    assert(q == p);
                }
            }
        }
        i = i + 1;
    }
    proof {
        assert(v@.take(n as int) =~= v@);
        assert(r@.to_set() =~= v@.to_set());
    }
    r
}

/// A walk along an outline visits no more points than its fuel allows.
proof fn lemma_trace_len(s: Set<Point>, start: Point, cur: Point, dir: int, first: bool, fuel: nat)
    ensures
        trace(s, start, cur, dir, first, fuel).len() <= fuel,
        fuel > 0 ==> trace(s, start, cur, dir, first, fuel).len() > 0 && trace(
            s,
            start,
            cur,
            dir,
            first,
            fuel,
        )[0] == cur,
    decreases fuel,
{
    if fuel > 0 {
        match next_from(s, cur, dir, 0) {
            None => {},
            Some(m) => {
                if first || m.0 != start {
                    lemma_trace_len(s, start, m.0, m.1, false, (fuel - 1) as nat);
                }
            },
        }
    }
}

/// Each point of a walk along an outline of `s` after the first lies in `s`
/// and touches the point before it.
proof fn lemma_trace_shape(s: Set<Point>, start: Point, cur: Point, dir: int, first: bool, fuel: nat)
    ensures
        forall|i: int|
            0 < i < trace(s, start, cur, dir, first, fuel).len() ==> s.contains(
                #[trigger] trace(s, start, cur, dir, first, fuel)[i],
            ) && adjacent8(
                trace(s, start, cur, dir, first, fuel)[i - 1],
                trace(s, start, cur, dir, first, fuel)[i],
            ),
    decreases fuel,
{
    if fuel > 0 {
        match next_from(s, cur, dir, 0) {
            None => {},
            Some(m) => {
                if first || m.0 != start {
                    let rest = trace(s, start, m.0, m.1, false, (fuel - 1) as nat);
                    lemma_trace_shape(s, start, m.0, m.1, false, (fuel - 1) as nat);
                    lemma_trace_len(s, start, m.0, m.1, false, (fuel - 1) as nat);
                    lemma_next_from_adjacent(s, cur, dir, 0);
                    let t = trace(s, start, cur, dir, first, fuel);
                    assert(t == seq![cur] + rest);
                    assert forall|i: int| 0 < i < t.len() implies s.contains(#[trigger] t[i]) && adjacent8(
                        t[i - 1],
                        t[i],
                    ) by {
                        assert(t[i] == rest[i - 1]);
                        if i > 1 {
                            assert(t[i - 1] == rest[i - 2]);
                        }
                    }
                }
            },
        }
    }
}

/// A neighbour that `next_from` finds touches the point it is found from.
proof fn lemma_next_from_adjacent(s: Set<Point>, cur: Point, dir: int, k: int)
    ensures
        next_from(s, cur, dir, k) matches Some(m) ==> s.contains(m.0) && adjacent8(cur, m.0),
    decreases 8 - k,
{
    if 0 <= k < 8 {
        let idx = (dir + k) % 8;
        if shift(cur, dir8(idx)) is Some {
            lemma_shift_adjacent(cur, idx);
        }
        lemma_next_from_adjacent(s, cur, dir, k + 1);
    }
}

/// The outline of the points of `input` (see `trace_polygon`); a point
/// listed more than once counts once.
fn reorder_polygon(input: &Vec<Point>) -> (r: Vec<Point>)
    ensures
        r@ == trace_polygon(input@.to_set()),
        r@.len() <= 8 * input@.to_set().len(),
        input@.len() > 0 ==> r@.len() > 0 && r@[0] == lowest(input@.to_set()),
        forall|i: int| 0 <= i < r@.len() ==> input@.contains(#[trigger] r@[i]),
        forall|i: int| 0 < i < r@.len() ==> adjacent8(r@[i - 1], #[trigger] r@[i]),
{
    let points = distinct_points(input);
    let ghost s = points@.to_set();
    proof {
        if input@.len() > 0 {
            assert(s.contains(input@[0]));
            points@.unique_seq_to_set();
        }
        lemma_trace_len(s, lowest(s), lowest(s), 0, true, (8 * s.len()) as nat);
        lemma_trace_shape(s, lowest(s), lowest(s), 0, true, (8 * s.len()) as nat);
    }
    let r = trace_distinct(&points);
    proof {
        if input@.len() == 0 {
            assert(s =~= Set::<Point>::empty());
        } else {
            assert(points@.len() > 0) by {
                assert(s.contains(input@[0]));
            }
        }
        assert forall|i: int| 0 <= i < r@.len() implies input@.contains(#[trigger] r@[i]) by {
            assert(s.len() > 0);
            assert(s.contains(r@[i]));
        }
    }
    r
}

/// The outline of the points of `points`, which lists each of them once.
fn trace_distinct(points: &Vec<Point>) -> (r: Vec<Point>)
    requires
        points@.no_duplicates(),
    ensures
        r@ == trace_polygon(points@.to_set()),
        points@.len() > 0 ==> points@.to_set().contains(lowest(points@.to_set())),
{
    let ghost s = points@.to_set();
    let n = points.len();
    proof {
        points@.unique_seq_to_set();
    }
    if n == 0 {
        return Vec::new();
    }
    let mut start = points[0];
    let mut i: usize = 1;
    while i < n
        invariant
            n == points@.len(),
            1 <= i <= n,
            points@.take(i as int).contains(start),
            forall|j: int| 0 <= j < i ==> before_eq(start, #[trigger] points@[j]),
        decreases n - i,
    {
        let q = points[i];
        if q.y < start.y || (q.y == start.y && q.x < start.x) {
            start = q;
        }
        i = i + 1;
        assert(points@.take(i as int).contains(start)) by {
            if start == q {
                assert(points@.take(i as int)[i - 1] == q);
            } else {
                let j = choose|j: int| 0 <= j < i - 1 && #[trigger] points@.take(i - 1)[j] == start;
                assert(points@.take(i as int)[j] == start);
            }
        }
    }
    proof {
        assert(points@.take(n as int) =~= points@);
        assert forall|q: Point| s.contains(q) implies #[trigger] before_eq(start, q) by {
            let j = choose|j: int| 0 <= j < n && points@[j] == q;
            assert(before_eq(start, points@[j]));
        }
        assert(s.contains(start));
        assert(s.contains(start) && forall|q: Point| s.contains(q) ==> #[trigger] before_eq(start, q));
        let l = lowest(s);
        assert(s.contains(l) && forall|q: Point| s.contains(q) ==> #[trigger] before_eq(l, q));
        assert(before_eq(l, start) && before_eq(start, l));
        assert(l == start);
    }
    let ghost total = trace(s, start, start, 0, true, (8 * s.len()) as nat);
    let fuel: u128 = 8 * (n as u128);
    let mut contour: Vec<Point> = Vec::new();
    let mut current = start;
    let mut dir: usize = 0;
    let mut first = true;
    let mut steps: u128 = 0;
    let mut done = false;
    while !done && steps < fuel
        invariant
            s == points@.to_set(),
            n == s.len(),
            fuel == 8 * n,
            steps <= fuel,
            dir < 8,
            done ==> contour@ == total,
            !done ==> contour@ + trace(s, start, current, dir as int, first, (fuel - steps) as nat)
                == total,
        decreases fuel - steps,
    {
        let ghost rest = trace(s, start, current, dir as int, first, (fuel - steps) as nat);
        contour.push(current);
        steps = steps + 1;
        match next_move(points, &current, dir) {
            None => {
                done = true;
                assert(contour@ =~= total);
            },
            Some(m) => {
                if !first && m.0.equals(&start) {
                    done = true;
                    assert(contour@ =~= total);
                } else {
                    assert(rest == seq![current] + trace(
                        s,
                        start,
                        m.0,
                        m.1 as int,
                        false,
                        (fuel - steps) as nat,
                    ));
                    current = m.0;
                    dir = m.1;
                    first = false;
                    assert(contour@ + trace(s, start, current, dir as int, first, (fuel - steps) as nat)
                        =~= total);
                }
            },
        }
    }
    if !done {
        assert(contour@ =~= total);
    }
    contour
}

/// The closed loop within the stones `points` (see `closed_loop_of`).
fn find_closed_loop(points: &Vec<Point>) -> (r: Vec<Point>)
    ensures
        r@ == closed_loop_of(points@),
{
    let ghost target = pruned(points@.to_set());
    let mut loop_points = distinct_points(points);
    let mut changed = true;
    while changed
        invariant
            loop_points@.no_duplicates(),
            pruned(loop_points@.to_set()) == target,
            !changed ==> prune_step(loop_points@.to_set()) == loop_points@.to_set(),
        decreases loop_points@.len() + if changed {
            1int
        } else {
            0int
        },
    {
        let ghost s = loop_points@.to_set();
        changed = false;
        let n = loop_points.len();
        let mut kept: Vec<Point> = Vec::new();
        let mut i: usize = 0;
        while i < n
            invariant
                n == loop_points@.len(),
                s == loop_points@.to_set(),
                loop_points@.no_duplicates(),
                i <= n,
                kept@.len() <= i,
                kept@.no_duplicates(),
                forall|q: Point|
                    kept@.contains(q) <==> (exists|j: int|
                        0 <= j < i && #[trigger] loop_points@[j] == q && neighbour_count(s, q) != 1),
                kept@.len() == i ==> forall|j: int|
                    0 <= j < i ==> neighbour_count(s, #[trigger] loop_points@[j]) != 1,
                kept@.len() < i ==> exists|j: int|
                    0 <= j < i && neighbour_count(s, #[trigger] loop_points@[j]) == 1,
            decreases n - i,
        {
            let p = loop_points[i];
            let c = neighbour_count_exec(&loop_points, &p);
            let ghost k0 = kept@;
            if c != 1 {
                proof {
                    if kept@.contains(p) {
                        let j = choose|j: int|
                            0 <= j < i && #[trigger] loop_points@[j] == p && neighbour_count(s, p) != 1;
                        assert(loop_points@[j] == loop_points@[i as int]);
                    }
                }
                kept.push(p);
                proof {
                    assert forall|q: Point|
                        kept@.contains(q) <==> (exists|j: int|
                            0 <= j < i + 1 && #[trigger] loop_points@[j] == q && neighbour_count(s, q)
                                != 1) by {
                        if kept@.contains(q) && q != p {
                            let j = choose|j: int| 0 <= j < kept@.len() && kept@[j] == q;
                            assert(k0[j] == q);
                        }
                        if exists|j: int|
                            0 <= j < i + 1 && #[trigger] loop_points@[j] == q && neighbour_count(s, q)
                                != 1 {
                            if q != p {
                                let j = choose|j: int|
                                    0 <= j < i + 1 && #[trigger] loop_points@[j] == q
                                        && neighbour_count(s, q) != 1;
                                assert(k0.contains(q));
                                let m = choose|m: int| 0 <= m < k0.len() && k0[m] == q;
                                assert(kept@[m] == q);
                            } else {
                                assert(kept@[kept@.len() - 1] == p);
                            }
                        }
                    }
                }
            } else {
                proof {
                    assert forall|q: Point|
                        kept@.contains(q) <==> (exists|j: int|
                            0 <= j < i + 1 && #[trigger] loop_points@[j] == q && neighbour_count(s, q)
                                != 1) by {
                        if exists|j: int|
                            0 <= j < i + 1 && #[trigger] loop_points@[j] == q && neighbour_count(s, q)
                                != 1 {
                            let j = choose|j: int|
                                0 <= j < i + 1 && #[trigger] loop_points@[j] == q && neighbour_count(s, q)
                                    != 1;
                            assert(j != i);
                        }
                    }
                    assert(neighbour_count(s, loop_points@[i as int]) == 1);
                }
            }
            i = i + 1;
        }
        proof {
            assert forall|q: Point| kept@.to_set().contains(q) <==> prune_step(s).contains(q) by {
                if prune_step(s).contains(q) {
                    let j = choose|j: int| 0 <= j < n && loop_points@[j] == q;
                    assert(loop_points@[j] == q);
                }
            }
            assert(kept@.to_set() =~= prune_step(s));
        }
        if kept.len() < n {
            proof {
                let j = choose|j: int| 0 <= j < n && neighbour_count(s, #[trigger] loop_points@[j]) == 1;
                assert(s.contains(loop_points@[j]));
                assert(!prune_step(s).contains(loop_points@[j]));
                assert(prune_step(s) != s);
                assert(pruned(s) == pruned(prune_step(s)));
            }
            loop_points = kept;
            changed = true;
        } else {
            proof {
                assert forall|q: Point| s.contains(q) implies prune_step(s).contains(q) by {
                    let j = choose|j: int| 0 <= j < n && loop_points@[j] == q;
                    assert(neighbour_count(s, loop_points@[j]) != 1);
                }
                assert(prune_step(s) =~= s);
            }
        }
    }
    proof {
        let s = loop_points@.to_set();
        assert(pruned(s) == s);
    }
    let n = points.len();
    let mut count: usize = 0;
    let mut i: usize = 0;
    while i < n
        invariant
            n == points@.len(),
            i <= n,
            count <= i,
            count == count_in(points@.take(i as int), target),
            loop_points@.to_set() == target,
        decreases n - i,
    {
        proof {
            assert(points@.take(i + 1).drop_last() =~= points@.take(i as int));
        }
        if contains_point(&loop_points, &points[i]) {
            count = count + 1;
        }
        i = i + 1;
    }
    proof {
        assert(points@.take(n as int) =~= points@);
    }
    if count >= 4 {
        reorder_polygon(&loop_points)
    } else {
        Vec::new()
    }
}


/// What the scan of a bounding box has found once it has visited the points of `done`.
pub open spec fn scan_state(
    g0: GridModel,
    g: GridModel,
    poly: Seq<Point>,
    player: Player,
    done: Set<Point>,
    capture: Seq<Point>,
    enclosed: Seq<Point>,
    perimeter: Seq<Point>,
) -> bool {
    &&& capture.no_duplicates()
    &&& enclosed.no_duplicates()
    &&& perimeter.no_duplicates()
    &&& forall|q: Point| #[trigger] capture.contains(q) <==> done.contains(q) && in_polygon(q, poly)
    &&& forall|q: Point|
        #[trigger] enclosed.contains(q) <==> done.contains(q) && in_polygon(q, poly)
            && !g0.disabled.contains(q) && opponent_stone(g0, q, player)
    &&& forall|q: Point|
        #[trigger] perimeter.contains(q) <==> !in_polygon(q, poly) && exists|d: int|
            0 <= d < 4 && #[trigger] back4(q, d) is Some && capture.contains(back4(q, d)->0)
    &&& g == GridModel { disabled: g0.disabled + enclosed.to_set(), ..g0 }
}

proof fn lemma_shift_back4(p: Point, d: int)
    requires
        0 <= d < 4,
        shift(p, dir4(d)) is Some,
    ensures
        back4(shift(p, dir4(d))->0, d) == Some(p),
{
}

proof fn lemma_back4_shift(q: Point, d: int)
    requires
        0 <= d < 4,
        back4(q, d) is Some,
    ensures
        shift(back4(q, d)->0, dir4(d)) == Some(q),
{
}

/// Whether `a` and `b` hold the same points in the same order.
fn same_points(a: &Vec<Point>, b: &Vec<Point>) -> (r: bool)
    ensures
        r == (a@ == b@),
{
    if a.len() != b.len() {
        return false;
    }
    let n = a.len();
    let mut i: usize = 0;
    while i < n
        invariant
            n == a@.len(),
            n == b@.len(),
            i <= n,
            forall|j: int| 0 <= j < i ==> a@[j] == b@[j],
        decreases n - i,
    {
        if !a[i].equals(&b[i]) {
            return false;
        }
        i = i + 1;
    }
    assert(a@ =~= b@);
    true
}

/// The bounding box of a non-empty list of points: `(min_x, max_x, min_y, max_y)`.
fn bounding_box(s: &Vec<Point>) -> (r: (i32, i32, i32, i32))
    requires
        s@.len() > 0,
    ensures
        r.0 == min_x(s@),
        r.1 == max_x(s@),
        r.2 == min_y(s@),
        r.3 == max_y(s@),
{
    let mut a = s[0].x;
    let mut b = s[0].x;
    let mut c = s[0].y;
    let mut d = s[0].y;
    let n = s.len();
    let mut i: usize = 1;
    while i < n
        invariant
            n == s@.len(),
            1 <= i <= n,
            a == min_x(s@.take(i as int)),
            b == max_x(s@.take(i as int)),
            c == min_y(s@.take(i as int)),
            d == max_y(s@.take(i as int)),
        decreases n - i,
    {
        let p = s[i];
        assert(s@.take(i + 1).drop_last() =~= s@.take(i as int));
        if p.x < a {
            a = p.x;
        }
        if p.x > b {
            b = p.x;
        }
        if p.y < c {
            c = p.y;
        }
        if p.y > d {
            d = p.y;
        }
        i = i + 1;
    }
    assert(s@.take(n as int) =~= s@);
    (a, b, c, d)
}

/// `p` comes before `q` when the box is scanned column by column: a smaller
/// `x`, or the same `x` and a smaller `y`.
pub open spec fn column_before(p: Point, q: Point) -> bool {
    p.x < q.x || (p.x == q.x && p.y < q.y)
}

/// The points of `s` come in the order of a scan column by column.
pub open spec fn column_sorted(s: Seq<Point>) -> bool {
    forall|i: int, j: int| 0 <= i < j < s.len() ==> column_before(#[trigger] s[i], #[trigger] s[j])
}

/// The points of the box visited before `(x, y)`, column by column.
pub open spec fn scanned(poly: Seq<Point>, x: int, y: int) -> Set<Point> {
    Set::new(|q: Point| in_box(q, poly) && (q.x < x || (q.x == x && q.y < y)))
}

impl Grid {
    /// Records that `poly` is a polygon of `owner`.
    fn insert_loop(&mut self, poly: Vec<Point>, owner: Player)
        requires
            old(self).wf(),
        ensures
            final(self).wf(),
            final(self)@ == (GridModel {
                loops: loops_insert(old(self)@.loops, poly@, owner),
                ..old(self)@
            }),
    {
        let ghost l = self@.loops;
        let n = self.polygon_loops.len();
        let mut i: usize = 0;
        while i < n
            invariant
                n == self.polygon_loops@.len(),
                self@.loops == l,
                l == old(self)@.loops,
                self.wf(),
                self.occupied_cells@ == old(self).occupied_cells@,
                self.disabled_points@ == old(self).disabled_points@,
                self.size == old(self).size,
                i <= n,
                loop_index(l, poly@, 0) == loop_index(l, poly@, i as int),
                forall|j: int| 0 <= j < i ==> l[j].0 != poly@,
            decreases n - i,
        {
            if same_points(&self.polygon_loops[i].0, &poly) {
                let ghost before = self.polygon_loops@;
                let entry = (poly, owner);
                self.polygon_loops.set(i, entry);
                proof {
                    assert(self@.loops =~= l.update(i as int, (before[i as int].0@, owner)));
                    assert(self@.cells == old(self)@.cells);
                    assert(self@.disabled == old(self)@.disabled);
                    assert forall|a: int, b: int|
                        0 <= a < b < self@.loops.len() implies self@.loops[a].0 != self@.loops[b].0 by {
                        assert(l[a].0 != l[b].0);
                    }
                }
                return;
            }
            i = i + 1;
        }
        let ghost before = self.polygon_loops@;
        let entry = (poly, owner);
        self.polygon_loops.push(entry);
        proof {
            assert(self@.loops =~= l.push((poly@, owner)));
            assert forall|a: int, b: int|
                0 <= a < b < self@.loops.len() implies self@.loops[a].0 != self@.loops[b].0 by {
                if b < l.len() {
                    assert(l[a].0 != l[b].0);
                } else {
                    assert(l[a].0 != poly@);
                }
            }
        }
    }

    /// Visits point `p` of the bounding box of `poly`.
    fn visit_point(
        &mut self,
        p: Point,
        poly: &Vec<Point>,
        player: Player,
        capture: &mut Vec<Point>,
        enclosed: &mut Vec<Point>,
        perimeter: &mut Vec<Point>,
        Ghost(g0): Ghost<GridModel>,
        Ghost(done): Ghost<Set<Point>>,
    )
        requires
            old(self).wf(),
            scan_state(
                g0,
                old(self)@,
                poly@,
                player,
                done,
                old(capture)@,
                old(enclosed)@,
                old(perimeter)@,
            ),
            !done.contains(p),
            column_sorted(old(enclosed)@),
            forall|q: Point| #[trigger] done.contains(q) ==> column_before(q, p),
        ensures
            final(self).wf(),
            scan_state(
                g0,
                final(self)@,
                poly@,
                player,
                done.insert(p),
                final(capture)@,
                final(enclosed)@,
                final(perimeter)@,
            ),
            column_sorted(final(enclosed)@),
    {
        let ghost c0 = capture@;
        let ghost e0 = enclosed@;
        let ghost d0 = self.disabled_points@;
        if !p.is_point_in_polygon(poly.as_slice()) {
            proof {
                assert forall|q: Point| #[trigger] capture@.contains(q) <==> done.insert(p).contains(q)
                    && in_polygon(q, poly@) by {}
                assert forall|q: Point|
                    #[trigger] enclosed@.contains(q) <==> done.insert(p).contains(q) && in_polygon(
                        q,
                        poly@,
                    ) && !g0.disabled.contains(q) && opponent_stone(g0, q, player) by {}
            }
            return;
        }
        proof {
            assert(!capture@.contains(p));
        }
        capture.push(p);
        proof {
            assert forall|q: Point| #[trigger] capture@.contains(q) <==> (c0.contains(q) || q == p) by {
                if capture@.contains(q) && q != p {
                    let j = choose|j: int| 0 <= j < capture@.len() && capture@[j] == q;
                    assert(c0[j] == q);
                }
                if c0.contains(q) {
                    let j = choose|j: int| 0 <= j < c0.len() && c0[j] == q;
                    assert(capture@[j] == q);
                }
                if q == p {
                    assert(capture@[capture@.len() - 1] == p);
                }
            }
        }
        let disabled = self.is_disabled(&p);
        if !disabled {
            let owner = self.get_player_at(&p);
            match owner {
                Some(o) => {
                    if o != player {
                        proof {
                            assert(!enclosed@.contains(p));
                            assert(!self.disabled_points@.contains(p));
                            assert(player_at(g0, p) == player_at(self@, p));
                        }
                        enclosed.push(p);
                        self.disabled_points.push(p);
                        proof {
                            assert forall|q: Point| #[trigger] enclosed@.contains(q) <==> (e0.contains(q)
                                || q == p) by {
                                if enclosed@.contains(q) && q != p {
                                    let j = choose|j: int| 0 <= j < enclosed@.len() && enclosed@[j] == q;
                                    assert(e0[j] == q);
                                }
                                if e0.contains(q) {
                                    let j = choose|j: int| 0 <= j < e0.len() && e0[j] == q;
                                    assert(enclosed@[j] == q);
                                }
                                if q == p {
                                    assert(enclosed@[enclosed@.len() - 1] == p);
                                }
                            }
                            assert(self.disabled_points@.to_set() =~= d0.to_set().insert(p));
                            assert(enclosed@.to_set() =~= e0.to_set().insert(p));
                            assert forall|i: int, j: int|
                                0 <= i < j < enclosed@.len() implies column_before(
                                #[trigger] enclosed@[i],
                                #[trigger] enclosed@[j],
                            ) by {
                                assert(enclosed@[i] == e0[i]);
                                if j < e0.len() {
                                    assert(enclosed@[j] == e0[j]);
                                } else {
                                    assert(e0.contains(e0[i]));
                                    assert(done.contains(e0[i]));
                                }
                            }
                        }
                    }
                },
                None => {},
            }
        }
        proof {
            assert(player_at(g0, p) == player_at(self@, p) || enclosed@.contains(p));
            assert forall|q: Point|
                #[trigger] enclosed@.contains(q) <==> done.insert(p).contains(q) && in_polygon(q, poly@)
                    && !g0.disabled.contains(q) && opponent_stone(g0, q, player) by {
                if q == p && !enclosed@.contains(p) {
                    assert(g0.disabled.contains(p) || !opponent_stone(g0, p, player));
                }
            }
            assert(self@ =~= (GridModel { disabled: g0.disabled + enclosed@.to_set(), ..g0 }));
        }
        let mut d: usize = 0;
        while d < 4
            invariant
                d <= 4,
                capture@.contains(p),
                forall|q: Point| #[trigger] capture@.contains(q) <==> (c0.contains(q) || q == p),
                perimeter@.no_duplicates(),
                forall|q: Point|
                    #[trigger] perimeter@.contains(q) <==> !in_polygon(q, poly@) && ((exists|e: int|
                        0 <= e < 4 && #[trigger] back4(q, e) is Some && c0.contains(back4(q, e)->0))
                        || exists|e: int|
                        0 <= e < d && back4(q, e) == Some(p)),
            decreases 4 - d,
        {
            let nb = shift_exec(&p, dir4_exec(d));
            let ghost pm0 = perimeter@;
            match nb {
                Some(n) => {
                    proof {
                        lemma_shift_back4(p, d as int);
                    }
                    if !n.is_point_in_polygon(poly.as_slice()) && !contains_point(perimeter, &n) {
                        perimeter.push(n);
                        proof {
                            assert forall|q: Point| #[trigger] perimeter@.contains(q) <==> (pm0.contains(q)
                                || q == n) by {
                                if perimeter@.contains(q) && q != n {
                                    let j = choose|j: int| 0 <= j < perimeter@.len() && perimeter@[j] == q;
                                    assert(pm0[j] == q);
                                }
                                if pm0.contains(q) {
                                    let j = choose|j: int| 0 <= j < pm0.len() && pm0[j] == q;
                                    assert(perimeter@[j] == q);
                                }
                                if q == n {
                                    assert(perimeter@[perimeter@.len() - 1] == n);
                                }
                            }
                        }
                    }
                    proof {
                        assert forall|q: Point|
                            #[trigger] perimeter@.contains(q) <==> !in_polygon(q, poly@) && ((exists|e: int|
                                0 <= e < 4 && #[trigger] back4(q, e) is Some && c0.contains(
                                    back4(q, e)->0,
                                )) || exists|e: int| 0 <= e < d + 1 && back4(q, e) == Some(p)) by {
                            if exists|e: int| 0 <= e < d + 1 && back4(q, e) == Some(p) {
                                let e = choose|e: int| 0 <= e < d + 1 && back4(q, e) == Some(p);
                                if e == d {
                                    lemma_back4_shift(q, e);
                                    assert(q == n);
                                }
                            }
                        }
                    }
                },
                None => {
                    proof {
                        assert forall|q: Point|
                            #[trigger] perimeter@.contains(q) <==> !in_polygon(q, poly@) && ((exists|e: int|
                                0 <= e < 4 && #[trigger] back4(q, e) is Some && c0.contains(
                                    back4(q, e)->0,
                                )) || exists|e: int| 0 <= e < d + 1 && back4(q, e) == Some(p)) by {
                            if exists|e: int| 0 <= e < d + 1 && back4(q, e) == Some(p) {
                                let e = choose|e: int| 0 <= e < d + 1 && back4(q, e) == Some(p);
                                if e == d {
                                    lemma_back4_shift(q, e);
                                }
                            }
                        }
                    }
                },
            }
            d = d + 1;
        }
        proof {
            assert forall|q: Point|
                #[trigger] perimeter@.contains(q) <==> !in_polygon(q, poly@) && exists|e: int|
                    0 <= e < 4 && #[trigger] back4(q, e) is Some && capture@.contains(back4(q, e)->0) by {
                if !in_polygon(q, poly@) && exists|e: int|
                    0 <= e < 4 && #[trigger] back4(q, e) is Some && capture@.contains(back4(q, e)->0) {
                    let e = choose|e: int|
                        0 <= e < 4 && #[trigger] back4(q, e) is Some && capture@.contains(back4(q, e)->0);
                    if !c0.contains(back4(q, e)->0) {
                        assert(back4(q, e) == Some(p));
                    }
                }
            }
        }
    }

    /// Scans the bounding box of `poly`, column by column, and captures the
    /// opponent stones inside it. Returns the points inside, the captured
    /// stones, and the points outside that touch the inside by a side.
    fn scan_box(&mut self, poly: &Vec<Point>, player: Player) -> (r: (Vec<Point>, Vec<Point>, Vec<Point>))
        requires
            old(self).wf(),
            poly@.len() > 0,
        ensures
            final(self).wf(),
            scan_state(
                old(self)@,
                final(self)@,
                poly@,
                player,
                scanned(poly@, max_x(poly@) + 1, min_y(poly@)),
                r.0@,
                r.1@,
                r.2@,
            ),
            column_sorted(r.1@),
    {
        let ghost g0 = self@;
        let (bx0, bx1, by0, by1) = bounding_box(poly);
        let mut capture: Vec<Point> = Vec::new();
        let mut enclosed: Vec<Point> = Vec::new();
        let mut perimeter: Vec<Point> = Vec::new();
        proof {
            assert(enclosed@.to_set() =~= Set::<Point>::empty());
            assert(self@ =~= (GridModel { disabled: g0.disabled + enclosed@.to_set(), ..g0 }));
            assert(scanned(poly@, bx0 as int, by0 as int) =~= Set::<Point>::empty());
        }
        let mut x: i64 = bx0 as i64;
        while x <= bx1 as i64
            invariant
                self.wf(),
                bx0 == min_x(poly@),
                bx1 == max_x(poly@),
                by0 == min_y(poly@),
                by1 == max_y(poly@),
                bx0 <= x <= bx1 as int + 1,
                scan_state(
                    g0,
                    self@,
                    poly@,
                    player,
                    scanned(poly@, x as int, by0 as int),
                    capture@,
                    enclosed@,
                    perimeter@,
                ),
                column_sorted(enclosed@),
            decreases bx1 as int + 1 - x,
        {
            let mut y: i64 = by0 as i64;
            while y <= by1 as i64
                invariant
                    self.wf(),
                    bx0 == min_x(poly@),
                    bx1 == max_x(poly@),
                    by0 == min_y(poly@),
                    by1 == max_y(poly@),
                    bx0 <= x <= bx1,
                    by0 <= y <= by1 as int + 1,
                    scan_state(
                        g0,
                        self@,
                        poly@,
                        player,
                        scanned(poly@, x as int, y as int),
                        capture@,
                        enclosed@,
                        perimeter@,
                    ),
                    column_sorted(enclosed@),
                decreases by1 as int + 1 - y,
            {
                let p = Point { x: x as i32, y: y as i32 };
                self.visit_point(
                    p,
                    poly,
                    player,
                    &mut capture,
                    &mut enclosed,
                    &mut perimeter,
                    Ghost(g0),
                    Ghost(scanned(poly@, x as int, y as int)),
                );
                proof {
                    assert(scanned(poly@, x as int, y as int).insert(p) =~= scanned(
                        poly@,
                        x as int,
                        y + 1,
                    ));
                }
                y = y + 1;
            }
            proof {
                assert(scanned(poly@, x as int, y as int) =~= scanned(poly@, x + 1, by0 as int));
            }
            x = x + 1;
        }
        (capture, enclosed, perimeter)
    }
}


impl Grid {
    /// Marks as neutral the empty cells among `capture`.
    fn neutralise(&mut self, capture: &Vec<Point>, Ghost(g0): Ghost<GridModel>)
        requires
            old(self).wf(),
            capture@.no_duplicates(),
            old(self)@.cells == g0.cells,
        ensures
            final(self).wf(),
            final(self)@ == (GridModel {
                cells: g0.cells.union_prefer_right(
                    Map::new(
                        |q: Point| capture@.contains(q) && player_at(g0, q) is None,
                        |q: Point| None::<Player>,
                    ),
                ),
                ..old(self)@
            }),
    {
        let ghost g1 = self@;
        let n = capture.len();
        let mut i: usize = 0;
        while i < n
            invariant
                n == capture@.len(),
                capture@.no_duplicates(),
                i <= n,
                self.wf(),
                self@ == (GridModel {
                    cells: g0.cells.union_prefer_right(
                        Map::new(
                            |q: Point| capture@.take(i as int).contains(q) && player_at(g0, q) is None,
                            |q: Point| None::<Player>,
                        ),
                    ),
                    ..g1
                }),
            decreases n - i,
        {
            let p = capture[i];
            proof {
                assert(!capture@.take(i as int).contains(p));
                assert(player_at(self@, p) == player_at(g0, p));
            }
            let owner = self.get_player_at(&p);
            if owner.is_none() {
                self.set_cell(p, None);
            }
            proof {
                assert(capture@.take(i + 1) =~= capture@.take(i as int).push(p));
                assert(self@.cells =~= g0.cells.union_prefer_right(
                    Map::new(
                        |q: Point| capture@.take(i + 1).contains(q) && player_at(g0, q) is None,
                        |q: Point| None::<Player>,
                    ),
                ));
            }
            i = i + 1;
        }
        assert(capture@.take(n as int) =~= capture@);
    }

    /// `player` closes the polygon `loop_points` (see `enclose`): returns the
    /// captured stones and the outline of the captured region.
    #[verifier::spinoff_prover]
    #[verifier::rlimit(60)]
    fn find_enclosed_points(&mut self, loop_points: &Vec<Point>, player: Player) -> (r: (
        Vec<Point>,
        Vec<Point>,
    ))
        requires
            old(self).wf(),
        ensures
            final(self).wf(),
            r.0@.no_duplicates(),
            column_sorted(r.0@),
            (final(self)@, r.0@.to_set(), r.1@) == enclose(old(self)@, loop_points@, player),
    {
        let ghost g0 = self@;
        let ghost poly = loop_points@;
        if loop_points.len() == 0 {
            let e: Vec<Point> = Vec::new();
            assert(e@.to_set() =~= Set::<Point>::empty());
            return (e, Vec::new());
        }
        let (capture, enclosed, perimeter) = self.scan_box(loop_points, player);
        proof {
            lemma_scan_complete(g0, self@, poly, player, capture@, enclosed@, perimeter@);
        }
        let ghost g1 = self@;
        if enclosed.len() > 0 {
            self.neutralise(&capture, Ghost(g0));
        }
        let ghost g2 = self@;
        let perimeter_points = reorder_polygon(&perimeter);
        if enclosed.len() == 0 && capture.len() > 0 {
            let outline = copy_points(&perimeter_points);
            self.insert_loop(outline, player);
        }
        proof {
            lemma_enclose_result(g0, g1, g2, self@, poly, player, capture@, enclosed@, perimeter_points@);
        }
        (enclosed, perimeter_points)
    }
}


proof fn lemma_scan_complete(
    g0: GridModel,
    g: GridModel,
    poly: Seq<Point>,
    player: Player,
    capture: Seq<Point>,
    enclosed: Seq<Point>,
    perimeter: Seq<Point>,
)
    requires
        poly.len() > 0,
        scan_state(
            g0,
            g,
            poly,
            player,
            scanned(poly, max_x(poly) + 1, min_y(poly)),
            capture,
            enclosed,
            perimeter,
        ),
    ensures
        capture.to_set() == capture_set(poly),
        enclosed.to_set() == enclosed_set(g0, poly, player),
        perimeter.to_set() == perimeter_set(poly),
        g == (GridModel { disabled: g0.disabled + enclosed_set(g0, poly, player), ..g0 }),
        enclosed.len() > 0 <==> enclosed_set(g0, poly, player) != Set::<Point>::empty(),
        capture.len() > 0 <==> capture_set(poly) != Set::<Point>::empty(),
{
    assert(capture.to_set() =~= capture_set(poly));
    assert(enclosed.to_set() =~= enclosed_set(g0, poly, player));
    assert(perimeter.to_set() =~= perimeter_set(poly));
    if enclosed.len() > 0 {
        assert(enclosed.to_set().contains(enclosed[0]));
    } else {
        assert(enclosed.to_set() =~= Set::<Point>::empty());
    }
    if capture.len() > 0 {
        assert(capture.to_set().contains(capture[0]));
    } else {
        assert(capture.to_set() =~= Set::<Point>::empty());
    }
}

proof fn lemma_enclose_result(
    g0: GridModel,
    g1: GridModel,
    g2: GridModel,
    g3: GridModel,
    poly: Seq<Point>,
    player: Player,
    capture: Seq<Point>,
    enclosed: Seq<Point>,
    outline: Seq<Point>,
)
    requires
        poly.len() > 0,
        capture.to_set() == capture_set(poly),
        enclosed.to_set() == enclosed_set(g0, poly, player),
        enclosed.len() > 0 <==> enclosed_set(g0, poly, player) != Set::<Point>::empty(),
        capture.len() > 0 <==> capture_set(poly) != Set::<Point>::empty(),
        g1 == (GridModel { disabled: g0.disabled + enclosed_set(g0, poly, player), ..g0 }),
        enclosed.len() > 0 ==> g2 == (GridModel {
            cells: g0.cells.union_prefer_right(
                Map::new(
                    |q: Point| capture.contains(q) && player_at(g0, q) is None,
                    |q: Point| None::<Player>,
                ),
            ),
            ..g1
        }),
        enclosed.len() == 0 ==> g2 == g1,
        outline == trace_polygon(perimeter_set(poly)),
        enclosed.len() == 0 && capture.len() > 0 ==> g3 == (GridModel {
            loops: loops_insert(g2.loops, outline, player),
            ..g2
        }),
        !(enclosed.len() == 0 && capture.len() > 0) ==> g3 == g2,
    ensures
        (g3, enclosed.to_set(), outline) == enclose(g0, poly, player),
{
    let (m, enc, out) = enclose(g0, poly, player);
    if enclosed.len() > 0 {
        assert(Map::new(
            |q: Point| capture.contains(q) && player_at(g0, q) is None,
            |q: Point| None::<Player>,
        ) =~= neutralised(g0, poly)) by {
            assert forall|q: Point| capture.contains(q) <==> capture_set(poly).contains(q) by {
                assert(capture.to_set().contains(q) <==> capture.contains(q));
            }
        }
    }
    assert(g3.cells =~= m.cells);
    assert(g3.disabled =~= m.disabled);
    assert(g3.loops =~= m.loops);
    assert(g3 =~= m);
}


impl Grid {
    /// Position of the first polygon of an opponent of `player` that holds `point` inside.
    fn find_capturing_loop(&self, point: &Point, player: Player) -> (r: Option<usize>)
        ensures
            r is None ==> capturing_loop(self@.loops, *point, player, 0) == self@.loops.len(),
            r matches Some(i) ==> i == capturing_loop(self@.loops, *point, player, 0) && i
                < self@.loops.len(),
    {
        let n = self.polygon_loops.len();
        let mut i: usize = 0;
        while i < n
            invariant
                n == self@.loops.len(),
                i <= n,
                capturing_loop(self@.loops, *point, player, 0) == capturing_loop(
                    self@.loops,
                    *point,
                    player,
                    i as int,
                ),
            decreases n - i,
        {
            let owner = self.polygon_loops[i].1;
            if owner != player && point.is_point_in_polygon(self.polygon_loops[i].0.as_slice()) {
                return Some(i);
            }
            i = i + 1;
        }
        None
    }

    /// Drops the polygon at position `i`.
    fn remove_loop(&mut self, i: usize)
        requires
            old(self).wf(),
            i < old(self)@.loops.len(),
        ensures
            final(self).wf(),
            final(self)@ == (GridModel { loops: old(self)@.loops.remove(i as int), ..old(self)@ }),
    {
        let ghost l = self@.loops;
        self.polygon_loops.remove(i);
        proof {
            assert(self@.loops =~= l.remove(i as int));
            assert forall|a: int, b: int|
                0 <= a < b < self@.loops.len() implies self@.loops[a].0 != self@.loops[b].0 by {
                let a2 = if a < i { a } else { a + 1 };
                let b2 = if b < i { b } else { b + 1 };
                assert(l[a2].0 != l[b2].0);
            }
            assert(self@ =~= (GridModel { loops: l.remove(i as int), ..old(self)@ }));
        }
    }

    /// Puts a stone of `player` on `point` and captures what it closes (see `place_stone_spec`).
    pub fn place_stone(&mut self, point: Point, player: Player) -> (r: Option<PlaceStoneResult>)
        requires
            old(self).wf(),
        ensures
            final(self).wf(),
            final(self)@ == place_stone_spec(old(self)@, point, player).0,
            result_model(r) == place_stone_spec(old(self)@, point, player).1,
            r matches Some(res) ==> res.enclosed_points == final(self)@.disabled.difference(
                old(self)@.disabled,
            ).len(),
    {
        let ghost g = self@;
        self.set_cell(point, Some(player));
        let ghost g1 = self@;
        let connected = self.find_connected_stones(&point, player);
        let closed_loop = find_closed_loop(&connected);
        proof {
            lemma_closed_loop_distinct(connected@);
        }
        let (enclosed, perimeter) = self.find_enclosed_points(&closed_loop, player);
        let ghost g2 = self@;
        proof {
            enclosed@.unique_seq_to_set();
            enclosed@.lemma_cardinality_of_empty_set_is_0();
            if enclosed@.len() == 0 {
                assert(enclosed@.to_set() =~= Set::<Point>::empty());
            }
        }
        if enclosed.len() == 0 {
            match self.find_capturing_loop(&point, player) {
                Some(i) => {
                    let poly_clone = copy_points(&self.polygon_loops[i].0);
                    let owner = self.polygon_loops[i].1;
                    self.remove_loop(i);
                    let (enclosed2, perimeter2) = self.find_enclosed_points(&poly_clone, owner);
                    proof {
                        enclosed2@.unique_seq_to_set();
                        assert(g2.disabled =~= g.disabled);
                        assert(self@.disabled.difference(g.disabled) =~= enclosed2@.to_set());
                    }
                    return Some(
                        PlaceStoneResult {
                            closed_loop: perimeter2,
                            enclosed_points: enclosed2.len(),
                            is_closer: true,
                        },
                    );
                },
                None => {
                    return None;
                },
            }
        }
        proof {
            assert(self@.disabled.difference(g.disabled) =~= enclosed@.to_set());
        }
        Some(PlaceStoneResult { closed_loop: perimeter, enclosed_points: enclosed.len(), is_closer: false })
    }
}


impl Grid {
    /// Every occupied cell, by its key `"x,y"`, with what it holds, in the order
    /// in which the cells were first occupied.
    pub fn get_Cell(&self) -> (r: Vec<(String, Option<Player>)>)
        requires
            self.wf(),
        ensures
            point_key_list(*self, r@),
    {
        let ghost s = self.occupied_cells@;
        proof {
            assert forall|p: Point| self.cell_order().to_set().contains(p) <==> self@.cells.dom().contains(p) by {
                lemma_cell_map_dom(s, p);
                if self@.cells.dom().contains(p) {
                    let i = choose|i: int| 0 <= i < s.len() && #[trigger] s[i].0 == p;
                    assert(self.cell_order()[i] == p);
                }
            }
            assert(self.cell_order().to_set() =~= self@.cells.dom());
        }
        let n = self.occupied_cells.len();
        let mut r: Vec<(String, Option<Player>)> = Vec::new();
        let mut i: usize = 0;
        while i < n
            invariant
                self.wf(),
                s == self.occupied_cells@,
                n == s.len(),
                i <= n,
                r@.len() == i,
                forall|j: int|
                    0 <= j < i ==> #[trigger] r@[j].0@ == point_key(self.cell_order()[j])
                        && r@[j].1 == self@.cells[self.cell_order()[j]],
            decreases n - i,
        {
            let key = self.occupied_cells[i].0.to_string();
            let value = self.occupied_cells[i].1;
            proof {
                lemma_cell_map_value(s, i as int);
            }
            r.push((key, value));
            i = i + 1;
        }
        assert(self.cell_order().len() == n);
        assert(point_key_list(*self, r@));
        r
    }
}

/// Whether `v` holds `p`.
pub fn contains_point(v: &Vec<Point>, p: &Point) -> (r: bool)
    ensures
        r == v@.contains(*p),
{
    let n = v.len();
    let mut i: usize = 0;
    while i < n
        invariant
            n == v@.len(),
            i <= n,
            forall|j: int| 0 <= j < i ==> v@[j] != *p,
        decreases n - i,
    {
        if v[i].equals(p) {
            return true;
        }
        i = i + 1;
    }
    false
}

} // verus!
