//! The physical grid and its connected-group analysis.
//!
//! `Board` owns one `Piece` per intersection of a square grid. Group-level
//! queries (liberties, group size, capture sets) are all answered by one
//! flood-fill over 4-adjacency, proved to compute exactly the connected
//! component given by `connected` and its liberty set.

use vstd::prelude::*;
use crate::Piece;

verus! {

/// A coordinate pair on the board: `x` is the column, `y` the row.
#[derive(Debug, Clone, Copy, PartialEq, Eq, Structural)]
pub struct Pos {
    pub x: u32,
    pub y: u32,
}

/// Two points are adjacent when they differ by one step along exactly one axis.
pub open spec fn adj(p: Pos, q: Pos) -> bool {
    ||| (p.x == q.x && (p.y + 1 == q.y || q.y + 1 == p.y))
    ||| (p.y == q.y && (p.x + 1 == q.x || q.x + 1 == p.x))
}

/// Whether `p` lies on a board of side length `side`.
pub open spec fn in_grid(side: int, p: Pos) -> bool {
    p.x < side && p.y < side
}

/// Row-major index of `p` in a grid of side length `side`.
pub open spec fn enc(side: int, p: Pos) -> int {
    p.y * side + p.x
}

/// The piece standing at `p` in a row-major grid.
pub open spec fn at(grid: Seq<Piece>, side: int, p: Pos) -> Piece {
    grid[enc(side, p)]
}

/// A nonempty sequence of like-colored stones, each on the board and each
/// step 4-adjacent to the one before it.
pub open spec fn is_stone_path(grid: Seq<Piece>, side: int, path: Seq<Pos>, color: Piece) -> bool {
    &&& 0 < path.len()
    &&& forall|i: int|
        0 <= i < path.len() ==> in_grid(side, #[trigger] path[i]) && at(grid, side, path[i])
            == color
    &&& forall|i: int| 0 < i < path.len() ==> adj(path[i - 1], #[trigger] path[i])
}

/// `q` is reachable from `p` through stones of `p`'s color.
pub open spec fn connected(grid: Seq<Piece>, side: int, p: Pos, q: Pos) -> bool {
    exists|path: Seq<Pos>|
        is_stone_path(grid, side, path, at(grid, side, p)) && path.first() == p && path.last()
            == q
}

/// The maximal like-colored connected group containing `p`.
pub open spec fn group_of(grid: Seq<Piece>, side: int, p: Pos) -> Set<Pos> {
    Set::new(|q: Pos| connected(grid, side, p, q))
}

/// The distinct empty points adjacent to any stone of the group at `p`.
pub open spec fn liberty_set(grid: Seq<Piece>, side: int, p: Pos) -> Set<Pos> {
    Set::new(
        |e: Pos|
            in_grid(side, e) && at(grid, side, e) == Piece::Empty && exists|q: Pos|
                #[trigger] adj(q, e) && group_of(grid, side, p).contains(q),
    )
}

/// The group at `p` has no liberty left.
pub open spec fn no_liberties(grid: Seq<Piece>, side: int, p: Pos) -> bool {
    liberty_set(grid, side, p) == Set::<Pos>::empty()
}

/// Every stone of every `enemy`-colored group that is adjacent to `pos` and
/// out of liberties: what a stone placed at `pos` captures.
pub open spec fn capture_set_around(grid: Seq<Piece>, side: int, pos: Pos, enemy: Piece) -> Set<
    Pos,
> {
    Set::new(
        |c: Pos|
            exists|q: Pos|
                #[trigger] adj(pos, q) && in_grid(side, q) && at(grid, side, q) == enemy
                    && no_liberties(grid, side, q) && group_of(grid, side, q).contains(c),
    )
}

/// `v` contains every on-board neighbor of color `color` of each of its members.
pub open spec fn closed_under_adj(grid: Seq<Piece>, side: int, color: Piece, v: Set<Pos>) -> bool {
    forall|a: Pos, b: Pos| #![trigger v.contains(a), adj(a, b)]
        v.contains(a) && in_grid(side, b) && adj(a, b) && at(grid, side, b) == color
            ==> v.contains(b)
}

/// Connectivity is reflexive on on-board points.
pub proof fn lemma_connected_refl(grid: Seq<Piece>, side: int, p: Pos)
    requires
        in_grid(side, p),
    ensures
        connected(grid, side, p, p),
{
    let path = seq![p];
    assert(is_stone_path(grid, side, path, at(grid, side, p)));
    assert(path.first() == p && path.last() == p);
}

/// Connectivity extends along one adjacency step of the same color.
pub proof fn lemma_connected_step(grid: Seq<Piece>, side: int, p: Pos, q: Pos, r: Pos)
    requires
        connected(grid, side, p, q),
        adj(q, r),
        in_grid(side, r),
        at(grid, side, r) == at(grid, side, p),
    ensures
        connected(grid, side, p, r),
{
    let color = at(grid, side, p);
    let path = choose|path: Seq<Pos>|
        is_stone_path(grid, side, path, color) && path.first() == p && path.last() == q;
    let path2 = path.push(r);
    assert(is_stone_path(grid, side, path2, color)) by {
        assert(forall|i: int| 0 <= i < path.len() ==> path2[i] == path[i]);
        assert(path2[path.len() as int] == r);
    }
    assert(path2.first() == p && path2.last() == r);
}

/// A point connected to `p` lies on the board and carries `p`'s color.
pub proof fn lemma_connected_in_grid(grid: Seq<Piece>, side: int, p: Pos, q: Pos)
    requires
        connected(grid, side, p, q),
    ensures
        in_grid(side, q),
        at(grid, side, q) == at(grid, side, p),
{
    let path = choose|path: Seq<Pos>|
        is_stone_path(grid, side, path, at(grid, side, p)) && path.first() == p && path.last()
            == q;
    assert(in_grid(side, path[path.len() - 1]));
}

/// Connectivity is symmetric, and connected stones share a color.
pub proof fn lemma_connected_sym(grid: Seq<Piece>, side: int, p: Pos, q: Pos)
    requires
        connected(grid, side, p, q),
    ensures
        connected(grid, side, q, p),
        at(grid, side, q) == at(grid, side, p),
{
    let color = at(grid, side, p);
    let path = choose|path: Seq<Pos>|
        is_stone_path(grid, side, path, color) && path.first() == p && path.last() == q;
    let n = path.len() as int;
    let rev = Seq::new(path.len(), |i: int| path[n - 1 - i]);
    assert(at(grid, side, q) == color);
    assert(is_stone_path(grid, side, rev, color)) by {
        assert(forall|i: int| 0 <= i < n ==> rev[i] == path[n - 1 - i]);
        assert forall|i: int| 0 < i < n implies adj(rev[i - 1], #[trigger] rev[i]) by {
            assert(adj(path[n - 1 - i], path[n - i]));
        }
    }
    assert(rev.first() == q && rev.last() == p);
}

/// Connectivity is transitive.
pub proof fn lemma_connected_trans(grid: Seq<Piece>, side: int, p: Pos, q: Pos, r: Pos)
    requires
        connected(grid, side, p, q),
        connected(grid, side, q, r),
    ensures
        connected(grid, side, p, r),
{
    let color = at(grid, side, p);
    lemma_connected_sym(grid, side, p, q);
    let path1 = choose|path: Seq<Pos>|
        is_stone_path(grid, side, path, color) && path.first() == p && path.last() == q;
    let path2 = choose|path: Seq<Pos>|
        is_stone_path(grid, side, path, at(grid, side, q)) && path.first() == q && path.last()
            == r;
    let n1 = path1.len() as int;
    let comb = path1 + path2.subrange(1, path2.len() as int);
    assert(is_stone_path(grid, side, comb, color)) by {
        assert(forall|i: int| 0 <= i < n1 ==> comb[i] == path1[i]);
        assert(forall|i: int| n1 <= i < comb.len() ==> comb[i] == path2[i - n1 + 1]);
        assert forall|i: int| 0 < i < comb.len() implies adj(comb[i - 1], #[trigger] comb[i]) by {
            if i < n1 {
                assert(adj(path1[i - 1], path1[i]));
            } else if i == n1 {
                assert(comb[i - 1] == q && comb[i] == path2[1]);
                assert(adj(path2[0], path2[1]));
            } else {
                assert(adj(path2[i - n1], path2[i - n1 + 1]));
            }
        }
    }
    assert(comb.first() == p && comb.last() == r);
}

/// A stone path starting inside a closed set ends inside it.
proof fn lemma_path_stays_in_closed(
    grid: Seq<Piece>,
    side: int,
    color: Piece,
    v: Set<Pos>,
    path: Seq<Pos>,
)
    requires
        is_stone_path(grid, side, path, color),
        v.contains(path.first()),
        closed_under_adj(grid, side, color, v),
    ensures
        v.contains(path.last()),
    decreases path.len(),
{
    if path.len() > 1 {
        let head = path.drop_last();
        assert(is_stone_path(grid, side, head, color)) by {
            assert(forall|i: int| 0 <= i < head.len() ==> head[i] == path[i]);
        }
        lemma_path_stays_in_closed(grid, side, color, v, head);
        assert(adj(path[path.len() - 2], path[path.len() - 1]));
        assert(v.contains(path.last()));
    }
}

/// A set that contains `p` and is closed under same-color adjacency
/// contains the whole group of `p`.
pub proof fn lemma_group_in_closed(grid: Seq<Piece>, side: int, p: Pos, v: Set<Pos>)
    requires
        v.contains(p),
        closed_under_adj(grid, side, at(grid, side, p), v),
    ensures
        forall|q: Pos| group_of(grid, side, p).contains(q) ==> v.contains(q),
{
    assert forall|q: Pos| group_of(grid, side, p).contains(q) implies v.contains(q) by {
        let color = at(grid, side, p);
        let path = choose|path: Seq<Pos>|
            is_stone_path(grid, side, path, color) && path.first() == p && path.last() == q;
        lemma_path_stays_in_closed(grid, side, color, v, path);
    }
}

/// Connected points have the same group, hence the same liberties.
pub proof fn lemma_group_eq(grid: Seq<Piece>, side: int, p: Pos, q: Pos)
    requires
        connected(grid, side, p, q),
    ensures
        group_of(grid, side, p) == group_of(grid, side, q),
        liberty_set(grid, side, p) == liberty_set(grid, side, q),
{
    lemma_connected_sym(grid, side, p, q);
    assert forall|c: Pos|
        group_of(grid, side, p).contains(c) <==> group_of(
            grid,
            side,
            q,
        ).contains(c) by {
        if connected(grid, side, p, c) {
            lemma_connected_trans(grid, side, q, p, c);
        }
        if connected(grid, side, q, c) {
            lemma_connected_trans(grid, side, p, q, c);
        }
    }
    assert(group_of(grid, side, p) =~= group_of(grid, side, q));
    assert(liberty_set(grid, side, p) =~= liberty_set(grid, side, q));
}

/// Row-major encoding is injective on the grid.
pub proof fn lemma_enc_injective(side: int, p: Pos, q: Pos)
    requires
        in_grid(side, p),
        in_grid(side, q),
        p != q,
    ensures
        enc(side, p) != enc(side, q),
{
    if p.y != q.y {
        assert(p.y * side + p.x != q.y * side + q.x) by (nonlinear_arith)
            requires
                p.x < side,
                q.x < side,
                0 <= p.x,
                0 <= q.x,
                0 <= p.y,
                0 <= q.y,
                p.y != q.y,
        ;
    }
}

/// A duplicate-free sequence of on-board points is no longer than the board
/// has intersections.
pub proof fn lemma_distinct_in_grid_len(s: Seq<Pos>, side: int)
    requires
        s.no_duplicates(),
        forall|i: int| 0 <= i < s.len() ==> in_grid(side, #[trigger] s[i]),
        0 <= side,
    ensures
        s.len() <= side * side,
{
    let f = |p: Pos| enc(side, p);
    let t = s.map_values(f);
    assert(t.no_duplicates()) by {
        assert forall|i: int, j: int|
            0 <= i < t.len() && 0 <= j < t.len() && i != j implies t[i] != t[j] by {
            lemma_enc_injective(side, s[i], s[j]);
        }
    }
    t.unique_seq_to_set();
    let range = vstd::set_lib::set_int_range(0, side * side);
    assert(t.to_set().subset_of(range)) by {
        assert forall|v: int| t.to_set().contains(v) implies range.contains(v) by {
            let i = choose|i: int| 0 <= i < t.len() && t[i] == v;
            lemma_enc_in_bounds(side, s[i]);
        }
    }
    vstd::set_lib::lemma_int_range(0, side * side);
    vstd::set_lib::lemma_len_subset(t.to_set(), range);
}

/// A glorified array of pieces.
#[derive(Debug, PartialEq, Clone)]
pub struct Board {
    side: u32,
    store: Vec<Piece>,
}

impl Board {
    /// The side length, as a mathematical integer.
    pub closed spec fn side_len(&self) -> int {
        self.side as int
    }

    /// The grid contents in row-major order.
    pub closed spec fn grid(&self) -> Seq<Piece> {
        self.store@
    }

    /// The board stores exactly side * side pieces, and every row-major
    /// index fits in a `u32`.
    pub open spec fn wf(&self) -> bool {
        &&& 0 < self.side_len()
        &&& self.side_len() * self.side_len() <= u32::MAX
        &&& self.grid().len() == self.side_len() * self.side_len()
    }

    /// Shorthand for `in_grid` on this board.
    pub open spec fn contains_pos(&self, p: Pos) -> bool {
        in_grid(self.side_len(), p)
    }

    /// Shorthand for `at` on this board.
    pub open spec fn piece_at(&self, p: Pos) -> Piece {
        at(self.grid(), self.side_len(), p)
    }

    /// Create a new board with side length `side`. The amount of
    /// intersections will be `side * side`, all initially empty.
    pub fn new(side: u32) -> (r: Self)
        requires
            0 < side,
            side * side <= u32::MAX,
        ensures
            r.wf(),
            r.side_len() == side,
            forall|p: Pos| r.contains_pos(p) ==> r.piece_at(p) == Piece::Empty,
    {
        let n: usize = (side as usize) * (side as usize);
        let mut store: Vec<Piece> = Vec::new();
        while store.len() < n
            invariant
                store@.len() <= n,
                forall|i: int| 0 <= i < store@.len() ==> store@[i] == Piece::Empty,
            decreases n - store@.len(),
        {
            store.push(Piece::Empty);
        }
        proof {
            assert forall|p: Pos| in_grid(side as int, p)
                implies at(store@, side as int, p) == Piece::Empty by {
                lemma_enc_in_bounds(side as int, p);
            }
        }
        Board { side, store }
    }

    /// Returns true if the coordinate is on the board.
    pub fn coord_is_valid(&self, x: u32, y: u32) -> (r: bool)
        ensures
            r == in_grid(self.side_len(), Pos { x, y }),
    {
        x < self.side && y < self.side
    }

    /// Gets the number of playable points on one side of the board.
    pub fn board_size(&self) -> (r: u32)
        ensures
            r == self.side_len(),
    {
        self.side
    }

    /// The piece at the given coordinate (caller-guaranteed valid).
    pub fn get(&self, x: u32, y: u32) -> (r: Piece)
        requires
            self.wf(),
            in_grid(self.side_len(), Pos { x, y }),
        ensures
            r == self.piece_at(Pos { x, y }),
    {
        proof {
            lemma_enc_in_bounds(self.side_len(), Pos { x, y });
        }
        self.store[(y * self.side + x) as usize]
    }

    /// Replace the piece at the given coordinate (caller-guaranteed valid).
    pub fn set(&mut self, x: u32, y: u32, piece: Piece)
        requires
            old(self).wf(),
            in_grid(old(self).side_len(), Pos { x, y }),
        ensures
            final(self).wf(),
            final(self).side_len() == old(self).side_len(),
            final(self).grid() == old(self).grid().update(
                enc(old(self).side_len(), Pos { x, y }),
                piece,
            ),
    {
        proof {
            lemma_enc_in_bounds(self.side_len(), Pos { x, y });
        }
        let idx: usize = (y * self.side + x) as usize;
        self.store.set(idx, piece);
    }

    /// Sets the coordinate to `Piece::Empty`.
    pub fn remove(&mut self, x: u32, y: u32)
        requires
            old(self).wf(),
            in_grid(old(self).side_len(), Pos { x, y }),
        ensures
            final(self).wf(),
            final(self).side_len() == old(self).side_len(),
            final(self).grid() == old(self).grid().update(
                enc(old(self).side_len(), Pos { x, y }),
                Piece::Empty,
            ),
    {
        self.set(x, y, Piece::Empty);
    }

    /// Gets all valid coordinates surrounding the original coordinate
    /// provided.
    pub fn surround(&self, x: u32, y: u32) -> (r: Vec<Pos>)
        requires
            self.wf(),
            in_grid(self.side_len(), Pos { x, y }),
        ensures
            r@.no_duplicates(),
            forall|q: Pos| #[trigger] r@.contains(q)
                <==> (in_grid(self.side_len(), q) && adj(Pos { x, y }, q)),
    {
        let mut r: Vec<Pos> = Vec::new();
        if x + 1 < self.side {
            r.push(Pos { x: x + 1, y });
        }
        if x > 0 {
            r.push(Pos { x: x - 1, y });
        }
        if y + 1 < self.side {
            r.push(Pos { x, y: y + 1 });
        }
        if y > 0 {
            r.push(Pos { x, y: y - 1 });
        }
        proof {
            assert forall|q: Pos| in_grid(self.side_len(), q) && adj(Pos { x, y }, q)
                implies r@.contains(q) by {
                let na: int = if x + 1 < self.side { 1 } else { 0 };
                let nb: int = if x > 0 { 1 } else { 0 };
                let nc: int = if y + 1 < self.side { 1 } else { 0 };
                if q.y == y && q.x == x + 1 {
                    assert(r@[0] == q);
                } else if q.y == y && q.x + 1 == x {
                    assert(r@[na] == q);
                } else if q.x == x && q.y == y + 1 {
                    assert(r@[na + nb] == q);
                } else {
                    assert(q.x == x && q.y + 1 == y);
                    assert(r@[na + nb + nc] == q);
                }
            }
        }
        r
    }
}

/// Membership survives pushing another element.
proof fn lemma_contains_push(s: Seq<Pos>, q: Pos, r: Pos)
    requires
        s.contains(q),
    ensures
        s.push(r).contains(q),
{
    let i = choose|i: int| 0 <= i < s.len() && s[i] == q;
    assert(s.push(r)[i] == q);
}

/// Linear membership test on a vector of positions.
pub(crate) fn vec_has_pos(v: &Vec<Pos>, p: Pos) -> (r: bool)
    ensures
        r == v@.contains(p),
{
    let mut k: usize = 0;
    while k < v.len()
        invariant
            k <= v@.len(),
            forall|i: int| 0 <= i < k ==> v@[i] != p,
        decreases v@.len() - k,
    {
        if v[k] == p {
            return true;
        }
        k += 1;
    }
    false
}

impl Board {
    /// The one flood-fill behind every group-level query: collects the
    /// stones of the group at the seed and the distinct empty points
    /// adjacent to that group, each exactly once.
    #[verifier::rlimit(100)]
    fn scan_group(&self, x: u32, y: u32) -> (r: (Vec<Pos>, Vec<Pos>))
        requires
            self.wf(),
            in_grid(self.side_len(), Pos { x, y }),
            self.piece_at(Pos { x, y }) != Piece::Empty,
        ensures
            r.0@.no_duplicates(),
            r.0@.to_set() == group_of(self.grid(), self.side_len(), Pos { x, y }),
            r.1@.no_duplicates(),
            r.1@.to_set() == liberty_set(self.grid(), self.side_len(), Pos { x, y }),
    {
        let ghost g: Seq<Piece> = self.grid();
        let ghost sd: int = self.side_len();
        let ghost seed: Pos = Pos { x, y };
        let color = self.get(x, y);
        let mut group: Vec<Pos> = Vec::new();
        let mut stack: Vec<Pos> = Vec::new();
        let mut libs: Vec<Pos> = Vec::new();
        stack.push(Pos { x, y });
        proof {
            lemma_connected_refl(g, sd, seed);
            assert(stack@[0] == seed);
            assert(stack@.contains(seed));
            assert(sd * sd >= 1) by (nonlinear_arith)
                requires
                    sd >= 1,
            ;
        }
        while stack.len() > 0
            invariant
                color == at(g, sd, seed),
                color != Piece::Empty,
                forall|q: Pos| #[trigger]
                    group@.contains(q) ==> in_grid(sd, q) && at(g, sd, q) == color && connected(
                        g,
                        sd,
                        seed,
                        q,
                    ),
                forall|q: Pos| #[trigger]
                    stack@.contains(q) ==> in_grid(sd, q) && at(g, sd, q) == color && connected(
                        g,
                        sd,
                        seed,
                        q,
                    ),
                group@.no_duplicates(),
                stack@.no_duplicates(),
                forall|q: Pos| !(#[trigger] group@.contains(q) && #[trigger] stack@.contains(q)),
                group@.contains(seed) || stack@.contains(seed),
                forall|a: Pos, b: Pos| #![trigger group@.contains(a), adj(a, b)]
                    group@.contains(a) && in_grid(sd, b) && adj(a, b) && at(g, sd, b) == color
                        ==> group@.contains(b) || stack@.contains(b),
                forall|e: Pos| #[trigger]
                    libs@.contains(e) ==> in_grid(sd, e) && at(g, sd, e) == Piece::Empty && exists|
                        q: Pos,
                    |
                        #[trigger] adj(q, e) && group@.contains(q),
                forall|a: Pos, e: Pos| #![trigger group@.contains(a), adj(a, e)]
                    group@.contains(a) && in_grid(sd, e) && adj(a, e) && at(g, sd, e)
                        == Piece::Empty ==> libs@.contains(e),
                libs@.no_duplicates(),
                group@.len() + stack@.len() <= sd * sd,
            decreases sd * sd - group@.len(),
        {
            let ghost group0: Seq<Pos> = group@;
            let ghost stack0: Seq<Pos> = stack@;
            let p = stack.pop().unwrap();
            group.push(p);
            proof {
                assert(stack0[stack0.len() - 1] == p);
                assert(stack0.contains(p));
                assert forall|q: Pos| #[trigger] stack@.contains(q)
                    implies in_grid(sd, q) && at(g, sd, q) == color && connected(
                    g,
                    sd,
                    seed,
                    q,
                ) by {
                    let i = choose|i: int| 0 <= i < stack@.len() && stack@[i] == q;
                    assert(stack0[i] == q);
                    assert(stack0.contains(q));
                }
                assert forall|q: Pos| #[trigger] group@.contains(q)
                    implies in_grid(sd, q) && at(g, sd, q) == color && connected(g, sd, seed, q) by {
                    if q != p {
                        let i = choose|i: int| 0 <= i < group@.len() && group@[i] == q;
                        assert(group0[i] == q);
                        assert(group0.contains(q));
                    }
                }
                assert(group@.no_duplicates()) by {
                    assert(!group0.contains(p));
                }
                assert(stack@.no_duplicates());
                assert forall|e: Pos| #[trigger] libs@.contains(e)
                    implies in_grid(sd, e) && at(g, sd, e) == Piece::Empty && exists|q: Pos|
                    #[trigger] adj(q, e) && group@.contains(q) by {
                    let q0 = choose|q: Pos| #[trigger] adj(q, e) && group0.contains(q);
                    lemma_contains_push(group0, q0, p);
                    assert(adj(q0, e) && group@.contains(q0));
                }
                assert forall|q: Pos|
                    !(#[trigger] group@.contains(q) && #[trigger] stack@.contains(q)) by {
                    if stack@.contains(q) && group@.contains(q) {
                        let i = choose|i: int| 0 <= i < stack@.len() && stack@[i] == q;
                        assert(stack0[i] == q);
                        assert(stack0.contains(q));
                        assert(stack0[i] != stack0[stack0.len() - 1]);
                        assert(q != p);
                        let j = choose|j: int| 0 <= j < group@.len() && group@[j] == q;
                        assert(j < group0.len());
                        assert(group0.contains(q));
                        assert(false);
                    }
                }
                assert(group@.contains(seed) || stack@.contains(seed)) by {
                    if stack0.contains(seed) {
                        let i = choose|i: int| 0 <= i < stack0.len() && stack0[i] == seed;
                        if i == stack0.len() - 1 {
                            assert(group@.last() == seed);
                        } else {
                            assert(stack@[i] == seed);
                        }
                    } else {
                        assert(group0.contains(seed));
                        let j = choose|j: int| 0 <= j < group0.len() && group0[j] == seed;
                        assert(group@[j] == seed);
                        assert(group@.contains(seed));
                    }
                }
                assert forall|a: Pos, b: Pos| #![trigger group0.contains(a), adj(a, b)]
                    group0.contains(a) && in_grid(sd, b) && adj(a, b) && at(g, sd, b) == color
                    implies group@.contains(b) || stack@.contains(b) by {
                    assert(group0.contains(b) || stack0.contains(b));
                    if group0.contains(b) {
                        lemma_contains_push(group0, b, p);
                    } else {
                        let i = choose|i: int| 0 <= i < stack0.len() && stack0[i] == b;
                        if i == stack0.len() - 1 {
                            assert(b == p);
                            assert(group@[group@.len() - 1] == p);
                            assert(group@.contains(p));
                        } else {
                            assert(stack@[i] == b);
                            assert(stack@.contains(b));
                        }
                    }
                }
            }
            let neigh = self.surround(p.x, p.y);
            let mut k: usize = 0;
            while k < neigh.len()
                invariant
                    k <= neigh@.len(),
                    group@ == group0.push(p),
                    forall|q: Pos| #[trigger]
                        group@.contains(q) ==> in_grid(sd, q) && at(g, sd, q) == color
                            && connected(g, sd, seed, q),
                    forall|q: Pos| #[trigger]
                        stack@.contains(q) ==> in_grid(sd, q) && at(g, sd, q) == color
                            && connected(g, sd, seed, q),
                    group@.no_duplicates(),
                    stack@.no_duplicates(),
                    forall|q: Pos|
                        !(#[trigger] group@.contains(q) && #[trigger] stack@.contains(q)),
                    group@.contains(seed) || stack@.contains(seed),
                    forall|a: Pos, b: Pos| #![trigger group0.contains(a), adj(a, b)]
                        group0.contains(a) && in_grid(sd, b) && adj(a, b) && at(g, sd, b) == color
                            ==> group@.contains(b) || stack@.contains(b),
                    forall|i: int|
                        0 <= i < k && at(g, sd, #[trigger] neigh@[i]) == color ==> group@.contains(
                            neigh@[i],
                        ) || stack@.contains(neigh@[i]),
                    forall|e: Pos| #[trigger]
                        libs@.contains(e) ==> in_grid(sd, e) && at(g, sd, e) == Piece::Empty
                            && exists|q: Pos| #[trigger] adj(q, e) && group@.contains(q),
                    forall|a: Pos, e: Pos| #![trigger group0.contains(a), adj(a, e)]
                        group0.contains(a) && in_grid(sd, e) && adj(a, e) && at(g, sd, e)
                            == Piece::Empty ==> libs@.contains(e),
                    forall|i: int|
                        0 <= i < k && at(g, sd, #[trigger] neigh@[i]) == Piece::Empty
                            ==> libs@.contains(neigh@[i]),
                    libs@.no_duplicates(),
                decreases neigh@.len() - k,
            {
                let n = neigh[k];
                proof {
                    assert(neigh@[k as int] == n);
                    assert(neigh@.contains(n));
                }
                let piece = self.get(n.x, n.y);
                if piece == color {
                    if !vec_has_pos(&group, n) && !vec_has_pos(&stack, n) {
                        let ghost stk0: Seq<Pos> = stack@;
                        proof {
                            assert(group@[group@.len() - 1] == p);
                            assert(group@.contains(p));
                            lemma_connected_step(g, sd, seed, p, n);
                        }
                        stack.push(n);
                        proof {
                            assert forall|q: Pos| #[trigger] stk0.contains(q)
                                implies stack@.contains(q) by {
                                lemma_contains_push(stk0, q, n);
                            }
                            assert(stack@[stack@.len() - 1] == n);
                            assert(stack@.contains(n));
                            assert(stack@.no_duplicates()) by {
                                assert(!stk0.contains(n));
                            }
                            assert forall|q: Pos| #[trigger] stack@.contains(q)
                                implies in_grid(sd, q) && at(g, sd, q) == color && connected(
                                g,
                                sd,
                                seed,
                                q,
                            ) by {
                                let i = choose|i: int| 0 <= i < stack@.len() && stack@[i] == q;
                                if i < stk0.len() {
                                    assert(stk0[i] == q);
                                    assert(stk0.contains(q));
                                } else {
                                    assert(q == n);
                                }
                            }
                            assert forall|q: Pos|
                                !(#[trigger] group@.contains(q) && #[trigger] stack@.contains(
                                    q,
                                )) by {
                                if group@.contains(q) && stack@.contains(q) {
                                    let i = choose|i: int| 0 <= i < stack@.len() && stack@[i] == q;
                                    if i < stk0.len() {
                                        assert(stk0[i] == q);
                                        assert(stk0.contains(q));
                                        assert(false);
                                    } else {
                                        assert(q == n);
                                        assert(false);
                                    }
                                }
                            }
                        }
                    }
                } else if piece == Piece::Empty {
                    if !vec_has_pos(&libs, n) {
                        let ghost libs0: Seq<Pos> = libs@;
                        proof {
                            assert(group@[group@.len() - 1] == p);
                            assert(adj(p, n) && group@.contains(p));
                        }
                        libs.push(n);
                        proof {
                            assert forall|e: Pos| #[trigger] libs0.contains(e)
                                implies libs@.contains(e) by {
                                lemma_contains_push(libs0, e, n);
                            }
                            assert(libs@[libs@.len() - 1] == n);
                            assert(libs@.contains(n));
                            assert forall|e: Pos| #[trigger] libs@.contains(e)
                                implies in_grid(sd, e) && at(g, sd, e) == Piece::Empty && exists|
                                q: Pos,
                            |
                                #[trigger] adj(q, e) && group@.contains(q) by {
                                let i = choose|i: int| 0 <= i < libs@.len() && libs@[i] == e;
                                if i < libs0.len() {
                                    assert(libs0[i] == e);
                                    assert(libs0.contains(e));
                                } else {
                                    assert(e == n);
                                    assert(adj(p, e) && group@.contains(p));
                                }
                            }
                        }
                    }
                }
                k += 1;
            }
            proof {
                assert forall|a: Pos, b: Pos| #![trigger group@.contains(a), adj(a, b)]
                    group@.contains(a) && in_grid(sd, b) && adj(a, b) && at(g, sd, b) == color
                        implies group@.contains(b) || stack@.contains(b) by {
                    if a == p {
                        assert(neigh@.contains(b));
                        let i = choose|i: int| 0 <= i < neigh@.len() && neigh@[i] == b;
                        assert(at(g, sd, neigh@[i]) == color);
                    } else {
                        assert(group0.contains(a));
                    }
                }
                assert forall|a: Pos, e: Pos| #![trigger group@.contains(a), adj(a, e)]
                    group@.contains(a) && in_grid(sd, e) && adj(a, e) && at(g, sd, e)
                        == Piece::Empty implies libs@.contains(e) by {
                    if a == p {
                        assert(neigh@.contains(e));
                        let i = choose|i: int| 0 <= i < neigh@.len() && neigh@[i] == e;
                        assert(at(g, sd, neigh@[i]) == Piece::Empty);
                    } else {
                        assert(group0.contains(a));
                    }
                }
                assert(group@.len() + stack@.len() <= sd * sd) by {
                    let comb = group@ + stack@;
                    assert forall|i: int, j: int|
                        0 <= i < group@.len() && 0 <= j < stack@.len()
                        implies group@[i] != stack@[j] by {
                        assert(group@.contains(group@[i]));
                        assert(stack@.contains(stack@[j]));
                    }
                    vstd::seq_lib::lemma_no_dup_in_concat(group@, stack@);
                    assert forall|i: int| 0 <= i < comb.len() implies in_grid(
                        sd,
                        #[trigger] comb[i],
                    ) by {
                        if i < group@.len() {
                            assert(group@.contains(comb[i]));
                        } else {
                            assert(stack@.contains(comb[i]));
                        }
                    }
                    lemma_distinct_in_grid_len(comb, sd);
                }
            }
        }
        proof {
            let gset = group_of(g, sd, seed);
            assert forall|q: Pos| group@.to_set().contains(q) implies gset.contains(q) by {
                assert(group@.contains(q));
            }
            assert forall|q: Pos| gset.contains(q) implies group@.to_set().contains(q) by {
                assert(closed_under_adj(g, sd, color, group@.to_set())) by {
                    assert forall|a: Pos, b: Pos| #![trigger group@.to_set().contains(a), adj(a, b)]
                        group@.to_set().contains(a) && in_grid(sd, b) && adj(a, b) && at(g, sd, b)
                            == color implies group@.to_set().contains(b) by {
                        assert(group@.contains(a));
                        assert(group@.contains(b) || stack@.contains(b));
                        assert(!stack@.contains(b));
                    }
                }
                assert(group@.to_set().contains(seed)) by {
                    assert(group@.contains(seed));
                }
                lemma_group_in_closed(g, sd, seed, group@.to_set());
            }
            assert(group@.to_set() =~= gset);
            let lset = liberty_set(g, sd, seed);
            assert forall|e: Pos| libs@.to_set().contains(e) implies lset.contains(e) by {
                assert(libs@.contains(e));
                let q = choose|q: Pos| #[trigger] adj(q, e) && group@.contains(q);
                assert(gset.contains(q));
            }
            assert forall|e: Pos| lset.contains(e) implies libs@.to_set().contains(e) by {
                let q = choose|q: Pos| #[trigger] adj(q, e) && gset.contains(q);
                assert(group@.to_set().contains(q));
                assert(group@.contains(q));
            }
            assert(libs@.to_set() =~= lset);
        }
        (group, libs)
    }

    /// Count the liberties of the group the stone at the specified
    /// coordinate is a part of: the number of distinct empty points adjacent
    /// to any stone of that connected group.
    ///
    /// Returns `Option::None` if the specified coordinate is empty.
    pub fn liberties(&self, x: u32, y: u32) -> (r: Option<u32>)
        requires
            self.wf(),
            in_grid(self.side_len(), Pos { x, y }),
        ensures
            match r {
                Option::None => self.piece_at(Pos { x, y }) == Piece::Empty,
                Option::Some(n) => self.piece_at(Pos { x, y }) != Piece::Empty && liberty_set(
                    self.grid(),
                    self.side_len(),
                    Pos { x, y },
                ).finite() && n == liberty_set(self.grid(), self.side_len(), Pos { x, y }).len(),
            },
    {
        if self.get(x, y) == Piece::Empty {
            return Option::None;
        }
        let (group, libs) = self.scan_group(x, y);
        proof {
            self.lemma_scan_count(libs@, liberty_set(self.grid(), self.side_len(), Pos { x, y }));
        }
        Option::Some(libs.len() as u32)
    }

    /// Count the number of stones in the group the stone at the specified
    /// position is a part of.
    ///
    /// Returns `Option::None` if the specified coordinate is empty.
    pub fn group_size(&self, x: u32, y: u32) -> (r: Option<u32>)
        requires
            self.wf(),
            in_grid(self.side_len(), Pos { x, y }),
        ensures
            match r {
                Option::None => self.piece_at(Pos { x, y }) == Piece::Empty,
                Option::Some(n) => self.piece_at(Pos { x, y }) != Piece::Empty && group_of(
                    self.grid(),
                    self.side_len(),
                    Pos { x, y },
                ).finite() && n == group_of(self.grid(), self.side_len(), Pos { x, y }).len(),
            },
    {
        if self.get(x, y) == Piece::Empty {
            return Option::None;
        }
        let (group, _libs) = self.scan_group(x, y);
        proof {
            self.lemma_scan_count(group@, group_of(self.grid(), self.side_len(), Pos { x, y }));
        }
        Option::Some(group.len() as u32)
    }

    /// Returns a `Vec` containing all the positions of the group at the
    /// specified coordinate, each exactly once: the stones that a capture
    /// there would remove. Does not remove them.
    ///
    /// Returns `Option::None` if the specified coordinate is empty.
    pub fn capture_(&self, x: u32, y: u32) -> (r: Option<Vec<Pos>>)
        requires
            self.wf(),
            in_grid(self.side_len(), Pos { x, y }),
        ensures
            match r {
                Option::None => self.piece_at(Pos { x, y }) == Piece::Empty,
                Option::Some(v) => self.piece_at(Pos { x, y }) != Piece::Empty
                    && v@.no_duplicates() && v@.to_set() == group_of(
                    self.grid(),
                    self.side_len(),
                    Pos { x, y },
                ) && v@.len() >= 1,
            },
    {
        if self.get(x, y) == Piece::Empty {
            return Option::None;
        }
        let (group, _libs) = self.scan_group(x, y);
        proof {
            lemma_connected_refl(self.grid(), self.side_len(), Pos { x, y });
            assert(group@.to_set().contains(Pos { x, y }));
            assert(group@.contains(Pos { x, y }));
        }
        Option::Some(group)
    }

    /// Empty every stone of the group at the specified coordinate and
    /// return the number of stones captured.
    ///
    /// Returns `Option::None`, changing nothing, if the coordinate is empty.
    pub fn capture(&mut self, x: u32, y: u32) -> (r: Option<u32>)
        requires
            old(self).wf(),
            in_grid(old(self).side_len(), Pos { x, y }),
        ensures
            final(self).wf(),
            final(self).side_len() == old(self).side_len(),
            match r {
                Option::None => old(self).piece_at(Pos { x, y }) == Piece::Empty
                    && final(self).grid() == old(self).grid(),
                Option::Some(n) => {
                    let dead = group_of(old(self).grid(), old(self).side_len(), Pos { x, y });
                    &&& old(self).piece_at(Pos { x, y }) != Piece::Empty
                    &&& dead.finite()
                    &&& n == dead.len()
                    &&& forall|q: Pos|
                        in_grid(old(self).side_len(), q) ==> final(self).piece_at(q) == (
                        if dead.contains(q) {
                            Piece::Empty
                        } else {
                            old(self).piece_at(q)
                        })
                },
            },
    {
        if self.get(x, y) == Piece::Empty {
            return Option::None;
        }
        let (group, _libs) = self.scan_group(x, y);
        proof {
            self.lemma_scan_count(group@, group_of(self.grid(), self.side_len(), Pos { x, y }));
        }
        let ghost orig: Board = *self;
        let ghost dead: Set<Pos> = group_of(orig.grid(), orig.side_len(), Pos { x, y });
        proof {
            assert forall|i: int| 0 <= i < group@.len() implies in_grid(
                orig.side_len(),
                #[trigger] group@[i],
            ) by {
                assert(group@.contains(group@[i]));
                assert(group@.to_set().contains(group@[i]));
                assert(dead.contains(group@[i]));
                lemma_connected_in_grid(orig.grid(), orig.side_len(), Pos { x, y }, group@[i]);
            }
        }
        let mut k: usize = 0;
        while k < group.len()
            invariant
                k <= group@.len(),
                self.wf(),
                self.side_len() == orig.side_len(),
                forall|i: int| 0 <= i < group@.len() ==> in_grid(orig.side_len(), #[trigger] group@[i]),
                forall|q: Pos|
                    in_grid(orig.side_len(), q) ==> #[trigger] self.piece_at(q) == (
                    if group@.subrange(0, k as int).contains(q) {
                        Piece::Empty
                    } else {
                        orig.piece_at(q)
                    }),
            decreases group@.len() - k,
        {
            let ghost before: Board = *self;
            let p = group[k];
            self.remove(p.x, p.y);
            proof {
                let kk: int = k as int;
                assert forall|q: Pos| in_grid(orig.side_len(), q) implies #[trigger] self.piece_at(
                    q,
                ) == (
                if group@.subrange(0, kk + 1).contains(q) {
                    Piece::Empty
                } else {
                    orig.piece_at(q)
                }) by {
                    lemma_enc_in_bounds(orig.side_len(), q);
                    lemma_enc_in_bounds(orig.side_len(), p);
                    if q == p {
                        assert(group@.subrange(0, kk + 1)[kk] == q);
                        assert(group@.subrange(0, kk + 1).contains(q));
                    } else {
                        lemma_enc_injective(orig.side_len(), q, p);
                        assert(self.piece_at(q) == before.piece_at(q));
                        if group@.subrange(0, kk + 1).contains(q) {
                            let i = choose|i: int|
                                0 <= i < kk + 1 && #[trigger] group@.subrange(0, kk + 1)[i] == q;
                            assert(group@.subrange(0, kk)[i] == q);
                        } else {
                            if group@.subrange(0, kk).contains(q) {
                                let i = choose|i: int|
                                    0 <= i < kk && #[trigger] group@.subrange(0, kk)[i] == q;
                                assert(group@.subrange(0, kk + 1)[i] == q);
                            }
                        }
                    }
                }
            }
            k += 1;
        }
        proof {
            assert(group@.subrange(0, group@.len() as int) == group@);
            assert forall|q: Pos| in_grid(orig.side_len(), q) implies #[trigger] self.piece_at(q)
                == (
            if dead.contains(q) {
                Piece::Empty
            } else {
                orig.piece_at(q)
            }) by {
                assert(group@.contains(q) <==> group@.to_set().contains(q));
            }
        }
        Option::Some(group.len() as u32)
    }

    /// A duplicate-free on-board enumeration of a set measures its size,
    /// which the board bounds.
    proof fn lemma_scan_count(&self, s: Seq<Pos>, v: Set<Pos>)
        requires
            self.wf(),
            s.no_duplicates(),
            s.to_set() == v,
            forall|q: Pos| #[trigger] v.contains(q) ==> in_grid(self.side_len(), q),
        ensures
            v.finite(),
            v.len() == s.len(),
            s.len() <= u32::MAX,
    {
        vstd::seq_lib::seq_to_set_is_finite::<Pos>(s);
        s.unique_seq_to_set();
        assert forall|i: int| 0 <= i < s.len() implies in_grid(self.side_len(), #[trigger] s[i]) by {
            assert(s.contains(s[i]));
            assert(v.contains(s[i]));
        }
        lemma_distinct_in_grid_len(s, self.side_len());
        assert(self.side_len() * self.side_len() <= u32::MAX);
    }
}

/// A valid coordinate's row-major index lies inside the grid storage.
pub proof fn lemma_enc_in_bounds(side: int, p: Pos)
    requires
        in_grid(side, p),
    ensures
        0 <= enc(side, p) < side * side,
{
    assert(p.y * side + p.x < side * side) by (nonlinear_arith)
        requires
            p.x < side,
            p.y < side,
    ;
    assert(p.y * side >= 0) by (nonlinear_arith)
        requires
            0 <= p.y,
            0 <= side,
    ;
}

} // verus!
