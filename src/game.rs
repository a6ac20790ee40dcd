use vstd::prelude::*;
use vstd::arithmetic::div_mod::lemma_fundamental_div_mod_converse;

verus! {

/// Largest side length of the board grid; keeps every cell count and score within `u32`.
pub const MAX_SIDE: usize = 65535;

/// Flat position of cell `(x, y)` in a grid of side `size`.
pub open spec fn cell_index(size: int, x: int, y: int) -> int {
    x * size + y
}

/// Edges are the cells whose coordinate sum is odd.
pub open spec fn is_edge(size: int, x: int, y: int) -> bool {
    0 <= x < size && 0 <= y < size && (x + y) % 2 == 1
}

/// Boxes are the cells with both coordinates odd.
pub open spec fn is_box(size: int, x: int, y: int) -> bool {
    0 <= x < size && 0 <= y < size && x % 2 == 1 && y % 2 == 1
}

pub open spec fn is_box_index(size: int, i: int) -> bool {
    (i / size) % 2 == 1 && (i % size) % 2 == 1
}

/// Number of boxes among the first `n` cells that carry marker `m`.
pub open spec fn marker_count(board: Seq<u8>, size: int, m: u8, n: int) -> nat
    decreases n,
{
    if n <= 0 {
        0
    } else {
        marker_count(board, size, m, n - 1) + if is_box_index(size, n - 1) && board[n - 1] == m {
            1nat
        } else {
            0nat
        }
    }
}

/// The `k`-th box (k in 0..2) on either side of edge `(x, y)`, if it lies on the board.
pub open spec fn edge_box(size: int, x: int, y: int, k: int) -> Option<(int, int)> {
    if y % 2 == 1 {
        if k == 0 {
            if x >= 1 { Some((x - 1, y)) } else { None }
        } else {
            if x + 1 < size { Some((x + 1, y)) } else { None }
        }
    } else {
        if k == 0 {
            if y >= 1 { Some((x, y - 1)) } else { None }
        } else {
            if y + 1 < size { Some((x, y + 1)) } else { None }
        }
    }
}

/// The `k`-th of the four edges (k in 0..4) around box `(x, y)`.
pub open spec fn box_edge(x: int, y: int, k: int) -> (int, int) {
    if k == 0 {
        (x + 1, y)
    } else if k == 1 {
        (x - 1, y)
    } else if k == 2 {
        (x, y + 1)
    } else {
        (x, y - 1)
    }
}

/// Priority of a box beside a candidate move, by how many of its edges are filled.
pub open spec fn priority_of(filled: int) -> int {
    if filled == 0 {
        2
    } else if filled == 1 {
        1
    } else if filled == 2 {
        0
    } else {
        3
    }
}

proof fn lemma_index(size: int, x: int, y: int)
    requires
        0 <= x < size,
        0 <= y < size,
    ensures
        0 <= cell_index(size, x, y) < size * size,
        cell_index(size, x, y) / size == x,
        cell_index(size, x, y) % size == y,
        is_box_index(size, cell_index(size, x, y)) == (x % 2 == 1 && y % 2 == 1),
{
    assert(0 <= x * size + y < size * size) by (nonlinear_arith)
        requires
            0 <= x < size,
            0 <= y < size,
    ;
    lemma_fundamental_div_mod_converse(x * size + y, size, x, y);
}

proof fn lemma_side_square(s: int)
    requires
        0 <= s <= MAX_SIDE,
    ensures
        s * s <= MAX_SIDE * MAX_SIDE,
        MAX_SIDE * MAX_SIDE < u32::MAX,
{
    assert(s * s <= MAX_SIDE * MAX_SIDE) by (nonlinear_arith)
        requires
            0 <= s <= MAX_SIDE,
    ;
}

proof fn lemma_count_bound(board: Seq<u8>, size: int, m: u8, n: int)
    requires
        n >= 0,
    ensures
        marker_count(board, size, m, n) <= n,
    decreases n,
{
    if n > 0 {
        lemma_count_bound(board, size, m, n - 1);
    }
}

proof fn lemma_count_update(board: Seq<u8>, size: int, m: u8, n: int, k: int, v: u8)
    requires
        0 <= k < board.len(),
        n <= board.len(),
    ensures
        marker_count(board.update(k, v), size, m, n) + (if k < n && is_box_index(size, k)
            && board[k] == m {
            1int
        } else {
            0int
        }) == marker_count(board, size, m, n) + (if k < n && is_box_index(size, k) && v == m {
            1int
        } else {
            0int
        }),
    decreases n,
{
    if n > 0 {
        lemma_count_update(board, size, m, n - 1, k, v);
    }
}

proof fn lemma_count_zero(board: Seq<u8>, size: int, m: u8, n: int)
    requires
        m != 0,
        n <= board.len(),
        forall|i: int| 0 <= i < board.len() ==> board[i] == 0,
    ensures
        marker_count(board, size, m, n) == 0,
    decreases n,
{
    if n > 0 {
        lemma_count_zero(board, size, m, n - 1);
    }
}

/// Input a network sees for an edge: 1 filled, 0 empty.
pub open spec fn fill_state(v: u8) -> int {
    if v != 0 {
        1
    } else {
        0
    }
}

/// The board of a game: a square grid of side `2 * board_size + 1` whose cells
/// hold 0 while empty and the marker (1 or 2) of the player who filled them.
#[derive(Clone, Debug)]
pub struct SquareGame {
    pub size: usize,
    pub board: Vec<u8>,
    pub scores: [u32; 2],
}

impl SquareGame {
    pub open spec fn cell_spec(&self, x: int, y: int) -> u8 {
        self.board@[cell_index(self.size as int, x, y)]
    }

    pub open spec fn score_spec(&self, p: int) -> int {
        self.scores@[p] as int
    }

    /// Well-formed: the grid is complete, a box is marked only once its four
    /// edges are filled, and each score counts the boxes marked by that player.
    pub open spec fn wf(&self) -> bool {
        let s = self.size as int;
        &&& s % 2 == 1
        &&& s <= MAX_SIDE
        &&& self.board@.len() == s * s
        &&& forall|x: int, y: int|
            is_box(s, x, y) && #[trigger] self.cell_spec(x, y) != 0 ==> {
                &&& self.cell_spec(x + 1, y) != 0
                &&& self.cell_spec(x - 1, y) != 0
                &&& self.cell_spec(x, y + 1) != 0
                &&& self.cell_spec(x, y - 1) != 0
            }
        &&& self.score_spec(0) == marker_count(self.board@, s, 1, s * s)
        &&& self.score_spec(1) == marker_count(self.board@, s, 2, s * s)
    }

    /// An edge that no player has filled yet.
    pub open spec fn is_open_edge(&self, x: int, y: int) -> bool {
        is_edge(self.size as int, x, y) && self.cell_spec(x, y) == 0
    }

    pub open spec fn is_over_spec(&self) -> bool {
        forall|x: int, y: int| !#[trigger] self.is_open_edge(x, y)
    }

    /// Edge `(ex, ey)` counts as filled once `(x, y)` is played.
    pub open spec fn filled_with(&self, x: int, y: int, ex: int, ey: int) -> bool {
        (ex == x && ey == y) || self.cell_spec(ex, ey) != 0
    }

    /// Playing edge `(x, y)` completes its `k`-th neighbouring box.
    pub open spec fn closes(&self, x: int, y: int, k: int) -> bool {
        match edge_box(self.size as int, x, y, k) {
            Some(b) => {
                &&& self.filled_with(x, y, b.0 + 1, b.1)
                &&& self.filled_with(x, y, b.0 - 1, b.1)
                &&& self.filled_with(x, y, b.0, b.1 + 1)
                &&& self.filled_with(x, y, b.0, b.1 - 1)
            },
            None => false,
        }
    }

    /// Points that playing edge `(x, y)` earns.
    pub open spec fn gain(&self, x: int, y: int) -> int {
        (if self.closes(x, y, 0) { 1int } else { 0int }) + (if self.closes(x, y, 1) {
            1int
        } else {
            0int
        })
    }

    /// The board once player marker `p` has played edge `(x, y)`.
    pub open spec fn board_after(&self, x: int, y: int, p: u8) -> Seq<u8> {
        let s = self.size as int;
        let b1 = self.board@.update(cell_index(s, x, y), p);
        let b2 = if self.closes(x, y, 0) {
            let b = edge_box(s, x, y, 0).unwrap();
            b1.update(cell_index(s, b.0, b.1), p)
        } else {
            b1
        };
        if self.closes(x, y, 1) {
            let b = edge_box(s, x, y, 1).unwrap();
            b2.update(cell_index(s, b.0, b.1), p)
        } else {
            b2
        }
    }

    /// Number of filled edges around box `(x, y)`.
    pub open spec fn filled_count(&self, x: int, y: int) -> int {
        (if self.cell_spec(x + 1, y) != 0 { 1int } else { 0int }) + (if self.cell_spec(x - 1, y)
            != 0 {
            1int
        } else {
            0int
        }) + (if self.cell_spec(x, y + 1) != 0 { 1int } else { 0int }) + (if self.cell_spec(
            x,
            y - 1,
        ) != 0 {
            1int
        } else {
            0int
        })
    }

    pub open spec fn side_priority(&self, x: int, y: int, k: int) -> int {
        match edge_box(self.size as int, x, y, k) {
            Some(b) => priority_of(self.filled_count(b.0, b.1)),
            None => 0,
        }
    }

    /// How much the rule-based player likes edge `(x, y)`.
    pub open spec fn priority_spec(&self, x: int, y: int) -> int {
        self.side_priority(x, y, 0) + self.side_priority(x, y, 1)
    }

    /// Fill states of the first `j` edges around box `b`, skipping edge `(x, y)`.
    pub open spec fn other_states(&self, b: (int, int), x: int, y: int, j: int) -> Seq<int>
        decreases j,
    {
        if j <= 0 {
            seq![]
        } else {
            let e = box_edge(b.0, b.1, j - 1);
            let rest = self.other_states(b, x, y, j - 1);
            if e.0 == x && e.1 == y {
                rest
            } else {
                rest.push(fill_state(self.cell_spec(e.0, e.1)))
            }
        }
    }

    /// What a network sees of the `k`-th box beside edge `(x, y)`: the fill
    /// states of its three other edges, or three -1 where there is no box.
    pub open spec fn side_features(&self, x: int, y: int, k: int) -> Seq<int> {
        match edge_box(self.size as int, x, y, k) {
            Some(b) => self.other_states(b, x, y, 4),
            None => seq![-1int, -1int, -1int],
        }
    }

    pub open spec fn features_spec(&self, x: int, y: int) -> Seq<int> {
        self.side_features(x, y, 0) + self.side_features(x, y, 1)
    }

    /// `(x, y)` is an open edge that no other open edge beats.
    pub open spec fn is_best_move(&self, x: int, y: int) -> bool {
        &&& self.is_open_edge(x, y)
        &&& forall|a: int, b: int|
            #[trigger] self.is_open_edge(a, b) ==> self.priority_spec(a, b) <= self.priority_spec(x, y)
    }

    /// A fresh game: every cell empty and both scores zero.
    pub fn new(board_size: usize) -> (r: SquareGame)
        requires
            2 * board_size + 1 <= MAX_SIDE,
        ensures
            r.wf(),
            r.size == 2 * board_size + 1,
            r.score_spec(0) == 0,
            r.score_spec(1) == 0,
            forall|i: int| 0 <= i < r.board@.len() ==> r.board@[i] == 0,
    {
        let size = 2 * board_size + 1;
        assert(size * size <= MAX_SIDE * MAX_SIDE) by (nonlinear_arith)
            requires
                size <= MAX_SIDE,
        ;
        let capacity = size * size;
        let mut board: Vec<u8> = Vec::new();
        while board.len() < capacity
            invariant
                board.len() <= capacity,
                forall|i: int| 0 <= i < board@.len() ==> board@[i] == 0,
            decreases capacity - board.len(),
        {
            board.push(0);
        }
        let r = SquareGame { size, board, scores: [0, 0] };
        proof {
            let s = size as int;
            lemma_count_zero(r.board@, s, 1, s * s);
            lemma_count_zero(r.board@, s, 2, s * s);
            assert forall|x: int, y: int| is_box(s, x, y) && #[trigger] r.cell_spec(x, y) != 0 implies false by {
                lemma_index(s, x, y);
            }
        }
        r
    }

    /// The marker held by cell `(x, y)`.
    pub fn cell(&self, x: usize, y: usize) -> (r: u8)
        requires
            self.wf(),
            x < self.size,
            y < self.size,
        ensures
            r == self.cell_spec(x as int, y as int),
    {
        proof {
            lemma_index(self.size as int, x as int, y as int);
            lemma_side_square(self.size as int);
        }
        self.board[x * self.size + y]
    }

    fn set_cell(&mut self, x: usize, y: usize, p: u8)
        requires
            old(self).wf(),
            is_edge(old(self).size as int, x as int, y as int),
            p != 0,
        ensures
            final(self).wf(),
            final(self).size == old(self).size,
            final(self).scores == old(self).scores,
            final(self).board@ == old(self).board@.update(
                cell_index(old(self).size as int, x as int, y as int),
                p,
            ),
    {
        let ghost s = self.size as int;
        let ghost prev = *self;
        proof {
            lemma_index(s, x as int, y as int);
            lemma_side_square(s);
            lemma_count_update(prev.board@, s, 1, s * s, cell_index(s, x as int, y as int), p);
            lemma_count_update(prev.board@, s, 2, s * s, cell_index(s, x as int, y as int), p);
        }
        let i = x * self.size + y;
        self.board.set(i, p);
        proof {
            assert forall|a: int, b: int| is_box(s, a, b) && #[trigger] self.cell_spec(a, b) != 0 implies {
                &&& self.cell_spec(a + 1, b) != 0
                &&& self.cell_spec(a - 1, b) != 0
                &&& self.cell_spec(a, b + 1) != 0
                &&& self.cell_spec(a, b - 1) != 0
            } by {
                lemma_index(s, a, b);
                lemma_index(s, a + 1, b);
                lemma_index(s, a - 1, b);
                lemma_index(s, a, b + 1);
                lemma_index(s, a, b - 1);
                assert(prev.cell_spec(a, b) != 0);
            }
        }
    }

    /// Marks box `(bx, by)` with `p` and credits its player if all four of its edges are filled.
    fn check_cell(&mut self, bx: usize, by: usize, p: u8) -> (r: bool)
        requires
            old(self).wf(),
            is_box(old(self).size as int, bx as int, by as int),
            old(self).cell_spec(bx as int, by as int) == 0,
            p == 1 || p == 2,
        ensures
            final(self).wf(),
            final(self).size == old(self).size,
            r == (old(self).filled_count(bx as int, by as int) == 4),
            final(self).board@ == if r {
                old(self).board@.update(cell_index(old(self).size as int, bx as int, by as int), p)
            } else {
                old(self).board@
            },
            final(self).score_spec(p - 1) == old(self).score_spec(p - 1) + if r {
                1int
            } else {
                0int
            },
            final(self).score_spec(2 - p) == old(self).score_spec(2 - p),
    {
        let ghost s = self.size as int;
        let ghost prev = *self;
        if self.cell(bx + 1, by) == 0 || self.cell(bx - 1, by) == 0 || self.cell(bx, by + 1) == 0
            || self.cell(bx, by - 1) == 0 {
            return false;
        }
        let ghost k = cell_index(s, bx as int, by as int);
        proof {
            lemma_index(s, bx as int, by as int);
            lemma_side_square(s);
            lemma_count_update(prev.board@, s, 1, s * s, k, p);
            lemma_count_update(prev.board@, s, 2, s * s, k, p);
            lemma_count_bound(prev.board@, s, 1, s * s);
            lemma_count_bound(prev.board@, s, 2, s * s);
        }
        let i = bx * self.size + by;
        self.board.set(i, p);
        if p == 1 {
            self.scores = [self.scores[0] + 1, self.scores[1]];
        } else {
            self.scores = [self.scores[0], self.scores[1] + 1];
        }
        proof {
            assert forall|a: int, b: int| is_box(s, a, b) && #[trigger] self.cell_spec(a, b) != 0 implies {
                &&& self.cell_spec(a + 1, b) != 0
                &&& self.cell_spec(a - 1, b) != 0
                &&& self.cell_spec(a, b + 1) != 0
                &&& self.cell_spec(a, b - 1) != 0
            } by {
                lemma_index(s, a, b);
                lemma_index(s, a + 1, b);
                lemma_index(s, a - 1, b);
                lemma_index(s, a, b + 1);
                lemma_index(s, a, b - 1);
                if a != bx || b != by {
                    assert(prev.cell_spec(a, b) != 0);
                }
            }
        }
        true
    }

    /// The boxes on either side of edge `index`, `None` where the side is off the board.
    pub fn edge_neighbors(&self, index: [usize; 2]) -> (r: [Option<[usize; 2]>; 2])
        requires
            is_edge(self.size as int, index@[0] as int, index@[1] as int),
        ensures
            forall|k: int|
                0 <= k < 2 ==> match #[trigger] edge_box(
                    self.size as int,
                    index@[0] as int,
                    index@[1] as int,
                    k,
                ) {
                    Some(b) => r@[k] is Some && r@[k]->0@[0] == b.0 && r@[k]->0@[1] == b.1,
                    None => r@[k] is None,
                },
    {
        let x = index[0];
        let y = index[1];
        let max_index = self.size - 1;
        if y % 2 == 1 {
            [
                if x >= 1 { Some([x - 1, y]) } else { None },
                if x < max_index { Some([x + 1, y]) } else { None },
            ]
        } else {
            [
                if y >= 1 { Some([x, y - 1]) } else { None },
                if y < max_index { Some([x, y + 1]) } else { None },
            ]
        }
    }

    /// The four edges around box `index`.
    pub fn cell_neighbors(&self, index: [usize; 2]) -> (r: [(usize, usize); 4])
        requires
            is_box(self.size as int, index@[0] as int, index@[1] as int),
        ensures
            forall|k: int|
                0 <= k < 4 ==> #[trigger] box_edge(index@[0] as int, index@[1] as int, k) == (
                r@[k].0 as int,
                r@[k].1 as int,
            ),
    {
        let x = index[0];
        let y = index[1];
        [(x + 1, y), (x - 1, y), (x, y + 1), (x, y - 1)]
    }

    /// Player marker `player` fills edge `index`, closing each neighbouring box
    /// whose four edges are then all filled. Returns whether a box was closed,
    /// which gives the same player another turn.
    pub fn make_move_id(&mut self, index: [usize; 2], player: u8) -> (r: bool)
        requires
            old(self).wf(),
            old(self).is_open_edge(index@[0] as int, index@[1] as int),
            player == 1 || player == 2,
        ensures
            final(self).wf(),
            final(self).size == old(self).size,
            final(self).board@ == old(self).board_after(index@[0] as int, index@[1] as int, player),
            final(self).score_spec(player - 1) == old(self).score_spec(player - 1) + old(
                self,
            ).gain(index@[0] as int, index@[1] as int),
            final(self).score_spec(2 - player) == old(self).score_spec(2 - player),
            r == (old(self).gain(index@[0] as int, index@[1] as int) > 0),
    {
        let ghost s = self.size as int;
        let ghost prev = *self;
        let ghost xi = index@[0] as int;
        let ghost yi = index@[1] as int;
        let x = index[0];
        let y = index[1];
        proof {
            lemma_index(s, xi, yi);
        }
        self.set_cell(x, y, player);
        let ghost mid = *self;
        let nb = self.edge_neighbors(index);
        let mut has_closed = false;
        proof {
            assert(edge_box(s, xi, yi, 0) == edge_box(s, xi, yi, 0));
            assert(edge_box(s, xi, yi, 1) == edge_box(s, xi, yi, 1));
        }
        if let Some(b) = nb[0] {
            proof {
                let (bx, by) = (b@[0] as int, b@[1] as int);
                lemma_index(s, bx, by);
                lemma_index(s, bx + 1, by);
                lemma_index(s, bx - 1, by);
                lemma_index(s, bx, by + 1);
                lemma_index(s, bx, by - 1);
                assert(prev.cell_spec(bx, by) == 0);
            }
            has_closed = self.check_cell(b[0], b[1], player);
        }
        let ghost mid2 = *self;
        if let Some(b) = nb[1] {
            proof {
                let (bx, by) = (b@[0] as int, b@[1] as int);
                lemma_index(s, bx, by);
                lemma_index(s, bx + 1, by);
                lemma_index(s, bx - 1, by);
                lemma_index(s, bx, by + 1);
                lemma_index(s, bx, by - 1);
                assert(prev.cell_spec(bx, by) == 0);
                if let Some(b0) = edge_box(s, xi, yi, 0) {
                    lemma_index(s, b0.0, b0.1);
                }
            }
            let c = self.check_cell(b[0], b[1], player);
            has_closed = c || has_closed;
        }
        has_closed
    }

    /// Whether edge `index` is still open.
    pub fn is_remaining(&self, index: [usize; 2]) -> (r: bool)
        requires
            self.wf(),
        ensures
            r == self.is_open_edge(index@[0] as int, index@[1] as int),
    {
        let x = index[0];
        let y = index[1];
        if x >= self.size || y >= self.size || (x + y) % 2 != 1 {
            return false;
        }
        self.cell(x, y) == 0
    }

    /// The open edges, in row-major order.
    pub fn remaining(&self) -> (r: Vec<[usize; 2]>)
        requires
            self.wf(),
        ensures
            forall|i: int|
                0 <= i < r@.len() ==> self.is_open_edge(#[trigger] r@[i]@[0] as int, r@[i]@[1] as int),
            forall|x: int, y: int|
                #[trigger] self.is_open_edge(x, y) ==> exists|i: int|
                    0 <= i < r@.len() && #[trigger] r@[i]@[0] == x && r@[i]@[1] == y,
    {
        let mut r: Vec<[usize; 2]> = Vec::new();
        let mut x: usize = 0;
        while x < self.size
            invariant
                self.wf(),
                x <= self.size,
                forall|i: int|
                    0 <= i < r@.len() ==> self.is_open_edge(#[trigger] r@[i]@[0] as int, r@[i]@[1] as int),
                forall|a: int, b: int|
                    #[trigger] self.is_open_edge(a, b) && a < x ==> exists|i: int|
                        0 <= i < r@.len() && #[trigger] r@[i]@[0] == a && r@[i]@[1] == b,
            decreases self.size - x,
        {
            let mut y: usize = 0;
            while y < self.size
                invariant
                    self.wf(),
                    x < self.size,
                    y <= self.size,
                    forall|i: int|
                        0 <= i < r@.len() ==> self.is_open_edge(#[trigger] r@[i]@[0] as int, r@[i]@[1] as int),
                    forall|a: int, b: int|
                        #[trigger] self.is_open_edge(a, b) && (a < x || (a == x && b < y)) ==> exists|i: int|
                            0 <= i < r@.len() && #[trigger] r@[i]@[0] == a && r@[i]@[1] == b,
                decreases self.size - y,
            {
                if (x + y) % 2 == 1 && self.cell(x, y) == 0 {
                    let ghost old_r = r@;
                    r.push([x, y]);
                    proof {
                        assert(r@[r@.len() - 1]@[0] == x);
                        assert forall|a: int, b: int|
                            #[trigger] self.is_open_edge(a, b) && (a < x || (a == x && b < y + 1)) implies exists|i: int|
                                0 <= i < r@.len() && #[trigger] r@[i]@[0] == a && r@[i]@[1] == b by {
                            if a < x || b < y {
                                let i = choose|i: int| 0 <= i < old_r.len() && #[trigger] old_r[i]@[0] == a && old_r[i]@[1] == b;
                                assert(r@[i] == old_r[i]);
                            } else {
                                assert(r@[r@.len() - 1]@[0] == a);
                            }
                        }
                    }
                }
                y = y + 1;
            }
            x = x + 1;
        }
        r
    }

    /// Whether every edge is filled.
    pub fn is_over(&self) -> (r: bool)
        requires
            self.wf(),
        ensures
            r == self.is_over_spec(),
    {
        let open = self.remaining();
        proof {
            if open@.len() > 0 {
                assert(self.is_open_edge(open@[0]@[0] as int, open@[0]@[1] as int));
            }
        }
        open.len() == 0
    }

    /// Rule-based value of box `(bx, by)` beside a candidate move.
    pub fn box_priority(&self, bx: usize, by: usize) -> (r: u32)
        requires
            self.wf(),
            is_box(self.size as int, bx as int, by as int),
        ensures
            r == priority_of(self.filled_count(bx as int, by as int)),
    {
        let mut count: u32 = 0;
        if self.cell(bx + 1, by) != 0 {
            count = count + 1;
        }
        if self.cell(bx - 1, by) != 0 {
            count = count + 1;
        }
        if self.cell(bx, by + 1) != 0 {
            count = count + 1;
        }
        if self.cell(bx, by - 1) != 0 {
            count = count + 1;
        }
        if count == 0 {
            2
        } else if count == 1 {
            1
        } else if count == 2 {
            0
        } else {
            3
        }
    }

    /// Rule-based value of playing edge `index`: the sum over its neighbouring boxes.
    pub fn move_priority(&self, index: [usize; 2]) -> (r: u32)
        requires
            self.wf(),
            is_edge(self.size as int, index@[0] as int, index@[1] as int),
        ensures
            r == self.priority_spec(index@[0] as int, index@[1] as int),
    {
        let ghost s = self.size as int;
        let nb = self.edge_neighbors(index);
        proof {
            assert(edge_box(s, index@[0] as int, index@[1] as int, 0) == edge_box(s, index@[0] as int, index@[1] as int, 0));
            assert(edge_box(s, index@[0] as int, index@[1] as int, 1) == edge_box(s, index@[0] as int, index@[1] as int, 1));
        }
        let mut total: u32 = 0;
        if let Some(b) = nb[0] {
            total = total + self.box_priority(b[0], b[1]);
        }
        if let Some(b) = nb[1] {
            total = total + self.box_priority(b[0], b[1]);
        }
        total
    }

    /// The open edge the rule-based player picks: one of highest priority,
    /// the first in row-major order among equals. `None` once the board is full.
    pub fn best_move(&self) -> (r: Option<[usize; 2]>)
        requires
            self.wf(),
        ensures
            r is None <==> self.is_over_spec(),
            r matches Some(e) ==> self.is_best_move(e@[0] as int, e@[1] as int),
    {
        let open = self.remaining();
        if open.len() == 0 {
            return None;
        }
        let mut best = open[0];
        let mut best_priority = self.move_priority(best);
        let mut i: usize = 1;
        while i < open.len()
            invariant
                self.wf(),
                1 <= i <= open@.len(),
                forall|j: int|
                    0 <= j < open@.len() ==> self.is_open_edge(#[trigger] open@[j]@[0] as int, open@[j]@[1] as int),
                self.is_open_edge(best@[0] as int, best@[1] as int),
                best_priority == self.priority_spec(best@[0] as int, best@[1] as int),
                forall|j: int|
                    0 <= j < i ==> self.priority_spec(#[trigger] open@[j]@[0] as int, open@[j]@[1] as int)
                        <= best_priority,
            decreases open@.len() - i,
        {
            let e = open[i];
            assert(self.is_open_edge(open@[i as int]@[0] as int, open@[i as int]@[1] as int));
            let p = self.move_priority(e);
            if p > best_priority {
                best = e;
                best_priority = p;
            }
            i = i + 1;
        }
        proof {
            assert forall|a: int, b: int| #[trigger] self.is_open_edge(a, b) implies self.priority_spec(a, b)
                <= self.priority_spec(best@[0] as int, best@[1] as int) by {
                let j = choose|j: int| 0 <= j < open@.len() && #[trigger] open@[j]@[0] == a && open@[j]@[1] == b;
                assert(self.priority_spec(open@[j]@[0] as int, open@[j]@[1] as int) <= best_priority);
            }
        }
        Some(best)
    }

    fn side_input(&self, index: [usize; 2], side: Option<[usize; 2]>, k: Ghost<int>, out: &mut Vec<i8>)
        requires
            self.wf(),
            is_edge(self.size as int, index@[0] as int, index@[1] as int),
            match edge_box(self.size as int, index@[0] as int, index@[1] as int, k@) {
                Some(b) => side is Some && side->0@[0] == b.0 && side->0@[1] == b.1,
                None => side is None,
            },
        ensures
            final(out)@.map_values(|v: i8| v as int) == old(out)@.map_values(|v: i8| v as int)
                + self.side_features(index@[0] as int, index@[1] as int, k@),
    {
        let ghost start = out@;
        match side {
            Some(b) => {
                let edges = self.cell_neighbors(b);
                let ghost bb = (b@[0] as int, b@[1] as int);
                let mut j: usize = 0;
                while j < 4
                    invariant
                        self.wf(),
                        is_box(self.size as int, bb.0, bb.1),
                        j <= 4,
                        forall|t: int| 0 <= t < 4 ==> #[trigger] box_edge(bb.0, bb.1, t) == (edges@[t].0 as int, edges@[t].1 as int),
                        out@.map_values(|v: i8| v as int) == start.map_values(|v: i8| v as int)
                            + self.other_states(bb, index@[0] as int, index@[1] as int, j as int),
                    decreases 4 - j,
                {
                    let (ex, ey) = edges[j];
                    assert(box_edge(bb.0, bb.1, j as int) == (ex as int, ey as int));
                    if ex != index[0] || ey != index[1] {
                        let v: i8 = if self.cell(ex, ey) != 0 { 1 } else { 0 };
                        let ghost before = out@;
                        out.push(v);
                        assert(out@.map_values(|v: i8| v as int) =~= before.map_values(|v: i8| v as int).push(v as int));
                    }
                    j = j + 1;
                }
            },
            None => {
                out.push(-1);
                out.push(-1);
                out.push(-1);
                assert(out@.map_values(|v: i8| v as int) =~= start.map_values(|v: i8| v as int) + seq![-1int, -1int, -1int]);
            },
        }
    }

    /// The six inputs a network is given for candidate edge `index`: for each
    /// neighbouring box, the fill states of its three other edges (1 filled,
    /// 0 empty), or -1 three times where the box would be off the board.
    pub fn move_features(&self, index: [usize; 2]) -> (r: Vec<i8>)
        requires
            self.wf(),
            is_edge(self.size as int, index@[0] as int, index@[1] as int),
        ensures
            r@.map_values(|v: i8| v as int) == self.features_spec(index@[0] as int, index@[1] as int),
    {
        let ghost s = self.size as int;
        let nb = self.edge_neighbors(index);
        proof {
            assert(edge_box(s, index@[0] as int, index@[1] as int, 0) == edge_box(s, index@[0] as int, index@[1] as int, 0));
            assert(edge_box(s, index@[0] as int, index@[1] as int, 1) == edge_box(s, index@[0] as int, index@[1] as int, 1));
        }
        let mut r: Vec<i8> = Vec::new();
        assert(r@.map_values(|v: i8| v as int) =~= seq![]);
        self.side_input(index, nb[0], Ghost(0), &mut r);
        self.side_input(index, nb[1], Ghost(1), &mut r);
        proof {
            assert(r@.map_values(|v: i8| v as int) =~= self.features_spec(index@[0] as int, index@[1] as int));
        }
        r
    }

    /// The score of player `index` (0 or 1).
    pub fn score(&self, index: usize) -> (r: u32)
        requires
            index < 2,
        ensures
            r == self.score_spec(index as int),
    {
        self.scores[index]
    }
}

} // verus!
