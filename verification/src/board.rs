//! The recursive board tree and its rules: well-formedness of the tree,
//! the outcome of a board (undecided, won, or drawn), and the move router
//! that writes a mark into a leaf cell addressed by a coordinate path.

use vstd::prelude::*;

verus! {

/// One of the two player symbols.
#[derive(Clone, Copy, Debug, PartialEq, Eq, Structural)]
pub enum Player {
    First,
    Second,
}

/// One position of a 3x3 grid: at depth 0 a leaf cell holding at most one
/// mark, at greater depths a child board.
#[derive(Debug, PartialEq, Eq)]
pub enum Tile {
    Cell(Option<Player>),
    Sub(Box<Board>),
}

/// A board node: a 3x3 grid of tiles, all leaf cells (`depth == 0`) or all
/// child boards of depth one less (`depth > 0`). Tiles are stored row-major.
#[derive(Debug, PartialEq, Eq)]
pub struct Board {
    pub tiles: Vec<Tile>,
    pub depth: u8,
}

/// The resolution state of a board: still running, won by a player
/// (`Complete(Some(p))`), or drawn (`Complete(None)`).
#[derive(Clone, Copy, Debug, PartialEq, Eq)]
pub enum BoardState {
    Complete(Option<Player>),
    Running,
}

/// Why a move was rejected. On every rejection the tree is left untouched.
#[derive(Clone, Copy, Debug, PartialEq, Eq)]
pub enum MoveError {
    /// The addressed leaf cell already holds a mark.
    CellOccupied,
    /// A sub-board traversed by the path is already won or drawn.
    BoardClosed,
    /// The path length does not match the tree's depth.
    PathLength,
    /// The game already reached a final outcome.
    GameOver,
}

impl Player {
    /// The other player.
    pub open spec fn spec_swap(self) -> Player {
        match self {
            Player::First => Player::Second,
            Player::Second => Player::First,
        }
    }

    /// Returns the other player.
    pub fn swap(self) -> (r: Self)
        ensures
            r == self.spec_swap(),
    {
        match self {
            Player::First => Player::Second,
            Player::Second => Player::First,
        }
    }
}

/// Well-formedness of one tile at a given depth: a leaf cell exactly at
/// depth 0, a well-formed child board of depth `d - 1` otherwise.
pub open spec fn spec_wf_tile(t: Tile, d: int) -> bool
    decreases t, 0int,
{
    match t {
        Tile::Cell(_) => d == 0,
        Tile::Sub(sub) => d >= 1 && sub.depth == d - 1 && spec_wf(*sub),
    }
}

/// Well-formedness of a board: exactly nine tiles, each well formed at the
/// board's depth.
pub open spec fn spec_wf(b: Board) -> bool
    decreases b, 1int,
{
    b.tiles.len() == 9 && forall|i: int|
        0 <= i < 9 ==> spec_wf_tile(#[trigger] b.tiles[i], b.depth as int)
}

/// The effective mark a tile contributes to its parent's line check: the
/// mark of a marked leaf cell, or the winner of a won child board. An empty
/// cell and a drawn or still-running child contribute no mark.
pub open spec fn spec_eff(t: Tile) -> Option<Player>
    decreases t, 0int,
{
    match t {
        Tile::Cell(m) => m,
        Tile::Sub(sub) => match spec_state(*sub) {
            BoardState::Complete(Some(p)) => Some(p),
            _ => None,
        },
    }
}

/// Whether a tile counts as occupied for the fullness check: a marked leaf
/// cell, or a child board that is won or drawn. Note that a drawn child is
/// occupied even though it contributes no mark to line checks.
pub open spec fn spec_occupied(t: Tile) -> bool
    decreases t, 0int,
{
    match t {
        Tile::Cell(m) => m is Some,
        Tile::Sub(sub) => spec_state(*sub) is Complete,
    }
}

/// Whether row-major positions `(a, c, d)` form one of the eight winning
/// lines of a 3x3 grid: three rows, three columns, two diagonals.
pub open spec fn spec_is_line(a: int, c: int, d: int) -> bool {
    ||| (a, c, d) == (0int, 1int, 2int)
    ||| (a, c, d) == (3int, 4int, 5int)
    ||| (a, c, d) == (6int, 7int, 8int)
    ||| (a, c, d) == (0int, 3int, 6int)
    ||| (a, c, d) == (1int, 4int, 7int)
    ||| (a, c, d) == (2int, 5int, 8int)
    ||| (a, c, d) == (0int, 4int, 8int)
    ||| (a, c, d) == (2int, 4int, 6int)
}

/// Whether the three positions `(a, c, d)` all carry effective mark `p`.
pub open spec fn spec_line3(b: Board, p: Player, a: int, c: int, d: int) -> bool
    decreases b, 1int,
{
    &&& b.tiles.len() == 9
    &&& 0 <= a < 9
    &&& 0 <= c < 9
    &&& 0 <= d < 9
    &&& spec_eff(b.tiles[a]) == Some(p)
    &&& spec_eff(b.tiles[c]) == Some(p)
    &&& spec_eff(b.tiles[d]) == Some(p)
}

/// Whether some winning line carries effective mark `p` at all three
/// positions.
pub open spec fn spec_line_win(b: Board, p: Player) -> bool
    decreases b, 2int,
{
    exists|a: int, c: int, d: int| #[trigger] spec_is_line(a, c, d) && spec_line3(b, p, a, c, d)
}

/// Whether all nine positions are occupied.
pub open spec fn spec_full(b: Board) -> bool
    decreases b, 2int,
{
    forall|i: int| 0 <= i < b.tiles.len() ==> spec_occupied(#[trigger] b.tiles[i])
}

/// The outcome of a board: won by the player holding a completed line of
/// effective marks, drawn if no line is completed but every position is
/// occupied, otherwise still running.
pub open spec fn spec_state(b: Board) -> BoardState
    decreases b, 3int,
{
    if spec_line_win(b, Player::First) {
        BoardState::Complete(Some(Player::First))
    } else if spec_line_win(b, Player::Second) {
        BoardState::Complete(Some(Player::Second))
    } else if spec_full(b) {
        BoardState::Complete(None)
    } else {
        BoardState::Running
    }
}

/// Well-formedness of a tile on its own: a leaf cell, or a well-formed
/// child board.
pub open spec fn spec_tile_wf(t: Tile) -> bool {
    match t {
        Tile::Cell(_) => true,
        Tile::Sub(sub) => spec_wf(*sub),
    }
}

/// Whether every leaf cell below a tile is empty.
pub open spec fn spec_tile_empty(t: Tile) -> bool
    decreases t, 0int,
{
    match t {
        Tile::Cell(m) => m is None,
        Tile::Sub(sub) => spec_all_empty(*sub),
    }
}

/// Whether every leaf cell of the tree is empty.
pub open spec fn spec_all_empty(b: Board) -> bool
    decreases b, 1int,
{
    forall|i: int| 0 <= i < b.tiles.len() ==> spec_tile_empty(#[trigger] b.tiles[i])
}

impl Tile {
    /// Whether this position counts as occupied for the fullness check: a
    /// marked leaf cell, or a child board that is won or drawn.
    pub fn is_occupied(&self) -> (r: bool)
        requires
            spec_tile_wf(*self),
        ensures
            r == spec_occupied(*self),
    {
        match self {
            Tile::Cell(m) => m.is_some(),
            Tile::Sub(sub) => match sub.state() {
                BoardState::Complete(_) => true,
                BoardState::Running => false,
            },
        }
    }
}

/// Whether `*m` is `Some(p)`.
fn opt_is(m: &Option<Player>, p: Player) -> (r: bool)
    ensures
        r == (*m == Some(p)),
{
    match m {
        Some(q) => *q == p,
        None => false,
    }
}

/// Whether the marks at positions `a`, `c` and `d` are all `Some(p)`.
fn marks_hit(m: &Vec<Option<Player>>, p: Player, a: usize, c: usize, d: usize) -> (r: bool)
    requires
        a < m@.len(),
        c < m@.len(),
        d < m@.len(),
    ensures
        r == (m@[a as int] == Some(p) && m@[c as int] == Some(p) && m@[d as int] == Some(p)),
{
    opt_is(&m[a], p) && opt_is(&m[c], p) && opt_is(&m[d], p)
}

/// Whether some winning line of the nine marks carries `Some(p)` at all
/// three positions.
pub open spec fn spec_marks_line_win(m: Seq<Option<Player>>, p: Player) -> bool {
    exists|a: int, c: int, d: int|
        {
            &&& #[trigger] spec_is_line(a, c, d)
            &&& m.len() == 9
            &&& m[a] == Some(p)
            &&& m[c] == Some(p)
            &&& m[d] == Some(p)
        }
}

/// Checks the eight winning lines over a grid of nine marks.
fn marks_line_win(m: &Vec<Option<Player>>, p: Player) -> (r: bool)
    requires
        m@.len() == 9,
    ensures
        r == spec_marks_line_win(m@, p),
{
    let h0 = marks_hit(m, p, 0, 1, 2);
    let h1 = marks_hit(m, p, 3, 4, 5);
    let h2 = marks_hit(m, p, 6, 7, 8);
    let h3 = marks_hit(m, p, 0, 3, 6);
    let h4 = marks_hit(m, p, 1, 4, 7);
    let h5 = marks_hit(m, p, 2, 5, 8);
    let h6 = marks_hit(m, p, 0, 4, 8);
    let h7 = marks_hit(m, p, 2, 4, 6);
    let r = h0 || h1 || h2 || h3 || h4 || h5 || h6 || h7;
    proof {
        if r {
            if h0 {
                assert(spec_is_line(0, 1, 2));
            } else if h1 {
                assert(spec_is_line(3, 4, 5));
            } else if h2 {
                assert(spec_is_line(6, 7, 8));
            } else if h3 {
                assert(spec_is_line(0, 3, 6));
            } else if h4 {
                assert(spec_is_line(1, 4, 7));
            } else if h5 {
                assert(spec_is_line(2, 5, 8));
            } else if h6 {
                assert(spec_is_line(0, 4, 8));
            } else {
                assert(spec_is_line(2, 4, 6));
            }
        }
    }
    r
}

/// The row-major tile index addressed by a 1-indexed `(row, col)` pair.
pub open spec fn spec_idx(rc: (u8, u8)) -> int {
    (rc.0 - 1) * 3 + (rc.1 - 1)
}

/// Whether every coordinate of a path lies in `1..=3`.
pub open spec fn spec_path_ok(path: Seq<(u8, u8)>) -> bool {
    forall|i: int|
        0 <= i < path.len() ==> {
            let rc = #[trigger] path[i];
            1 <= rc.0 <= 3 && 1 <= rc.1 <= 3
        }
}

/// The child board at the 1-indexed `(row, col)` position of a branch board
/// (the board itself where that position holds a leaf cell).
pub open spec fn spec_child(b: Board, rc: (u8, u8)) -> Board {
    if 0 <= spec_idx(rc) < b.tiles.len() {
        match b.tiles[spec_idx(rc)] {
            Tile::Sub(sub) => *sub,
            Tile::Cell(_) => b,
        }
    } else {
        b
    }
}

/// The board node reached from `b` by descending one level per coordinate
/// of `path`.
pub open spec fn spec_node_at(b: Board, path: Seq<(u8, u8)>) -> Board
    decreases path.len(),
{
    if path.len() == 0 {
        b
    } else {
        spec_node_at(spec_child(b, path[0]), path.skip(1))
    }
}

/// The content of the leaf cell addressed by `path`: the last coordinate
/// selects a cell of the board reached by the earlier coordinates.
pub open spec fn spec_cell_at(b: Board, path: Seq<(u8, u8)>) -> Option<Player> {
    let leaf = spec_node_at(b, path.drop_last());
    if 0 <= spec_idx(path.last()) < leaf.tiles.len() {
        match leaf.tiles[spec_idx(path.last())] {
            Tile::Cell(m) => m,
            Tile::Sub(_) => None,
        }
    } else {
        None
    }
}

/// Whether some sub-board traversed by `path` is already resolved: the
/// boards addressed by the proper non-empty prefixes of the path, one per
/// branch level, are checked; the root itself is not.
pub open spec fn spec_closed_along(b: Board, path: Seq<(u8, u8)>) -> bool {
    exists|k: int|
        1 <= k <= b.depth && !(spec_state(#[trigger] spec_node_at(b, path.take(k))) is Running)
}

impl Board {
    /// Builds the empty tree of the given depth: `depth == 0` is a single
    /// leaf board, `depth == k` nests `k` branch levels above the leaves.
    pub fn new(depth: u8) -> (b: Board)
        ensures
            spec_wf(b),
            b.depth == depth,
            spec_all_empty(b),
            spec_state(b) == BoardState::Running,
        decreases depth,
    {
        let mut tiles: Vec<Tile> = Vec::new();
        let mut k: usize = 0;
        while k < 9
            invariant
                tiles@.len() == k,
                k <= 9,
                forall|i: int| 0 <= i < k ==> spec_wf_tile(#[trigger] tiles@[i], depth as int),
                forall|i: int| 0 <= i < k ==> spec_tile_empty(#[trigger] tiles@[i]),
            decreases 9 - k,
        {
            if depth == 0 {
                tiles.push(Tile::Cell(None));
            } else {
                tiles.push(Tile::Sub(Box::new(Board::new(depth - 1))));
            }
            k = k + 1;
        }
        let b = Board { tiles, depth };
        proof {
            lemma_empty_board_running(b);
        }
        b
    }

    /// The row-major index of the 0-indexed position `(row, col)`.
    fn board_pos(row: usize, col: usize) -> (i: usize)
        requires
            row < 3,
            col < 3,
        ensures
            i == row * 3 + col,
            i < 9,
    {
        row * 3 + col
    }

    /// Computes the outcome of this board from its current contents: the
    /// completed line rule first, then the fullness rule.
    pub fn state(&self) -> (r: BoardState)
        requires
            spec_wf(*self),
        ensures
            r == spec_state(*self),
        decreases self.depth,
    {
        let mut eff: Vec<Option<Player>> = Vec::new();
        let mut occ: Vec<bool> = Vec::new();
        let mut k: usize = 0;
        while k < 9
            invariant
                spec_wf(*self),
                eff@.len() == k,
                occ@.len() == k,
                k <= 9,
                forall|i: int| 0 <= i < k ==> eff@[i] == spec_eff(#[trigger] self.tiles@[i]),
                forall|i: int| 0 <= i < k ==> occ@[i] == spec_occupied(#[trigger] self.tiles@[i]),
            decreases 9 - k,
        {
            proof {
                assert(spec_wf_tile(self.tiles@[k as int], self.depth as int));
            }
            match &self.tiles[k] {
                Tile::Cell(m) => {
                    eff.push(*m);
                    occ.push(m.is_some());
                },
                Tile::Sub(sub) => {
                    let st = sub.state();
                    match st {
                        BoardState::Complete(Some(p)) => {
                            eff.push(Some(p));
                            occ.push(true);
                        },
                        BoardState::Complete(None) => {
                            eff.push(None);
                            occ.push(true);
                        },
                        BoardState::Running => {
                            eff.push(None);
                            occ.push(false);
                        },
                    }
                },
            }
            k = k + 1;
        }
        let first_wins = marks_line_win(&eff, Player::First);
        let second_wins = marks_line_win(&eff, Player::Second);
        let full = occ[0] && occ[1] && occ[2] && occ[3] && occ[4] && occ[5] && occ[6] && occ[7]
            && occ[8];
        proof {
            assert(first_wins == spec_line_win(*self, Player::First)) by {
                lemma_marks_line_win_agrees(*self, eff@, Player::First);
            }
            assert(second_wins == spec_line_win(*self, Player::Second)) by {
                lemma_marks_line_win_agrees(*self, eff@, Player::Second);
            }
            assert(full == spec_full(*self)) by {
                if full {
                    assert forall|i: int| 0 <= i < self.tiles@.len() implies spec_occupied(
                        #[trigger] self.tiles@[i],
                    ) by {
                        assert(occ@[i]);
                    }
                } else {
                    let j = choose|j: int| 0 <= j < 9 && !occ@[j];
                    assert(!spec_occupied(self.tiles@[j]));
                }
            }
        }
        if first_wins {
            BoardState::Complete(Some(Player::First))
        } else if second_wins {
            BoardState::Complete(Some(Player::Second))
        } else if full {
            BoardState::Complete(None)
        } else {
            BoardState::Running
        }
    }
}

/// The line check over a board and the line check over the pointwise
/// sequence of its tiles' effective marks agree.
proof fn lemma_marks_line_win_agrees(b: Board, m: Seq<Option<Player>>, p: Player)
    requires
        b.tiles.len() == 9,
        m.len() == 9,
        forall|i: int| 0 <= i < 9 ==> m[i] == spec_eff(#[trigger] b.tiles[i]),
    ensures
        spec_marks_line_win(m, p) == spec_line_win(b, p),
{
    if spec_marks_line_win(m, p) {
        let (a, c, d) = choose|a: int, c: int, d: int|
            {
                &&& #[trigger] spec_is_line(a, c, d)
                &&& m.len() == 9
                &&& m[a] == Some(p)
                &&& m[c] == Some(p)
                &&& m[d] == Some(p)
            };
        assert(spec_line3(b, p, a, c, d));
        assert(spec_line_win(b, p));
    }
    if spec_line_win(b, p) {
        let (a, c, d) = choose|a: int, c: int, d: int|
            #[trigger] spec_is_line(a, c, d) && spec_line3(b, p, a, c, d);
        assert(spec_marks_line_win(m, p));
    }
}

/// How a move is answered, by descent along the path: a length mismatch is
/// `PathLength`; a resolved sub-board met on the way down is `BoardClosed`;
/// an already-marked target cell is `CellOccupied`; otherwise the move is
/// accepted (`None`).
pub open spec fn spec_move_check(b: Board, path: Seq<(u8, u8)>) -> Option<MoveError>
    decreases path.len(),
{
    if path.len() != b.depth + 1 {
        Some(MoveError::PathLength)
    } else {
        match b.tiles[spec_idx(path[0])] {
            Tile::Cell(m) => if m is Some {
                Some(MoveError::CellOccupied)
            } else {
                None
            },
            Tile::Sub(sub) => if !(spec_state(*sub) is Running) {
                Some(MoveError::BoardClosed)
            } else {
                spec_move_check(*sub, path.skip(1))
            },
        }
    }
}

/// How an accepted move relates the tree after (`b1`) to the tree before
/// (`b0`): along the path every untouched tile is unchanged, and the one
/// addressed leaf cell, empty before, now holds `p`.
pub open spec fn spec_moved(b0: Board, b1: Board, path: Seq<(u8, u8)>, p: Player) -> bool
    decreases path.len(),
{
    &&& b1.depth == b0.depth
    &&& b1.tiles.len() == b0.tiles.len()
    &&& path.len() >= 1
    &&& {
        let i = spec_idx(path[0]);
        &&& 0 <= i < b0.tiles.len()
        &&& forall|j: int| 0 <= j < b0.tiles.len() && j != i ==> b1.tiles[j] == b0.tiles[j]
        &&& if path.len() == 1 {
            b0.tiles[i] == Tile::Cell(None::<Player>) && b1.tiles[i] == Tile::Cell(
                Some(p),
            )
        } else {
            &&& b0.tiles[i] matches Tile::Sub(s0)
            &&& b1.tiles[i] matches Tile::Sub(s1)
            &&& spec_moved(*s0, *s1, path.skip(1), p)
        }
    }
}

/// Descending along a non-empty prefix is one step into the selected child
/// followed by the rest of the prefix.
proof fn lemma_node_at_step(b: Board, path: Seq<(u8, u8)>, k: int)
    requires
        1 <= k <= path.len(),
    ensures
        spec_node_at(b, path.take(k)) == spec_node_at(
            spec_child(b, path[0]),
            path.skip(1).take(k - 1),
        ),
{
    let pre = path.take(k);
    assert(pre[0] == path[0]);
    assert(pre.skip(1) =~= path.skip(1).take(k - 1));
}

/// Every coordinate of a path's tail lies in `1..=3` when every coordinate
/// of the path does.
proof fn lemma_path_ok_skip(path: Seq<(u8, u8)>)
    requires
        spec_path_ok(path),
        path.len() >= 1,
    ensures
        spec_path_ok(path.skip(1)),
{
    let rest = path.skip(1);
    assert forall|j: int| 0 <= j < rest.len() implies {
        let rc = #[trigger] rest[j];
        1 <= rc.0 <= 3 && 1 <= rc.1 <= 3
    } by {
        assert(rest[j] == path[j + 1]);
    }
}

/// The cell addressed by a path of two or more coordinates is the cell
/// addressed in the selected child by the rest of the path.
proof fn lemma_cell_at_step(b: Board, path: Seq<(u8, u8)>)
    requires
        path.len() >= 2,
    ensures
        spec_cell_at(b, path) == spec_cell_at(spec_child(b, path[0]), path.skip(1)),
{
    let rest = path.skip(1);
    lemma_node_at_step(b, path, path.len() - 1);
    assert(path.drop_last() =~= path.take(path.len() - 1));
    assert(rest.drop_last() =~= rest.take(path.len() - 2));
    assert(path.last() == rest.last());
}

/// The reply of the move router, described over the addressed nodes rather
/// than by descent: a mismatched path length is `PathLength`; else, if any
/// sub-board traversed by the path is already resolved — even when the
/// addressed leaf cell is itself empty — the reply is `BoardClosed`; else
/// an already-marked target cell is `CellOccupied`; else the move is
/// accepted.
pub proof fn lemma_move_check_cases(b: Board, path: Seq<(u8, u8)>)
    requires
        spec_wf(b),
        spec_path_ok(path),
    ensures
        spec_move_check(b, path) == (if path.len() != b.depth + 1 {
            Some(MoveError::PathLength)
        } else if spec_closed_along(b, path) {
            Some(MoveError::BoardClosed)
        } else if spec_cell_at(b, path) is Some {
            Some(MoveError::CellOccupied)
        } else {
            None::<MoveError>
        }),
    decreases path.len(),
{
    if path.len() == b.depth + 1 {
        let i = spec_idx(path[0]);
        assert(1 <= path[0].0 <= 3 && 1 <= path[0].1 <= 3);
        assert(spec_wf_tile(b.tiles[i], b.depth as int));
        if b.depth == 0 {
            assert(!spec_closed_along(b, path));
            assert(path.drop_last() =~= path.take(0));
            assert(spec_node_at(b, path.drop_last()) == b);
            assert(path.last() == path[0]);
        } else {
            match b.tiles[i] {
                Tile::Cell(_) => {
                    assert(false);
                },
                Tile::Sub(sub) => {
                    let rest = path.skip(1);
                    assert(spec_child(b, path[0]) == *sub);
                    assert(spec_node_at(b, path.take(1)) == *sub) by {
                        lemma_node_at_step(b, path, 1);
                        assert(rest.take(0) =~= Seq::<(u8, u8)>::empty());
                    }
                    if !(spec_state(*sub) is Running) {
                        assert(spec_closed_along(b, path));
                    } else {
                        lemma_path_ok_skip(path);
                        lemma_move_check_cases(*sub, rest);
                        // the traversed sub-boards of `b` below level one are
                        // exactly the traversed sub-boards of `sub`
                        assert(spec_closed_along(b, path) == spec_closed_along(*sub, rest)) by {
                            if spec_closed_along(*sub, rest) {
                                let k = choose|k: int|
                                    1 <= k <= sub.depth && !(spec_state(
                                        #[trigger] spec_node_at(*sub, rest.take(k)),
                                    ) is Running);
                                lemma_node_at_step(b, path, k + 1);
                                assert(!(spec_state(spec_node_at(b, path.take(k + 1))) is Running));
                            }
                            if spec_closed_along(b, path) {
                                let k = choose|k: int|
                                    1 <= k <= b.depth && !(spec_state(
                                        #[trigger] spec_node_at(b, path.take(k)),
                                    ) is Running);
                                if k == 1 {
                                    assert(false);
                                } else {
                                    lemma_node_at_step(b, path, k);
                                    assert(!(spec_state(spec_node_at(*sub, rest.take(k - 1)))
                                        is Running));
                                }
                            }
                        }
                        assert(spec_cell_at(b, path) == spec_cell_at(*sub, rest)) by {
                            lemma_cell_at_step(b, path);
                        }
                    }
                },
            }
        }
    }
}

/// An accepted move writes the submitted mark into exactly the addressed
/// leaf cell: the cell was empty before and holds the mark afterwards (and
/// `spec_moved` itself states that every other tile along the way is left
/// as it was).
pub proof fn lemma_moved_writes_cell(b0: Board, b1: Board, path: Seq<(u8, u8)>, p: Player)
    requires
        spec_wf(b0),
        spec_path_ok(path),
        path.len() == b0.depth + 1,
        spec_moved(b0, b1, path, p),
    ensures
        spec_cell_at(b0, path) is None,
        spec_cell_at(b1, path) == Some(p),
    decreases path.len(),
{
    let i = spec_idx(path[0]);
    assert(1 <= path[0].0 <= 3 && 1 <= path[0].1 <= 3);
    assert(spec_wf_tile(b0.tiles[i], b0.depth as int));
    if path.len() == 1 {
        assert(path.drop_last() =~= Seq::<(u8, u8)>::empty());
        assert(path.last() == path[0]);
    } else {
        let rest = path.skip(1);
        match b0.tiles[i] {
            Tile::Cell(_) => {
                assert(false);
            },
            Tile::Sub(s0) => {
                let s1 = b1.tiles[i]->Sub_0;
                assert(spec_child(b0, path[0]) == *s0);
                assert(spec_child(b1, path[0]) == *s1);
                lemma_path_ok_skip(path);
                lemma_moved_writes_cell(*s0, *s1, rest, p);
                lemma_cell_at_step(b0, path);
                lemma_cell_at_step(b1, path);
            },
        }
    }
}

/// What one position of a board shows to a presentation layer: a mark (a
/// marked cell, or a sub-board won by that mark), an empty cell, a drawn
/// sub-board, or a sub-board still being played.
#[derive(Clone, Copy, Debug, PartialEq, Eq)]
pub enum Symbol {
    Mark(Player),
    Empty,
    Drawn,
    Pending,
}

/// The display symbol of a tile.
pub open spec fn spec_symbol(t: Tile) -> Symbol {
    match t {
        Tile::Cell(None) => Symbol::Empty,
        Tile::Cell(Some(p)) => Symbol::Mark(p),
        Tile::Sub(sub) => match spec_state(*sub) {
            BoardState::Running => Symbol::Pending,
            BoardState::Complete(None) => Symbol::Drawn,
            BoardState::Complete(Some(p)) => Symbol::Mark(p),
        },
    }
}

/// An entirely empty well-formed tree is still running.
pub proof fn lemma_empty_board_running(b: Board)
    requires
        spec_wf(b),
        spec_all_empty(b),
    ensures
        spec_state(b) == BoardState::Running,
    decreases b,
{
    assert forall|i: int| 0 <= i < 9 implies !spec_occupied(#[trigger] b.tiles[i]) && spec_eff(
        b.tiles[i],
    ) is None by {
        assert(spec_wf_tile(b.tiles[i], b.depth as int));
        assert(spec_tile_empty(b.tiles[i]));
        match b.tiles[i] {
            Tile::Cell(_) => {
            },
            Tile::Sub(sub) => {
                lemma_empty_board_running(*sub);
            },
        }
    }
    assert(!spec_line_win(b, Player::First)) by {
        if spec_line_win(b, Player::First) {
            let (a, c, d) = choose|a: int, c: int, d: int|
                #[trigger] spec_is_line(a, c, d) && spec_line3(b, Player::First, a, c, d);
            assert(spec_eff(b.tiles[a]) is None);
        }
    }
    assert(!spec_line_win(b, Player::Second)) by {
        if spec_line_win(b, Player::Second) {
            let (a, c, d) = choose|a: int, c: int, d: int|
                #[trigger] spec_is_line(a, c, d) && spec_line3(b, Player::Second, a, c, d);
            assert(spec_eff(b.tiles[a]) is None);
        }
    }
    assert(!spec_occupied(b.tiles[0]));
}

/// Classic win detection at depth 0: marks by `p` at the three cells of a
/// winning line — with no completed line for the other player — resolve
/// the board to won-by-`p`.
pub proof fn lemma_classic_win(b: Board, p: Player, a: int, c: int, d: int)
    requires
        spec_wf(b),
        b.depth == 0,
        spec_is_line(a, c, d),
        b.tiles[a] == Tile::Cell(Some(p)),
        b.tiles[c] == Tile::Cell(Some(p)),
        b.tiles[d] == Tile::Cell(Some(p)),
        !spec_line_win(b, p.spec_swap()),
    ensures
        spec_state(b) == BoardState::Complete(Some(p)),
{
    assert(spec_line3(b, p, a, c, d));
    assert(spec_line_win(b, p));
}

/// No board, at any depth, is won without a completed line of effective
/// marks for the winner.
pub proof fn lemma_win_needs_line(b: Board, p: Player)
    requires
        spec_state(b) == BoardState::Complete(Some(p)),
    ensures
        spec_line_win(b, p),
{
}

/// At depth 0, no cell configuration other than a completed line yields a
/// win: a won leaf board holds three cells of one winning line marked by
/// the winner.
pub proof fn lemma_classic_win_complete(b: Board, p: Player)
    requires
        spec_wf(b),
        b.depth == 0,
        spec_state(b) == BoardState::Complete(Some(p)),
    ensures
        exists|a: int, c: int, d: int|
            {
                &&& #[trigger] spec_is_line(a, c, d)
                &&& b.tiles[a] == Tile::Cell(Some(p))
                &&& b.tiles[c] == Tile::Cell(Some(p))
                &&& b.tiles[d] == Tile::Cell(Some(p))
            },
{
    lemma_win_needs_line(b, p);
    let (a, c, d) = choose|a: int, c: int, d: int|
        #[trigger] spec_is_line(a, c, d) && spec_line3(b, p, a, c, d);
    assert(spec_wf_tile(b.tiles[a], 0));
    assert(spec_wf_tile(b.tiles[c], 0));
    assert(spec_wf_tile(b.tiles[d], 0));
    assert(b.tiles[a] == Tile::Cell(Some(p)));
    assert(b.tiles[c] == Tile::Cell(Some(p)));
    assert(b.tiles[d] == Tile::Cell(Some(p)));
}

/// A sub-board resolved to won-by-`p` contributes `p` as its effective
/// mark at the parent level, whatever the cell-level history inside it. A
/// drawn or running sub-board contributes no mark.
pub proof fn lemma_subboard_effective_mark(t: Tile)
    requires
        t is Sub,
    ensures
        t matches Tile::Sub(sub) ==> spec_eff(t) == (match spec_state(*sub) {
            BoardState::Complete(Some(p)) => Some(p),
            _ => None::<Player>,
        }),
{
}

/// Three sub-boards won by `p` standing on one parent-level winning line —
/// with no completed parent line for the other player — resolve the parent
/// to won-by-`p`, independent of the state of any other sub-board.
pub proof fn lemma_won_subboards_win_parent(b: Board, p: Player, a: int, c: int, d: int)
    requires
        spec_wf(b),
        b.depth >= 1,
        spec_is_line(a, c, d),
        b.tiles[a] matches Tile::Sub(s) && spec_state(*s) == BoardState::Complete(Some(p)),
        b.tiles[c] matches Tile::Sub(s) && spec_state(*s) == BoardState::Complete(Some(p)),
        b.tiles[d] matches Tile::Sub(s) && spec_state(*s) == BoardState::Complete(Some(p)),
        !spec_line_win(b, p.spec_swap()),
    ensures
        spec_state(b) == BoardState::Complete(Some(p)),
{
    assert(spec_line3(b, p, a, c, d));
    assert(spec_line_win(b, p));
}

/// A board with every position occupied — every leaf cell marked or every
/// sub-board resolved — and no completed line for either player is drawn.
pub proof fn lemma_full_without_line_is_drawn(b: Board)
    requires
        spec_full(b),
        !spec_line_win(b, Player::First),
        !spec_line_win(b, Player::Second),
    ensures
        spec_state(b) == BoardState::Complete(None),
{
}

impl Board {
    /// Validates the move addressed by `path[level..]` without touching the
    /// tree: the read-only half of the move router. Answers exactly as
    /// `spec_move_check` describes.
    fn check_move(&self, path: &Vec<(u8, u8)>, level: usize) -> (r: Result<(), MoveError>)
        requires
            spec_wf(*self),
            spec_path_ok(path@),
            level <= path@.len(),
        ensures
            match r {
                Ok(()) => spec_move_check(*self, path@.skip(level as int)) is None,
                Err(e) => spec_move_check(*self, path@.skip(level as int)) == Some(e),
            },
        decreases path@.len() - level,
    {
        let ghost sfx = path@.skip(level as int);
        if path.len() - level != (self.depth as usize) + 1 {
            return Err(MoveError::PathLength);
        }
        let rc = path[level];
        proof {
            assert(sfx[0] == path@[level as int]);
        }
        let i = Self::board_pos((rc.0 - 1) as usize, (rc.1 - 1) as usize);
        proof {
            assert(spec_wf_tile(self.tiles@[i as int], self.depth as int));
        }
        match &self.tiles[i] {
            Tile::Cell(m) => match m {
                Some(_) => Err(MoveError::CellOccupied),
                None => Ok(()),
            },
            Tile::Sub(sub) => match sub.state() {
                BoardState::Running => {
                    let r = sub.check_move(path, level + 1);
                    proof {
                        assert(path@.skip(level as int + 1) =~= sfx.skip(1));
                    }
                    r
                },
                BoardState::Complete(_) => Err(MoveError::BoardClosed),
            },
        }
    }

    /// Writes `player`'s mark into the leaf cell addressed by
    /// `path[level..]`: the mutating half of the move router, called only
    /// once validation has fully succeeded.
    fn do_move(&mut self, player: Player, path: &Vec<(u8, u8)>, level: usize)
        requires
            spec_wf(*old(self)),
            spec_path_ok(path@),
            level < path@.len(),
            spec_move_check(*old(self), path@.skip(level as int)) is None,
        ensures
            spec_wf(*final(self)),
            spec_moved(*old(self), *final(self), path@.skip(level as int), player),
        decreases path@.len() - level,
    {
        let ghost sfx = path@.skip(level as int);
        let rc = path[level];
        proof {
            assert(sfx[0] == path@[level as int]);
        }
        let i = Self::board_pos((rc.0 - 1) as usize, (rc.1 - 1) as usize);
        proof {
            assert(spec_wf_tile(old(self).tiles@[i as int], old(self).depth as int));
        }
        let tile = &mut self.tiles[i];
        match tile {
            Tile::Cell(c) => {
                *c = Some(player);
            },
            Tile::Sub(sub) => {
                proof {
                    assert(level < path.len());
                    assert(path@.skip(level as int + 1) =~= sfx.skip(1));
                }
                sub.do_move(player, path, level + 1);
            },
        }
    }

    /// The display symbol of the 1-indexed position `(row, col)`, so a
    /// presentation layer can draw the grid without walking the tree.
    pub fn symbol_at(&self, row: u8, col: u8) -> (s: Symbol)
        requires
            spec_wf(*self),
            1 <= row <= 3,
            1 <= col <= 3,
        ensures
            s == spec_symbol(self.tiles[(row - 1) * 3 + (col - 1)]),
    {
        let i = Self::board_pos((row - 1) as usize, (col - 1) as usize);
        proof {
            assert(spec_wf_tile(self.tiles@[i as int], self.depth as int));
        }
        match &self.tiles[i] {
            Tile::Cell(m) => match m {
                Some(p) => Symbol::Mark(*p),
                None => Symbol::Empty,
            },
            Tile::Sub(sub) => match sub.state() {
                BoardState::Running => Symbol::Pending,
                BoardState::Complete(None) => Symbol::Drawn,
                BoardState::Complete(Some(p)) => Symbol::Mark(p),
            },
        }
    }

    /// Routes a move down the tree: validates the whole path first, and
    /// only then writes the mark, so a rejected move leaves the tree
    /// exactly as it was.
    pub fn make_move(&mut self, player: Player, path: &Vec<(u8, u8)>) -> (r: Result<
        (),
        MoveError,
    >)
        requires
            spec_wf(*old(self)),
            spec_path_ok(path@),
        ensures
            spec_wf(*final(self)),
            final(self).depth == old(self).depth,
            match r {
                Ok(()) => spec_move_check(*old(self), path@) is None && spec_moved(
                    *old(self),
                    *final(self),
                    path@,
                    player,
                ),
                Err(e) => spec_move_check(*old(self), path@) == Some(e) && *final(self) == *old(
                    self,
                ),
            },
    {
        let r = self.check_move(path, 0);
        proof {
            assert(path@.skip(0) =~= path@);
        }
        match r {
            Ok(()) => {
                self.do_move(player, path, 0);
                Ok(())
            },
            Err(e) => Err(e),
        }
    }
}

} // verus!
