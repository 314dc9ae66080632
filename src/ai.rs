//! A fixed-depth search player: each candidate move is scored by the
//! heuristic after it, less a discounted heuristic after the opponent's best
//! reply, and the first best candidate wins.

use vstd::prelude::*;

use crate::reversi::{
    count_cells, grid_wf, grid_width, is_legal, legal_moves, lemma_listed_is_legal, placed, Board,
    CellState, Color, Player, Position,
};

verus! {

/// Scores are exact rationals kept as integers. In the heuristic a held
/// corner is worth one and a disc `1 / MATERIAL_DIVISOR`; the heuristic is
/// counted in units of `1 / MATERIAL_DIVISOR`, evaluations in units of
/// `1 / SCORE_SCALE`.
pub const MATERIAL_DIVISOR: i128 = 64;

/// The weight of the reply's heuristic is `DISCOUNT_NUM / DISCOUNT_DEN` (0.98).
pub const DISCOUNT_NUM: i128 = 49;

pub const DISCOUNT_DEN: i128 = 50;

/// The scaled value of a score of one.
pub const SCORE_SCALE: i128 = MATERIAL_DIVISOR * DISCOUNT_DEN;

/// Corners count only while fewer discs than this stand on the board.
pub const CORNER_GATE: u128 = 48;

/// How many plies the player looks ahead.
pub const SEARCH_DEPTH: usize = 4;

/// How many of the four corner cells hold a disc of `c`.
pub open spec fn corners_held(g: Seq<Seq<CellState>>, c: Color) -> int {
    let w = grid_width(g);
    let h = g.len() as int;
    (if g[0][0] == c.disc() { 1int } else { 0int }) + (if g[0][w - 1] == c.disc() {
        1int
    } else {
        0int
    }) + (if g[h - 1][0] == c.disc() { 1int } else { 0int }) + (if g[h - 1][w - 1]
        == c.disc() {
        1int
    } else {
        0int
    })
}

/// Static value of the grid for `c`, in units of `1 / MATERIAL_DIVISOR`: the
/// discs of `c`, plus `MATERIAL_DIVISOR` for each corner it holds while fewer
/// than `CORNER_GATE` discs stand on the board.
pub open spec fn heuristic(c: Color, g: Seq<Seq<CellState>>) -> int {
    count_cells(g, c.disc()) + if count_cells(g, c.disc()) + count_cells(g, c.other().disc())
        < CORNER_GATE {
        MATERIAL_DIVISOR * corners_held(g, c)
    } else {
        0
    }
}

/// Value for `c` of placing at `p` and letting the opponent answer with its
/// best move searched `depth - 1` plies deep, in units of `1 / SCORE_SCALE`.
pub open spec fn evaluation(c: Color, g: Seq<Seq<CellState>>, p: Position, depth: nat) -> int
    decreases depth, 0nat, 0nat,
{
    if depth == 0 {
        0
    } else if !is_legal(g, c, p.x as int, p.y as int) {
        -SCORE_SCALE
    } else {
        let after = placed(g, c, p.x as int, p.y as int);
        if legal_moves(after, c.other()).len() == 0 {
            SCORE_SCALE as int
        } else {
            let reply = best_move(c.other(), after, (depth - 1) as nat);
            let answered = placed(after, c.other(), reply.x as int, reply.y as int);
            DISCOUNT_DEN * heuristic(c, after) - DISCOUNT_NUM * heuristic(c, answered)
        }
    }
}

/// Among the first `n` of `moves`, the first one of greatest evaluation and
/// that evaluation; `(-1, -1)` and no score when `n` is zero.
pub open spec fn best_among(
    c: Color,
    g: Seq<Seq<CellState>>,
    moves: Seq<Position>,
    n: int,
    depth: nat,
) -> (Position, Option<int>)
    decreases depth, 1nat, n,
{
    if n <= 0 {
        (Position { x: -1isize, y: -1isize }, None)
    } else {
        let prev = best_among(c, g, moves, n - 1, depth);
        let s = evaluation(c, g, moves[n - 1], depth);
        if prev.1 is None || prev.1->0 < s {
            (moves[n - 1], Some(s))
        } else {
            prev
        }
    }
}

/// The move the search picks for `c`.
pub open spec fn best_move(c: Color, g: Seq<Seq<CellState>>, depth: nat) -> Position
    decreases depth, 2nat, 0nat,
{
    let moves = legal_moves(g, c);
    best_among(c, g, moves, moves.len() as int, depth).0
}

proof fn lemma_best_among_listed(
    c: Color,
    g: Seq<Seq<CellState>>,
    moves: Seq<Position>,
    n: int,
    depth: nat,
)
    requires
        0 < n <= moves.len(),
    ensures
        (exists|m: int| 0 <= m < n && best_among(c, g, moves, n, depth).0 == moves[m]),
    decreases n,
{
    let prev = best_among(c, g, moves, n - 1, depth);
    if best_among(c, g, moves, n, depth).0 == moves[n - 1] {
        assert(best_among(c, g, moves, n, depth).0 == moves[n - 1]);
    } else {
        assert(prev.1 is Some);
        lemma_best_among_listed(c, g, moves, n - 1, depth);
    }
}

/// The search picks a legal move whenever there is one, and `(-1, -1)`
/// otherwise.
pub proof fn lemma_best_move_legal(c: Color, g: Seq<Seq<CellState>>, depth: nat)
    requires
        grid_wf(g),
    ensures
        legal_moves(g, c).len() > 0 ==> legal_moves(g, c).contains(best_move(c, g, depth)),
        legal_moves(g, c).len() > 0 ==> is_legal(
            g,
            c,
            best_move(c, g, depth).x as int,
            best_move(c, g, depth).y as int,
        ),
        legal_moves(g, c).len() == 0 ==> best_move(c, g, depth) == (Position { x: -1isize, y: -1isize }),
{
    let moves = legal_moves(g, c);
    if moves.len() > 0 {
        lemma_best_among_listed(c, g, moves, moves.len() as int, depth);
        let m = choose|m: int| 0 <= m < moves.len() && best_move(c, g, depth) == moves[m];
        lemma_listed_is_legal(g, c, m);
    }
}

/// The search has no hidden state: on boards with the same cells it picks
/// the same move.
pub proof fn lemma_search_deterministic(c: Color, a: &Board, b: &Board, depth: nat)
    requires
        a@ == b@,
    ensures
        best_move(c, a@, depth) == best_move(c, b@, depth),
{
}

/// A player that searches `SEARCH_DEPTH` plies ahead.
pub struct MinMaxPlayer {
    /// The side this player was last told it plays.
    pub color: Color,
}

impl MinMaxPlayer {
    pub fn new() -> (r: Self)
        ensures
            r.color == Color::Black,
    {
        MinMaxPlayer { color: Color::Black }
    }

    /// `heuristic(color, board@)`.
    pub fn evaluate_board(color: Color, board: &Board) -> (r: i128)
        requires
            board.wf(),
        ensures
            r == heuristic(color, board@),
            0 <= r <= usize::MAX + 4 * MATERIAL_DIVISOR,
    {
        let own = board.count(color);
        let mut score: i128 = own as i128;
        let total: u128 = own as u128 + board.count(color.opponent()) as u128;
        if total < CORNER_GATE {
            let w = board.width();
            let h = board.height();
            let disc = CellState::from(color);
            let mut corners: i128 = 0;
            if board.cell(0, 0) == disc {
                corners = corners + 1;
            }
            if board.cell(w - 1, 0) == disc {
                corners = corners + 1;
            }
            if board.cell(0, h - 1) == disc {
                corners = corners + 1;
            }
            if board.cell(w - 1, h - 1) == disc {
                corners = corners + 1;
            }
            score = score + MATERIAL_DIVISOR * corners;
        }
        score
    }

    /// `evaluation(color, board@, position, depth)`: the board is left as it is;
    /// the search works on copies.
    pub fn evaluate_position(color: Color, board: &Board, position: Position, depth: usize) -> (r:
        i128)
        requires
            board.wf(),
        ensures
            r == evaluation(color, board@, position, depth as nat),
        decreases depth, 0nat,
    {
        if depth == 0 {
            return 0;
        }
        let mut b = board.clone();
        if b.check_placeable(color, position) {
            let _ = b.place(color, position);
            let score = Self::evaluate_board(color, &b);
            if b.check_placeable_somewhere(color.opponent()) {
                let p = Self::highest_score_position(color.opponent(), &b, depth - 1);
                proof {
                    lemma_best_move_legal(color.other(), b@, (depth - 1) as nat);
                }
                let _ = b.place(color.opponent(), p);
                let reply = Self::evaluate_board(color, &b);
                DISCOUNT_DEN * score - DISCOUNT_NUM * reply
            } else {
                SCORE_SCALE
            }
        } else {
            -SCORE_SCALE
        }
    }

    /// The first of `board.placeable_positions(color)` whose evaluation
    /// `depth` plies deep is greatest; `(-1, -1)` when `color` has no move.
    pub fn highest_score_position(color: Color, board: &Board, depth: usize) -> (r: Position)
        requires
            board.wf(),
        ensures
            r == best_move(color, board@, depth as nat),
        decreases depth, 1nat,
    {
        let moves = board.placeable_positions(color);
        let mut found = false;
        let mut max_score: i128 = 0;
        let mut best_position = Position::new(-1, -1);
        let mut i: usize = 0;
        while i < moves.len()
            invariant
                board.wf(),
                moves@ == legal_moves(board@, color),
                i <= moves@.len(),
                best_among(color, board@, moves@, i as int, depth as nat) == (
                best_position,
                if found {
                    Some(max_score as int)
                } else {
                    None
                }),
            decreases moves@.len() - i,
        {
            let s = Self::evaluate_position(color, board, moves[i], depth);
            if !found || max_score < s {
                found = true;
                max_score = s;
                best_position = moves[i];
            }
            i = i + 1;
        }
        best_position
    }
}

impl Player for MinMaxPlayer {
    /// The search's pick, `SEARCH_DEPTH` plies deep.
    fn decide_position(&self, color: Color, board: &Board) -> (r: Position)
        ensures
            r == best_move(color, board@, SEARCH_DEPTH as nat),
    {
        Self::highest_score_position(color, board, SEARCH_DEPTH)
    }

    fn tell_color(&mut self, color: Color)
        ensures
            final(self).color == color,
    {
        self.color = color;
    }
}

} // verus!
