//! Laws of the board engine: what holds of the starting grid, of every move,
//! and of a finished game.

use vstd::prelude::*;

use crate::reversi::{
    captures, cell_at, count_cells, count_in_row, count_in_rows, direction_spec, flipped,
    flipped_along, grid_wf, grid_width, in_run, initial_grid, is_legal, legal_moves,
    lemma_legal_is_listed, moves_in_row, moves_in_rows, on_ray, placed, ray, run_ends, CellState,
    Color, Position, Vector2,
};

verus! {

/// Discs of either color among the first `n` cells of `row`.
pub open spec fn discs_in_row(row: Seq<CellState>, n: int) -> int {
    count_in_row(row, CellState::Black, n) + count_in_row(row, CellState::White, n)
}

/// Two rows that are occupied at the same places, but for one cell `k` that
/// is empty in `a` and occupied in `b`, differ by one disc.
proof fn lemma_row_one_more_disc(a: Seq<CellState>, b: Seq<CellState>, k: int, n: int)
    requires
        0 <= n <= a.len(),
        a.len() == b.len(),
        0 <= k < a.len(),
        a[k] == CellState::Empty,
        b[k] != CellState::Empty,
        forall|i: int| 0 <= i < a.len() && i != k ==> (#[trigger] a[i] == CellState::Empty) == (b[i] == CellState::Empty),
    ensures
        discs_in_row(b, n) == discs_in_row(a, n) + if k < n { 1int } else { 0int },
    decreases n,
{
    if n > 0 {
        lemma_row_one_more_disc(a, b, k, n - 1);
    }
}

/// Two rows that are occupied at the same places hold as many discs.
proof fn lemma_row_same_discs(a: Seq<CellState>, b: Seq<CellState>, n: int)
    requires
        0 <= n <= a.len(),
        a.len() == b.len(),
        forall|i: int| 0 <= i < a.len() ==> (#[trigger] a[i] == CellState::Empty) == (b[i] == CellState::Empty),
    ensures
        discs_in_row(b, n) == discs_in_row(a, n),
    decreases n,
{
    if n > 0 {
        lemma_row_same_discs(a, b, n - 1);
    }
}

/// A captured cell holds an opponent's disc before the move.
proof fn lemma_flipped_was_opponent(g: Seq<Seq<CellState>>, c: Color, x: int, y: int, qx: int, qy: int)
    requires
        flipped(g, c, x, y, qx, qy),
    ensures
        cell_at(g, qx, qy) == Some(c.other().disc()),
{
    let i = choose|i: int| 0 <= i < 8 && #[trigger] flipped_along(g, c, x, y, direction_spec(i), qx, qy);
    let d = direction_spec(i);
    let j = choose|j: int| #[trigger] on_ray(x, y, d, j, qx, qy) && in_run(g, c, x, y, d, j);
    assert(ray(g, x, y, d, j) == Some(c.other().disc()));
}

proof fn lemma_rows_discs(g: Seq<Seq<CellState>>, c: Color, x: int, y: int, n: int)
    requires
        grid_wf(g),
        is_legal(g, c, x, y),
        0 <= n <= g.len(),
    ensures
        count_in_rows(placed(g, c, x, y), CellState::Black, n) + count_in_rows(
            placed(g, c, x, y),
            CellState::White,
            n,
        ) == count_in_rows(g, CellState::Black, n) + count_in_rows(g, CellState::White, n) + if y
            < n {
            1int
        } else {
            0int
        },
    decreases n,
{
    if n > 0 {
        lemma_rows_discs(g, c, x, y, n - 1);
        let r = n - 1;
        let a = g[r];
        let b = placed(g, c, x, y)[r];
        assert forall|i: int| 0 <= i < a.len() && !(r == y && i == x) implies (#[trigger] a[i]
            == CellState::Empty) == (b[i] == CellState::Empty) by {
            if flipped(g, c, x, y, i, r) {
                lemma_flipped_was_opponent(g, c, x, y, i, r);
            }
        }
        if r == y {
            lemma_row_one_more_disc(a, b, x, a.len() as int);
        } else {
            lemma_row_same_discs(a, b, a.len() as int);
        }
    }
}

/// A move adds exactly one disc to the board: the one placed; captured discs
/// change color and none is removed.
pub proof fn lemma_place_adds_one_disc(g: Seq<Seq<CellState>>, c: Color, x: int, y: int)
    requires
        grid_wf(g),
        is_legal(g, c, x, y),
    ensures
        count_cells(placed(g, c, x, y), CellState::Black) + count_cells(
            placed(g, c, x, y),
            CellState::White,
        ) == count_cells(g, CellState::Black) + count_cells(g, CellState::White) + 1,
{
    lemma_rows_discs(g, c, x, y, g.len() as int);
}

/// When neither side can move, no placement is legal for either side, so
/// `place` refuses every position.
pub proof fn lemma_game_over_refuses(g: Seq<Seq<CellState>>, c: Color, x: int, y: int)
    requires
        legal_moves(g, Color::Black).len() == 0,
        legal_moves(g, Color::White).len() == 0,
    ensures
        !is_legal(g, c, x, y),
{
    if is_legal(g, c, x, y) {
        lemma_legal_is_listed(g, c, x, y);
    }
}

/// A row in which `state` stands at index `k` alone.
proof fn lemma_count_single(row: Seq<CellState>, state: CellState, k: int, n: int)
    requires
        0 <= n <= row.len(),
        forall|i: int| 0 <= i < row.len() ==> (#[trigger] row[i] == state) == (i == k),
    ensures
        count_in_row(row, state, n) == if 0 <= k < n { 1int } else { 0int },
    decreases n,
{
    if n > 0 {
        lemma_count_single(row, state, k, n - 1);
    }
}

proof fn lemma_initial_rows(w: int, h: int, state: CellState, n: int)
    requires
        2 <= w,
        2 <= h,
        0 <= n <= h,
        state != CellState::Empty,
    ensures
        count_in_rows(initial_grid(w, h), state, n) == (if h / 2 - 1 < n { 1int } else { 0int }) + (
        if h / 2 < n {
            1int
        } else {
            0int
        }),
    decreases n,
{
    if n > 0 {
        lemma_initial_rows(w, h, state, n - 1);
        let g = initial_grid(w, h);
        let r = n - 1;
        let (cx, cy) = (w / 2 - 1, h / 2 - 1);
        if r == cy {
            let k = if state == CellState::White { cx } else { cx + 1 };
            lemma_count_single(g[r], state, k, w);
        } else if r == cy + 1 {
            let k = if state == CellState::Black { cx } else { cx + 1 };
            lemma_count_single(g[r], state, k, w);
        } else {
            lemma_count_single(g[r], state, -1, w);
        }
    }
}


/// A row in which every cell but columns `k1` and `k2` holds `state`.
proof fn lemma_count_all_but(row: Seq<CellState>, state: CellState, k1: int, k2: int, n: int)
    requires
        0 <= n <= row.len(),
        k1 != k2,
        forall|i: int| 0 <= i < row.len() ==> (#[trigger] row[i] == state) == (i != k1 && i != k2),
    ensures
        count_in_row(row, state, n) == n - (if 0 <= k1 < n { 1int } else { 0int }) - (if 0 <= k2
            < n {
            1int
        } else {
            0int
        }),
    decreases n,
{
    if n > 0 {
        lemma_count_all_but(row, state, k1, k2, n - 1);
    }
}

proof fn lemma_initial_empty_rows(w: int, h: int, n: int)
    requires
        2 <= w,
        2 <= h,
        0 <= n <= h,
    ensures
        count_in_rows(initial_grid(w, h), CellState::Empty, n) == n * w - (if h / 2 - 1 < n {
            2int
        } else {
            0int
        }) - (if h / 2 < n {
            2int
        } else {
            0int
        }),
    decreases n,
{
    if n > 0 {
        lemma_initial_empty_rows(w, h, n - 1);
        let g = initial_grid(w, h);
        let r = n - 1;
        let (cx, cy) = (w / 2 - 1, h / 2 - 1);
        if r == cy || r == cy + 1 {
            lemma_count_all_but(g[r], CellState::Empty, cx, cx + 1, w);
        } else {
            lemma_count_all_but(g[r], CellState::Empty, -1, -2, w);
        }
        assert((n - 1) * w + w == n * w) by (nonlinear_arith);
    }
}

/// The starting grid holds two discs of each color, and every other cell is
/// empty.
pub proof fn lemma_initial_discs(w: int, h: int)
    requires
        2 <= w,
        2 <= h,
    ensures
        count_cells(initial_grid(w, h), CellState::Black) == 2,
        count_cells(initial_grid(w, h), CellState::White) == 2,
        count_cells(initial_grid(w, h), CellState::Empty) == w * h - 4,
{
    lemma_initial_empty_rows(w, h, h);
    assert(h * w == w * h) by (nonlinear_arith);
    lemma_initial_rows(w, h, CellState::Black, h);
    lemma_initial_rows(w, h, CellState::White, h);
}

/// Column of the one opening move of `c` in row `h / 2 - 2 + r`, for `r` in
/// `0..4`, on the starting grid of `w` columns and `h` rows.
pub open spec fn opening_x(w: int, c: Color, r: int) -> int {
    let cx = w / 2 - 1;
    match c {
        Color::Black => if r == 0 {
            cx
        } else if r == 1 {
            cx - 1
        } else if r == 2 {
            cx + 2
        } else {
            cx + 1
        },
        Color::White => if r == 0 {
            cx + 1
        } else if r == 1 {
            cx + 2
        } else if r == 2 {
            cx - 1
        } else {
            cx
        },
    }
}

/// The four opening moves of `c` on the starting grid, in row-major order:
/// each lies in line, past one of the opponent's central discs, with one of
/// its own.
pub open spec fn opening_moves(w: int, h: int, c: Color) -> Seq<Position> {
    let cy = h / 2 - 1;
    Seq::new(
        4,
        |r: int| Vector2 { x: opening_x(w, c, r) as isize, y: (cy - 1 + r) as isize },
    )
}

proof fn lemma_initial_legal(w: int, h: int, c: Color, x: int, y: int)
    requires
        4 <= w,
        4 <= h,
    ensures
        is_legal(initial_grid(w, h), c, x, y) <==> (h / 2 - 2 <= y <= h / 2 + 1 && x == opening_x(
            w,
            c,
            y - (h / 2 - 2),
        )),
{
    let g = initial_grid(w, h);
    let opp = c.other().disc();
    if is_legal(g, c, x, y) {
        let i = choose|i: int| 0 <= i < 8 && #[trigger] captures(g, c, x, y, direction_spec(i));
        let d = direction_spec(i);
        let k = choose|k: int| #[trigger] run_ends(g, c, x, y, d, k);
        assert(ray(g, x, y, d, 1) == Some(opp));
        assert(ray(g, x, y, d, k) == Some(c.disc()));
        if k > 2 {
            assert(ray(g, x, y, d, 2) == Some(opp));
            if k > 3 {
                assert(ray(g, x, y, d, 3) == Some(opp));
            }
        }
    } else if h / 2 - 2 <= y <= h / 2 + 1 && x == opening_x(w, c, y - (h / 2 - 2)) {
        let r = y - (h / 2 - 2);
        let i: int = match c {
            Color::Black => if r == 0 {
                0
            } else if r == 1 {
                2
            } else if r == 2 {
                7
            } else {
                6
            },
            Color::White => if r == 0 {
                0
            } else if r == 1 {
                7
            } else if r == 2 {
                2
            } else {
                6
            },
        };
        let d = direction_spec(i);
        assert(ray(g, x, y, d, 1) == Some(c.other().disc()));
        assert(ray(g, x, y, d, 2) == Some(c.disc()));
        assert(run_ends(g, c, x, y, d, 2));
        assert(captures(g, c, x, y, direction_spec(i)));
    }
}

/// A row whose only legal cell is column `k` (none when `k` is off the row).
proof fn lemma_row_single_move(g: Seq<Seq<CellState>>, c: Color, y: int, k: int, n: int)
    requires
        0 <= n <= grid_width(g),
        forall|i: int| 0 <= i < grid_width(g) ==> (#[trigger] is_legal(g, c, i, y) <==> i == k),
    ensures
        moves_in_row(g, c, y, n) == if 0 <= k < n {
            seq![Vector2 { x: k as isize, y: y as isize }]
        } else {
            Seq::<Position>::empty()
        },
    decreases n,
{
    if n > 0 {
        lemma_row_single_move(g, c, y, k, n - 1);
        assert(is_legal(g, c, n - 1, y) <==> n - 1 == k);
        if k == n - 1 {
            assert(seq![Vector2 { x: k as isize, y: y as isize }] =~= Seq::<Position>::empty().push(
                Vector2 { x: k as isize, y: y as isize },
            ));
        }
    }
}

proof fn lemma_initial_rows_moves(w: int, h: int, c: Color, n: int)
    requires
        4 <= w <= isize::MAX,
        4 <= h <= isize::MAX,
        0 <= n <= h,
    ensures
        moves_in_rows(initial_grid(w, h), c, n) == opening_moves(w, h, c).subrange(
            0,
            if n <= h / 2 - 2 {
                0
            } else if n >= h / 2 + 2 {
                4
            } else {
                n - (h / 2 - 2)
            },
        ),
    decreases n,
{
    let g = initial_grid(w, h);
    let low = h / 2 - 2;
    if n > 0 {
        lemma_initial_rows_moves(w, h, c, n - 1);
        let y = n - 1;
        assert(grid_width(g) == w);
        let k = if low <= y <= low + 3 {
            opening_x(w, c, y - low)
        } else {
            -1
        };
        assert forall|i: int| 0 <= i < grid_width(g) implies (#[trigger] is_legal(g, c, i, y) <==> i == k) by {
            lemma_initial_legal(w, h, c, i, y);
        }
        lemma_row_single_move(g, c, y, k, w);
        let m = if n <= low { 0 } else if n >= low + 4 { 4 } else { n - low };
        let m1 = if n - 1 <= low { 0 } else if n - 1 >= low + 4 { 4 } else { n - 1 - low };
        if low <= y <= low + 3 {
            assert(opening_moves(w, h, c)[y - low] == Vector2 { x: k as isize, y: y as isize });
            assert(opening_moves(w, h, c).subrange(0, m1) + seq![Vector2 { x: k as isize, y: y as isize }]
                =~= opening_moves(w, h, c).subrange(0, m));
        } else {
            assert(opening_moves(w, h, c).subrange(0, m1) + Seq::<Position>::empty()
                =~= opening_moves(w, h, c).subrange(0, m));
        }
    }
}

/// On the starting grid of at least four columns and four rows each side has
/// exactly four legal moves, the same for both colors up to the swap of
/// colors: the cells that `opening_moves` names.
pub proof fn lemma_initial_moves(w: int, h: int, c: Color)
    requires
        4 <= w <= isize::MAX,
        4 <= h <= isize::MAX,
    ensures
        legal_moves(initial_grid(w, h), c) == opening_moves(w, h, c),
        legal_moves(initial_grid(w, h), c).len() == 4,
{
    lemma_initial_rows_moves(w, h, c, h);
    assert(opening_moves(w, h, c).subrange(0, 4) =~= opening_moves(w, h, c));
}

} // verus!
