//! The board engine: the grid, which moves are legal, and what a move
//! captures.

use vstd::prelude::*;

pub use crate::vector2::Vector2;

verus! {

/// What one cell of the board holds.
#[derive(Clone, Copy, PartialEq, Eq, Structural, Debug)]
pub enum CellState {
    Empty,
    Black,
    White,
}

/// The side a disc or a move belongs to.
#[derive(Clone, Copy, PartialEq, Eq, Structural, Debug)]
pub enum Color {
    Black,
    White,
}

impl From<Color> for CellState {
    fn from(color: Color) -> (r: CellState) {
        match color {
            Color::Black => CellState::Black,
            Color::White => CellState::White,
        }
    }
}

impl vstd::std_specs::convert::FromSpecImpl<Color> for CellState {
    open spec fn obeys_from_spec() -> bool {
        true
    }

    open spec fn from_spec(color: Color) -> CellState {
        color.disc()
    }
}

impl Color {
    /// The other side.
    pub open spec fn other(self) -> Color {
        match self {
            Color::Black => Color::White,
            Color::White => Color::Black,
        }
    }

    /// The cell state of a disc of this color.
    pub open spec fn disc(self) -> CellState {
        match self {
            Color::Black => CellState::Black,
            Color::White => CellState::White,
        }
    }

    pub fn opponent(&self) -> (r: Color)
        ensures
            r == self.other(),
    {
        match self {
            Color::Black => Color::White,
            Color::White => Color::Black,
        }
    }
}

/// A cell of the board, as column `x` and row `y`.
pub type Position = Vector2<isize>;

/// Why a placement was refused.
#[derive(Clone, Copy, PartialEq, Eq, Structural, Debug)]
pub enum PlaceError {
    /// The cell is occupied, or no direction captures a disc.
    IllegalMove,
    /// The position lies outside the board.
    OutOfBounds,
}

/// The grid, row by row: `data[y][x]` is the cell in column `x` of row `y`.
pub struct Board {
    data: Vec<Vec<CellState>>,
}

/// Number of columns of a grid.
pub open spec fn grid_width(g: Seq<Seq<CellState>>) -> int {
    if g.len() == 0 { 0 } else { g[0].len() as int }
}

/// A grid is well formed when it has at least two rows, all rows have the same
/// length of at least two, and every cell can be addressed with `isize`
/// coordinates and counted in a `usize`.
pub open spec fn grid_wf(g: Seq<Seq<CellState>>) -> bool {
    &&& 2 <= g.len() <= isize::MAX
    &&& 2 <= grid_width(g) <= isize::MAX
    &&& grid_width(g) * g.len() <= usize::MAX
    &&& forall|y: int| 0 <= y < g.len() ==> (#[trigger] g[y]).len() == grid_width(g)
}

pub open spec fn in_bounds(g: Seq<Seq<CellState>>, x: int, y: int) -> bool {
    0 <= x < grid_width(g) && 0 <= y < g.len()
}

/// The cell at column `x`, row `y`, or `None` off the board.
pub open spec fn cell_at(g: Seq<Seq<CellState>>, x: int, y: int) -> Option<CellState> {
    if in_bounds(g, x, y) { Some(g[y][x]) } else { None }
}

impl View for Board {
    type V = Seq<Seq<CellState>>;

    closed spec fn view(&self) -> Seq<Seq<CellState>> {
        self.data@.map_values(|row: Vec<CellState>| row@)
    }
}

impl Clone for Board {
    fn clone(&self) -> (r: Self)
        ensures
            r@ == self@,
    {
        let mut data: Vec<Vec<CellState>> = Vec::new();
        let mut y: usize = 0;
        while y < self.data.len()
            invariant
                y <= self.data@.len(),
                data@.len() == y,
                forall|i: int| 0 <= i < y ==> (#[trigger] data@[i])@ == self.data@[i]@,
            decreases self.data@.len() - y,
        {
            let src = &self.data[y];
            let mut row: Vec<CellState> = Vec::new();
            let mut x: usize = 0;
            while x < src.len()
                invariant
                    x <= src@.len(),
                    row@ == src@.subrange(0, x as int),
                decreases src@.len() - x,
            {
                row.push(src[x]);
                x = x + 1;
                assert(row@ =~= src@.subrange(0, x as int));
            }
            assert(row@ =~= src@);
            data.push(row);
            y = y + 1;
        }
        let r = Board { data };
        assert(r@ =~= self@);
        r
    }
}

impl Board {
    pub open spec fn wf(&self) -> bool {
        grid_wf(self@)
    }

    /// A board of `size.x` columns and `size.y` rows, all empty but the four
    /// central discs.
    pub fn new_with_size(size: Vector2<usize>) -> (r: Self)
        requires
            2 <= size.x <= isize::MAX,
            2 <= size.y <= isize::MAX,
            size.x * size.y <= usize::MAX,
        ensures
            r.wf(),
            r@ == initial_grid(size.x as int, size.y as int),
    {
        let mut data: Vec<Vec<CellState>> = Vec::new();
        let mut y: usize = 0;
        while y < size.y
            invariant
                y <= size.y,
                data@.len() == y,
                forall|i: int| 0 <= i < y ==> (#[trigger] data@[i])@ == Seq::new(size.x as nat, |x: int| CellState::Empty),
            decreases size.y - y,
        {
            let mut col: Vec<CellState> = Vec::new();
            let mut x: usize = 0;
            while x < size.x
                invariant
                    x <= size.x,
                    col@ == Seq::new(x as nat, |i: int| CellState::Empty),
                decreases size.x - x,
            {
                col.push(CellState::Empty);
                x = x + 1;
                assert(col@ =~= Seq::new(x as nat, |i: int| CellState::Empty));
            }
            data.push(col);
            y = y + 1;
        }
        let center_x = size.x / 2 - 1;
        let center_y = size.y / 2 - 1;
        data[center_y][center_x] = CellState::White;
        data[center_y + 1][center_x + 1] = CellState::White;
        data[center_y + 1][center_x] = CellState::Black;
        data[center_y][center_x + 1] = CellState::Black;
        let r = Board { data };
        assert(r@ =~~= initial_grid(size.x as int, size.y as int));
        assert(grid_width(r@) == size.x);
        r
    }
}

/// The starting grid: `w` columns and `h` rows, empty but for White on the
/// central cells of one diagonal and Black on those of the other.
pub open spec fn initial_grid(w: int, h: int) -> Seq<Seq<CellState>> {
    let cx = w / 2 - 1;
    let cy = h / 2 - 1;
    Seq::new(
        h as nat,
        |y: int|
            Seq::new(
                w as nat,
                |x: int|
                    if (x == cx && y == cy) || (x == cx + 1 && y == cy + 1) {
                        CellState::White
                    } else if (x == cx && y == cy + 1) || (x == cx + 1 && y == cy) {
                        CellState::Black
                    } else {
                        CellState::Empty
                    },
            ),
    )
}

/// The eight unit steps, in the order in which moves examine them.
pub open spec fn direction_spec(i: int) -> Position {
    if i == 0 {
        Vector2 { x: 0, y: 1 }
    } else if i == 1 {
        Vector2 { x: 1, y: 1 }
    } else if i == 2 {
        Vector2 { x: 1, y: 0 }
    } else if i == 3 {
        Vector2 { x: -1isize, y: -1isize }
    } else if i == 4 {
        Vector2 { x: -1isize, y: 1 }
    } else if i == 5 {
        Vector2 { x: 1, y: -1isize }
    } else if i == 6 {
        Vector2 { x: 0, y: -1isize }
    } else {
        Vector2 { x: -1isize, y: 0 }
    }
}

/// A step of length one along a row, a column or a diagonal.
pub open spec fn is_unit(d: Position) -> bool {
    -1 <= d.x <= 1 && -1 <= d.y <= 1 && !(d.x == 0 && d.y == 0)
}

/// The cell `s` steps away from column `x`, row `y` along `d`, or `None` off the board.
pub open spec fn ray(g: Seq<Seq<CellState>>, x: int, y: int, d: Position, s: int) -> Option<CellState> {
    cell_at(g, x + s * d.x, y + s * d.y)
}

/// Every cell strictly between the start and step `k` along `d` holds an
/// opponent's disc.
pub open spec fn opponent_run(
    g: Seq<Seq<CellState>>,
    c: Color,
    x: int,
    y: int,
    d: Position,
    k: int,
) -> bool {
    forall|j: int| 1 <= j < k ==> #[trigger] ray(g, x, y, d, j) == Some(c.other().disc())
}

/// Along `d`, at least one opponent's disc is followed, at step `k`, by a disc of `c`.
pub open spec fn run_ends(g: Seq<Seq<CellState>>, c: Color, x: int, y: int, d: Position, k: int) -> bool {
    &&& k >= 2
    &&& opponent_run(g, c, x, y, d, k)
    &&& ray(g, x, y, d, k) == Some(c.disc())
}

/// A disc of `c` placed at column `x`, row `y` captures along `d`.
pub open spec fn captures(g: Seq<Seq<CellState>>, c: Color, x: int, y: int, d: Position) -> bool {
    exists|k: int| #[trigger] run_ends(g, c, x, y, d, k)
}

/// Of the first `n` directions, those that capture, in their order.
pub open spec fn legal_dirs(g: Seq<Seq<CellState>>, c: Color, x: int, y: int, n: int) -> Seq<Position>
    decreases n,
{
    if n <= 0 {
        seq![]
    } else {
        let prev = legal_dirs(g, c, x, y, n - 1);
        if captures(g, c, x, y, direction_spec(n - 1)) {
            prev.push(direction_spec(n - 1))
        } else {
            prev
        }
    }
}

/// `c` may place at column `x`, row `y`: the cell is on the board, empty, and
/// some direction captures.
pub open spec fn is_legal(g: Seq<Seq<CellState>>, c: Color, x: int, y: int) -> bool {
    &&& in_bounds(g, x, y)
    &&& g[y][x] == CellState::Empty
    &&& exists|i: int| 0 <= i < 8 && #[trigger] captures(g, c, x, y, direction_spec(i))
}

proof fn lemma_directions_unit(i: int)
    requires
        0 <= i < 8,
    ensures
        is_unit(direction_spec(i)),
{
}

proof fn lemma_unit_step(s: int, d: int)
    requires
        -1 <= d <= 1,
    ensures
        d == 1 ==> s * d == s,
        d == -1 ==> s * d == -s,
        d == 0 ==> s * d == 0,
        s * d + d == (s + 1) * d,
{
    assert(s * d + d == (s + 1) * d) by (nonlinear_arith);
    if d == 1 {
        assert(s * d == s) by (nonlinear_arith) requires d == 1;
    } else if d == -1 {
        assert(s * d == -s) by (nonlinear_arith) requires d == -1;
    } else {
        assert(s * d == 0) by (nonlinear_arith) requires d == 0;
    }
}

/// A ray from a cell on the board leaves it within `w + h` steps.
proof fn lemma_ray_leaves(g: Seq<Seq<CellState>>, x: int, y: int, d: Position, s: int)
    requires
        in_bounds(g, x, y),
        is_unit(d),
        in_bounds(g, x + s * d.x, y + s * d.y),
        s >= 0,
    ensures
        s < grid_width(g) + g.len(),
{
    lemma_unit_step(s, d.x as int);
    lemma_unit_step(s, d.y as int);
}

/// The directions in `legal_dirs` are exactly the capturing ones.
proof fn lemma_legal_dirs(g: Seq<Seq<CellState>>, c: Color, x: int, y: int, n: int)
    requires
        0 <= n <= 8,
    ensures
        forall|d: Position|
            legal_dirs(g, c, x, y, n).contains(d) <==> exists|i: int|
                0 <= i < n && d == direction_spec(i) && #[trigger] captures(g, c, x, y, direction_spec(i)),
        legal_dirs(g, c, x, y, n).len() > 0 <==> exists|i: int|
            0 <= i < n && #[trigger] captures(g, c, x, y, direction_spec(i)),
    decreases n,
{
    if n > 0 {
        lemma_legal_dirs(g, c, x, y, n - 1);
        let prev = legal_dirs(g, c, x, y, n - 1);
        if captures(g, c, x, y, direction_spec(n - 1)) {
            broadcast use vstd::seq_lib::lemma_seq_contains_after_push;

            assert(prev.push(direction_spec(n - 1)).contains(direction_spec(n - 1)));
        }
    }
}

impl Board {
    /// The step of index `i` of `direction_spec`.
    fn direction(i: usize) -> (r: Position)
        requires
            i < 8,
        ensures
            r == direction_spec(i as int),
    {
        if i == 0 {
            Vector2::new(0, 1)
        } else if i == 1 {
            Vector2::new(1, 1)
        } else if i == 2 {
            Vector2::new(1, 0)
        } else if i == 3 {
            Vector2::new(-1, -1)
        } else if i == 4 {
            Vector2::new(-1, 1)
        } else if i == 5 {
            Vector2::new(1, -1)
        } else if i == 6 {
            Vector2::new(0, -1)
        } else {
            Vector2::new(-1, 0)
        }
    }

    /// The board of the standard game: eight by eight.
    pub fn new() -> (r: Self)
        ensures
            r.wf(),
            r@ == initial_grid(8, 8),
    {
        Self::new_with_size(Vector2::new(8, 8))
    }

    pub fn width(&self) -> (r: usize)
        requires
            self.wf(),
        ensures
            r == grid_width(self@),
    {
        self.data[0].len()
    }

    pub fn height(&self) -> (r: usize)
        requires
            self.wf(),
        ensures
            r == self@.len(),
    {
        self.data.len()
    }

    /// The state of the cell in column `x`, row `y`.
    pub fn cell(&self, x: usize, y: usize) -> (r: CellState)
        requires
            self.wf(),
            x < grid_width(self@),
            y < self@.len(),
        ensures
            r == self@[y as int][x as int],
    {
        self.data[y][x]
    }

    fn check_valid_position(&self, position: Position) -> (r: bool)
        requires
            self.wf(),
        ensures
            r == in_bounds(self@, position.x as int, position.y as int),
    {
        position.x >= 0 && position.y >= 0 && position.x < self.width() as isize && position.y
            < self.height() as isize
    }

    /// Whether the cell at `position` is on the board and holds `state`.
    fn holds(&self, position: Position, state: CellState) -> (r: bool)
        requires
            self.wf(),
        ensures
            r == (cell_at(self@, position.x as int, position.y as int) == Some(state)),
    {
        self.check_valid_position(position) && self.data[position.y as usize][position.x
            as usize] == state
    }

    /// Whether a disc of `color` at `position` captures along `d`.
    fn captures_toward(&self, color: Color, position: Position, d: Position) -> (r: bool)
        requires
            self.wf(),
            in_bounds(self@, position.x as int, position.y as int),
            is_unit(d),
        ensures
            r == captures(self@, color, position.x as int, position.y as int, d),
    {
        let ghost g = self@;
        let ghost (x, y) = (position.x as int, position.y as int);
        let opponent: CellState = CellState::from(color.opponent());
        let ghost mut s: int = 1;
        proof {
            lemma_unit_step(0, d.x as int);
            lemma_unit_step(0, d.y as int);
        }
        let mut p = position.add(d);
        let mut seen_opponent = false;
        while self.holds(p, opponent)
            invariant
                self.wf(),
                g == self@,
                is_unit(d),
                in_bounds(g, x, y),
                1 <= s <= grid_width(g) + g.len(),
                p.x == x + s * d.x,
                p.y == y + s * d.y,
                opponent == color.other().disc(),
                opponent_run(g, color, x, y, d, s),
                seen_opponent == (s >= 2),
            decreases grid_width(g) + g.len() - s,
        {
            proof {
                lemma_ray_leaves(g, x, y, d, s);
                lemma_unit_step(s, d.x as int);
                lemma_unit_step(s, d.y as int);
            }
            p = p.add(d);
            seen_opponent = true;
            proof {
                s = s + 1;
            }
        }
        let r = seen_opponent && self.holds(p, CellState::from(color));
        proof {
            if r {
                assert(run_ends(g, color, x, y, d, s));
            } else if captures(g, color, x, y, d) {
                let k = choose|k: int| #[trigger] run_ends(g, color, x, y, d, k);
                if k < s {
                    assert(ray(g, x, y, d, k) == Some(color.other().disc()));
                } else if k > s {
                    assert(ray(g, x, y, d, s) == Some(color.other().disc()));
                }
            }
        }
        r
    }

    /// The directions along which a disc of `color` at `position` captures, in
    /// the order of `direction_spec`; none when the cell is occupied.
    fn placeable_directions(&self, color: Color, position: Position) -> (r: Vec<Position>)
        requires
            self.wf(),
            in_bounds(self@, position.x as int, position.y as int),
        ensures
            r@ == if self@[position.y as int][position.x as int] == CellState::Empty {
                legal_dirs(self@, color, position.x as int, position.y as int, 8)
            } else {
                seq![]
            },
    {
        let mut result: Vec<Position> = Vec::new();
        if self.data[position.y as usize][position.x as usize] != CellState::Empty {
            return result;
        }
        let mut i: usize = 0;
        while i < 8
            invariant
                self.wf(),
                in_bounds(self@, position.x as int, position.y as int),
                i <= 8,
                result@ == legal_dirs(self@, color, position.x as int, position.y as int, i as int),
            decreases 8 - i,
        {
            let d = Self::direction(i);
            proof {
                lemma_directions_unit(i as int);
            }
            if self.captures_toward(color, position, d) {
                result.push(d);
            }
            i = i + 1;
        }
        result
    }

    /// Whether `color` may place at `position`.
    pub fn check_placeable(&self, color: Color, position: Position) -> (r: bool)
        requires
            self.wf(),
        ensures
            r == is_legal(self@, color, position.x as int, position.y as int),
    {
        if !self.check_valid_position(position) {
            return false;
        }
        let dirs = self.placeable_directions(color, position);
        proof {
            lemma_legal_dirs(self@, color, position.x as int, position.y as int, 8);
        }
        !dirs.is_empty()
    }
}

/// Legal cells of row `y` among its first `n` columns, left to right.
pub open spec fn moves_in_row(g: Seq<Seq<CellState>>, c: Color, y: int, n: int) -> Seq<Position>
    decreases n,
{
    if n <= 0 {
        seq![]
    } else {
        let prev = moves_in_row(g, c, y, n - 1);
        if is_legal(g, c, n - 1, y) {
            prev.push(Vector2 { x: (n - 1) as isize, y: y as isize })
        } else {
            prev
        }
    }
}

/// Legal cells of the first `n` rows, in row-major order.
pub open spec fn moves_in_rows(g: Seq<Seq<CellState>>, c: Color, n: int) -> Seq<Position>
    decreases n,
{
    if n <= 0 {
        seq![]
    } else {
        moves_in_rows(g, c, n - 1) + moves_in_row(g, c, n - 1, grid_width(g))
    }
}

/// Every cell where `c` may place, in row-major order.
pub open spec fn legal_moves(g: Seq<Seq<CellState>>, c: Color) -> Seq<Position> {
    moves_in_rows(g, c, g.len() as int)
}

/// Cells among the first `n` of `row` that hold `state`.
pub open spec fn count_in_row(row: Seq<CellState>, state: CellState, n: int) -> int
    decreases n,
{
    if n <= 0 {
        0
    } else {
        count_in_row(row, state, n - 1) + if row[n - 1] == state {
            1int
        } else {
            0int
        }
    }
}

/// Cells of the first `n` rows that hold `state`.
pub open spec fn count_in_rows(g: Seq<Seq<CellState>>, state: CellState, n: int) -> int
    decreases n,
{
    if n <= 0 {
        0
    } else {
        count_in_rows(g, state, n - 1) + count_in_row(g[n - 1], state, g[n - 1].len() as int)
    }
}

/// Cells of the grid that hold `state`.
pub open spec fn count_cells(g: Seq<Seq<CellState>>, state: CellState) -> int {
    count_in_rows(g, state, g.len() as int)
}

/// Column `qx`, row `qy` is `j` steps from column `x`, row `y` along `d`.
pub open spec fn on_ray(x: int, y: int, d: Position, j: int, qx: int, qy: int) -> bool {
    qx == x + j * d.x && qy == y + j * d.y
}

/// Step `j` along `d` lies in the opponent's run that a disc of `c` at
/// column `x`, row `y` captures.
pub open spec fn in_run(g: Seq<Seq<CellState>>, c: Color, x: int, y: int, d: Position, j: int) -> bool {
    &&& captures(g, c, x, y, d)
    &&& 1 <= j
    &&& opponent_run(g, c, x, y, d, j + 1)
}

/// Column `qx`, row `qy` lies in the run captured along `d`.
pub open spec fn flipped_along(
    g: Seq<Seq<CellState>>,
    c: Color,
    x: int,
    y: int,
    d: Position,
    qx: int,
    qy: int,
) -> bool {
    exists|j: int| #[trigger] on_ray(x, y, d, j, qx, qy) && in_run(g, c, x, y, d, j)
}

/// Column `qx`, row `qy` lies in a run captured in some direction.
pub open spec fn flipped(g: Seq<Seq<CellState>>, c: Color, x: int, y: int, qx: int, qy: int) -> bool {
    exists|i: int| 0 <= i < 8 && #[trigger] flipped_along(g, c, x, y, direction_spec(i), qx, qy)
}

/// The grid after `c` places at column `x`, row `y`: that cell and every
/// captured disc hold `c`, all other cells are as they were.
pub open spec fn placed(g: Seq<Seq<CellState>>, c: Color, x: int, y: int) -> Seq<Seq<CellState>> {
    Seq::new(
        g.len(),
        |qy: int|
            Seq::new(
                grid_width(g) as nat,
                |qx: int|
                    if (qx == x && qy == y) || flipped(g, c, x, y, qx, qy) {
                        c.disc()
                    } else {
                        g[qy][qx]
                    },
            ),
    )
}

proof fn lemma_legal_in_row(g: Seq<Seq<CellState>>, c: Color, y: int, n: int, x: int)
    requires
        0 <= x < n,
        is_legal(g, c, x, y),
    ensures
        moves_in_row(g, c, y, n).len() > 0,
    decreases n,
{
    if x < n - 1 {
        lemma_legal_in_row(g, c, y, n - 1, x);
    }
}

proof fn lemma_row_in_rows(g: Seq<Seq<CellState>>, c: Color, n: int, y: int)
    requires
        0 <= y < n,
        moves_in_row(g, c, y, grid_width(g)).len() > 0,
    ensures
        moves_in_rows(g, c, n).len() > 0,
    decreases n,
{
    if y < n - 1 {
        lemma_row_in_rows(g, c, n - 1, y);
    }
}

/// A legal cell makes the list of legal moves non-empty.
pub proof fn lemma_legal_is_listed(g: Seq<Seq<CellState>>, c: Color, x: int, y: int)
    requires
        is_legal(g, c, x, y),
    ensures
        legal_moves(g, c).len() > 0,
{
    lemma_legal_in_row(g, c, y, grid_width(g), x);
    lemma_row_in_rows(g, c, g.len() as int, y);
}

proof fn lemma_row_moves_legal(g: Seq<Seq<CellState>>, c: Color, y: int, n: int)
    requires
        grid_wf(g),
        0 <= y < g.len(),
        n <= grid_width(g),
    ensures
        forall|i: int|
            0 <= i < moves_in_row(g, c, y, n).len() ==> is_legal(
                g,
                c,
                #[trigger] moves_in_row(g, c, y, n)[i].x as int,
                moves_in_row(g, c, y, n)[i].y as int,
            ),
    decreases n,
{
    if n > 0 {
        lemma_row_moves_legal(g, c, y, n - 1);
        let prev = moves_in_row(g, c, y, n - 1);
        let cur = moves_in_row(g, c, y, n);
        assert forall|i: int| 0 <= i < cur.len() implies is_legal(
            g,
            c,
            #[trigger] cur[i].x as int,
            cur[i].y as int,
        ) by {
            if i < prev.len() {
                assert(cur[i] == prev[i]);
            }
        }
    }
}

proof fn lemma_rows_moves_legal(g: Seq<Seq<CellState>>, c: Color, n: int)
    requires
        grid_wf(g),
        n <= g.len(),
    ensures
        forall|i: int|
            0 <= i < moves_in_rows(g, c, n).len() ==> is_legal(
                g,
                c,
                #[trigger] moves_in_rows(g, c, n)[i].x as int,
                moves_in_rows(g, c, n)[i].y as int,
            ),
    decreases n,
{
    if n > 0 {
        lemma_rows_moves_legal(g, c, n - 1);
        lemma_row_moves_legal(g, c, n - 1, grid_width(g));
        let a = moves_in_rows(g, c, n - 1);
        let b = moves_in_row(g, c, n - 1, grid_width(g));
        assert forall|i: int| 0 <= i < (a + b).len() implies is_legal(
            g,
            c,
            #[trigger] (a + b)[i].x as int,
            (a + b)[i].y as int,
        ) by {
            if i >= a.len() {
                assert((a + b)[i] == b[i - a.len()]);
            }
        }
    }
}

/// Every listed move is legal.
pub proof fn lemma_listed_is_legal(g: Seq<Seq<CellState>>, c: Color, i: int)
    requires
        grid_wf(g),
        0 <= i < legal_moves(g, c).len(),
    ensures
        is_legal(g, c, legal_moves(g, c)[i].x as int, legal_moves(g, c)[i].y as int),
{
    lemma_rows_moves_legal(g, c, g.len() as int);
}

proof fn lemma_count_row_bound(row: Seq<CellState>, state: CellState, n: int)
    requires
        0 <= n,
    ensures
        0 <= count_in_row(row, state, n) <= n,
    decreases n,
{
    if n > 0 {
        lemma_count_row_bound(row, state, n - 1);
    }
}

proof fn lemma_count_rows_bound(g: Seq<Seq<CellState>>, state: CellState, n: int)
    requires
        grid_wf(g),
        0 <= n <= g.len(),
    ensures
        0 <= count_in_rows(g, state, n) <= n * grid_width(g),
    decreases n,
{
    if n > 0 {
        lemma_count_rows_bound(g, state, n - 1);
        lemma_count_row_bound(g[n - 1], state, g[n - 1].len() as int);
        assert((n - 1) * grid_width(g) + grid_width(g) == n * grid_width(g)) by (nonlinear_arith);
    }
}

impl Board {
    /// Every cell where `color` may place, in row-major order.
    pub fn placeable_positions(&self, color: Color) -> (r: Vec<Position>)
        requires
            self.wf(),
        ensures
            r@ == legal_moves(self@, color),
    {
        let mut result: Vec<Position> = Vec::new();
        let h = self.height();
        let w = self.width();
        let mut y: usize = 0;
        while y < h
            invariant
                self.wf(),
                h == self@.len(),
                w == grid_width(self@),
                y <= h,
                result@ == moves_in_rows(self@, color, y as int),
            decreases h - y,
        {
            let mut x: usize = 0;
            while x < w
                invariant
                    self.wf(),
                    h == self@.len(),
                    w == grid_width(self@),
                    y < h,
                    x <= w,
                    result@ == moves_in_rows(self@, color, y as int) + moves_in_row(self@, color, y as int, x as int),
                decreases w - x,
            {
                let p = Position::new(x as isize, y as isize);
                if self.check_placeable(color, p) {
                    result.push(p);
                    assert(result@ =~= moves_in_rows(self@, color, y as int) + moves_in_row(self@, color, y as int, x + 1));
                }
                x = x + 1;
            }
            y = y + 1;
        }
        result
    }

    /// Whether `color` has a legal move anywhere.
    pub fn check_placeable_somewhere(&self, color: Color) -> (r: bool)
        requires
            self.wf(),
        ensures
            r == (legal_moves(self@, color).len() > 0),
    {
        let h = self.height();
        let w = self.width();
        let mut y: usize = 0;
        while y < h
            invariant
                self.wf(),
                h == self@.len(),
                w == grid_width(self@),
                y <= h,
                moves_in_rows(self@, color, y as int).len() == 0,
            decreases h - y,
        {
            let mut x: usize = 0;
            while x < w
                invariant
                    self.wf(),
                    h == self@.len(),
                    w == grid_width(self@),
                    y < h,
                    x <= w,
                    moves_in_rows(self@, color, y as int).len() == 0,
                    moves_in_row(self@, color, y as int, x as int).len() == 0,
                decreases w - x,
            {
                if self.check_placeable(color, Position::new(x as isize, y as isize)) {
                    proof {
                        lemma_legal_is_listed(self@, color, x as int, y as int);
                    }
                    return true;
                }
                x = x + 1;
            }
            y = y + 1;
        }
        false
    }

    /// Number of discs of `color` on the board.
    pub fn count(&self, color: Color) -> (r: usize)
        requires
            self.wf(),
        ensures
            r == count_cells(self@, color.disc()),
    {
        let disc = CellState::from(color);
        let h = self.height();
        let w = self.width();
        let mut total: usize = 0;
        let mut y: usize = 0;
        while y < h
            invariant
                self.wf(),
                h == self@.len(),
                w == grid_width(self@),
                y <= h,
                disc == color.disc(),
                total == count_in_rows(self@, disc, y as int),
            decreases h - y,
        {
            let row = &self.data[y];
            proof {
                lemma_count_rows_bound(self@, disc, y as int);
                assert((y + 1) * w <= h * w) by (nonlinear_arith)
                    requires
                        y < h,
                ;
                assert(y * w + w == (y + 1) * w) by (nonlinear_arith);
            }
            let mut x: usize = 0;
            while x < w
                invariant
                    self.wf(),
                    h == self@.len(),
                    w == grid_width(self@),
                    y < h,
                    x <= w,
                    row@ == self@[y as int],
                    disc == color.disc(),
                    total == count_in_rows(self@, disc, y as int) + count_in_row(row@, disc, x as int),
                    count_in_rows(self@, disc, y as int) <= y * w,
                    y * w + w <= usize::MAX,
                decreases w - x,
            {
                proof {
                    lemma_count_row_bound(row@, disc, x as int);
                }
                if row[x] == disc {
                    total = total + 1;
                }
                x = x + 1;
            }
            y = y + 1;
        }
        total
    }
}

/// Column `qx`, row `qy` lies in a run captured along one of the first `k` of `ds`.
pub open spec fn flipped_among(
    g: Seq<Seq<CellState>>,
    c: Color,
    x: int,
    y: int,
    ds: Seq<Position>,
    k: int,
    qx: int,
    qy: int,
) -> bool {
    exists|m: int| 0 <= m < k && #[trigger] flipped_along(g, c, x, y, ds[m], qx, qy)
}

impl Board {
    /// Places a disc of `color` at `position` and turns every captured disc;
    /// refuses, leaving the board as it was, a position off the board or one
    /// where the move is not legal.
    pub fn place(&mut self, color: Color, position: Position) -> (r: Result<(), PlaceError>)
        requires
            old(self).wf(),
        ensures
            final(self).wf(),
            r is Ok <==> is_legal(old(self)@, color, position.x as int, position.y as int),
            r == Err::<(), PlaceError>(PlaceError::OutOfBounds) <==> !in_bounds(
                old(self)@,
                position.x as int,
                position.y as int,
            ),
            r is Ok ==> final(self)@ == placed(old(self)@, color, position.x as int, position.y as int),
            r is Err ==> final(self)@ == old(self)@,
    {
        if !self.check_valid_position(position) {
            return Err(PlaceError::OutOfBounds);
        }
        if !self.check_placeable(color, position) {
            return Err(PlaceError::IllegalMove);
        }
        let dirs = self.placeable_directions(color, position);
        let original = self.clone();
        let ghost g = self@;
        let ghost (x, y) = (position.x as int, position.y as int);
        let disc = CellState::from(color);
        let opponent = CellState::from(color.opponent());
        proof {
            lemma_legal_dirs(g, color, x, y, 8);
        }
        self.data[position.y as usize][position.x as usize] = disc;
        let mut k: usize = 0;
        while k < dirs.len()
            invariant
                original@ == g,
                original.wf(),
                grid_wf(g),
                in_bounds(g, x, y),
                x == position.x,
                y == position.y,
                disc == color.disc(),
                opponent == color.other().disc(),
                dirs@ == legal_dirs(g, color, x, y, 8),
                forall|d: Position|
                    dirs@.contains(d) <==> exists|i: int|
                        0 <= i < 8 && d == direction_spec(i) && #[trigger] captures(g, color, x, y, direction_spec(i)),
                k <= dirs@.len(),
                self@.len() == g.len(),
                forall|qy: int| 0 <= qy < g.len() ==> (#[trigger] self@[qy]).len() == g[qy].len(),
                forall|qx: int, qy: int|
                    in_bounds(g, qx, qy) ==> #[trigger] self@[qy][qx] == if (qx == x && qy == y)
                        || flipped_among(g, color, x, y, dirs@, k as int, qx, qy) {
                        disc
                    } else {
                        g[qy][qx]
                    },
            decreases dirs@.len() - k,
        {
            let d = dirs[k];
            let ghost dk = d;
            proof {
                assert(dirs@.contains(d));
                let i = choose|i: int| 0 <= i < 8 && d == direction_spec(i) && #[trigger] captures(g, color, x, y, direction_spec(i));
                lemma_directions_unit(i);
                lemma_unit_step(0, d.x as int);
                lemma_unit_step(0, d.y as int);
            }
            let ghost kend = choose|kend: int| #[trigger] run_ends(g, color, x, y, d, kend);
            let ghost mut s: int = 1;
            let mut p = position.add(d);
            while original.holds(p, opponent)
                invariant
                    original@ == g,
                    original.wf(),
                    grid_wf(g),
                    in_bounds(g, x, y),
                    x == position.x,
                    y == position.y,
                    disc == color.disc(),
                    opponent == color.other().disc(),
                    is_unit(d),
                    d == dk,
                    1 <= s <= kend,
                    p.x == x + s * d.x,
                    p.y == y + s * d.y,
                    opponent_run(g, color, x, y, d, s),
                    run_ends(g, color, x, y, d, kend),
                    self@.len() == g.len(),
                    forall|qy: int| 0 <= qy < g.len() ==> (#[trigger] self@[qy]).len() == g[qy].len(),
                    forall|qx: int, qy: int|
                        in_bounds(g, qx, qy) ==> #[trigger] self@[qy][qx] == if (qx == x && qy == y)
                            || flipped_among(g, color, x, y, dirs@, k as int, qx, qy)
                            || exists|j: int| 1 <= j < s && #[trigger] on_ray(x, y, d, j, qx, qy) {
                            disc
                        } else {
                            g[qy][qx]
                        },
                decreases kend - s,
            {
                proof {
                    assert(ray(g, x, y, d, s) == Some(opponent));
                    assert(self@[p.y as int].len() == g[p.y as int].len());
                    lemma_unit_step(s, d.x as int);
                    lemma_unit_step(s, d.y as int);
                }
                let ghost before = self@;
                self.data[p.y as usize][p.x as usize] = disc;
                proof {
                    assert(self@ == before.update(p.y as int, before[p.y as int].update(p.x as int, disc)));
                    assert(on_ray(x, y, d, s, p.x as int, p.y as int));
                    assert forall|qy: int| 0 <= qy < g.len() implies (#[trigger] self@[qy]).len() == g[qy].len() by {
                        assert(before[qy].len() == g[qy].len());
                    }
                    assert forall|qx: int, qy: int| in_bounds(g, qx, qy) implies #[trigger] self@[qy][qx] == if (qx == x && qy == y)
                        || flipped_among(g, color, x, y, dirs@, k as int, qx, qy)
                        || exists|j: int| 1 <= j < s + 1 && #[trigger] on_ray(x, y, d, j, qx, qy) {
                        disc
                    } else {
                        g[qy][qx]
                    } by {
                        assert(before[qy].len() == g[qy].len());
                        if qx == p.x && qy == p.y {
                            assert(on_ray(x, y, d, s, qx, qy));
                        } else {
                            assert(self@[qy][qx] == before[qy][qx]);
                            if exists|j: int| 1 <= j < s + 1 && #[trigger] on_ray(x, y, d, j, qx, qy) {
                                let j = choose|j: int| 1 <= j < s + 1 && #[trigger] on_ray(x, y, d, j, qx, qy);
                                assert(j != s);
                                assert(exists|j: int| 1 <= j < s && #[trigger] on_ray(x, y, d, j, qx, qy));
                            }
                        }
                    }
                }
                p = p.add(d);
                proof {
                    s = s + 1;
                }
            }
            proof {
                assert forall|qx: int, qy: int|
                    (exists|j: int| 1 <= j < s && #[trigger] on_ray(x, y, d, j, qx, qy)) <==> flipped_along(
                        g,
                        color,
                        x,
                        y,
                        d,
                        qx,
                        qy,
                    ) by {
                    if exists|j: int| 1 <= j < s && #[trigger] on_ray(x, y, d, j, qx, qy) {
                        let j = choose|j: int| 1 <= j < s && #[trigger] on_ray(x, y, d, j, qx, qy);
                        assert(in_run(g, color, x, y, d, j));
                    }
                    if flipped_along(g, color, x, y, d, qx, qy) {
                        let j = choose|j: int| #[trigger] on_ray(x, y, d, j, qx, qy) && in_run(g, color, x, y, d, j);
                        if j >= s {
                            assert(ray(g, x, y, d, s) == Some(opponent));
                        }
                    }
                }
                assert forall|qx: int, qy: int|
                    flipped_among(g, color, x, y, dirs@, k + 1, qx, qy) <==> (flipped_among(g, color, x, y, dirs@, k as int, qx, qy)
                        || flipped_along(g, color, x, y, d, qx, qy)) by {
                    if flipped_among(g, color, x, y, dirs@, k + 1, qx, qy) {
                        let m = choose|m: int| 0 <= m < k + 1 && #[trigger] flipped_along(g, color, x, y, dirs@[m], qx, qy);
                        if m < k {
                            assert(flipped_among(g, color, x, y, dirs@, k as int, qx, qy));
                        }
                    }
                    if flipped_along(g, color, x, y, d, qx, qy) {
                        assert(flipped_along(g, color, x, y, dirs@[k as int], qx, qy));
                    }
                }
                assert forall|qx: int, qy: int|
                    in_bounds(g, qx, qy) implies #[trigger] self@[qy][qx] == if (qx == x && qy == y)
                        || flipped_among(g, color, x, y, dirs@, k + 1, qx, qy) {
                        disc
                    } else {
                        g[qy][qx]
                    } by {
                    if flipped_along(g, color, x, y, d, qx, qy) {
                        assert(exists|j: int| 1 <= j < s && #[trigger] on_ray(x, y, d, j, qx, qy));
                    }
                }
            }
            k = k + 1;
        }
        proof {
            assert forall|qx: int, qy: int|
                flipped_among(g, color, x, y, dirs@, dirs@.len() as int, qx, qy) <==> flipped(g, color, x, y, qx, qy) by {
                if flipped_among(g, color, x, y, dirs@, dirs@.len() as int, qx, qy) {
                    let m = choose|m: int| 0 <= m < dirs@.len() && #[trigger] flipped_along(g, color, x, y, dirs@[m], qx, qy);
                    assert(dirs@.contains(dirs@[m]));
                    let i = choose|i: int| 0 <= i < 8 && dirs@[m] == direction_spec(i) && #[trigger] captures(g, color, x, y, direction_spec(i));
                    assert(flipped_along(g, color, x, y, direction_spec(i), qx, qy));
                }
                if flipped(g, color, x, y, qx, qy) {
                    let i = choose|i: int| 0 <= i < 8 && #[trigger] flipped_along(g, color, x, y, direction_spec(i), qx, qy);
                    let j = choose|j: int| #[trigger] on_ray(x, y, direction_spec(i), j, qx, qy) && in_run(g, color, x, y, direction_spec(i), j);
                    assert(captures(g, color, x, y, direction_spec(i)));
                    assert(dirs@.contains(direction_spec(i)));
                    let m = choose|m: int| 0 <= m < dirs@.len() && dirs@[m] == direction_spec(i);
                    assert(flipped_along(g, color, x, y, dirs@[m], qx, qy));
                }
            }
            assert(self@ =~~= placed(g, color, x, y));
        }
        Ok(())
    }
}

/// Anything that can choose a move: a person at a keyboard, a random
/// chooser, or the search of `MinMaxPlayer`.
pub trait Player {
    /// The position at which `color` places next on `board`.
    fn decide_position(&self, color: Color, board: &Board) -> Position
        requires
            board.wf(),
    ;

    /// Tells the player which side it plays.
    fn tell_color(&mut self, color: Color);
}

} // verus!
