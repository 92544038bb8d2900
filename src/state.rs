use vstd::prelude::*;
use crate::grid::{lemma_tiles_step, line_col, line_row, pad4, tiles};

verus! {

/// The two sides of the game.
#[derive(Debug, PartialEq, Eq, Structural, Copy, Clone)]
pub enum Role {
    Slider,
    Placer,
}

/// A compass direction in which the Slider shifts every tile.
#[derive(Debug, PartialEq, Eq, Structural, Copy, Clone)]
pub enum Direction {
    Up,
    Down,
    Left,
    Right,
}

/// One move of either side: a slide of every tile, or a new tile of value `val` at
/// row `x`, column `y`.
#[derive(Debug, PartialEq, Eq, Structural, Copy, Clone)]
pub enum Move {
    Slide(Direction),
    Place { x: usize, y: usize, val: i32 },
}

/// The Slider's moves, in the order in which the engine tries them.
pub open spec fn slider_move_seq() -> Seq<Move> {
    seq![
        Move::Slide(Direction::Up),
        Move::Slide(Direction::Left),
        Move::Slide(Direction::Right),
        Move::Slide(Direction::Down),
    ]
}

/// The Placer's moves that the engine considers: a 2 in each cell, row by row.
pub open spec fn placer_move_seq() -> Seq<Move> {
    Seq::new(16, |i: int| Move::Place { x: (i / 4) as usize, y: (i % 4) as usize, val: 2 })
}

/// The Slider's four moves.
pub fn slider_moves() -> (ms: Vec<Move>)
    ensures
        ms@ == slider_move_seq(),
{
    let ms = vec![
        Move::Slide(Direction::Up),
        Move::Slide(Direction::Left),
        Move::Slide(Direction::Right),
        Move::Slide(Direction::Down),
    ];
    assert(ms@ =~= slider_move_seq());
    ms
}

/// The Placer's sixteen moves: a 2 in each cell.
pub fn placer_moves() -> (ms: Vec<Move>)
    ensures
        ms@ == placer_move_seq(),
{
    let mut ms: Vec<Move> = Vec::new();
    let mut x: usize = 0;
    while x < 4
        invariant
            x <= 4,
            ms@ =~= placer_move_seq().take(4 * x as int),
        decreases 4 - x,
    {
        let mut y: usize = 0;
        while y < 4
            invariant
                x < 4,
                y <= 4,
                ms@ =~= placer_move_seq().take(4 * x + y as int),
            decreases 4 - y,
        {
            ms.push(Move::Place { x, y, val: 2 });
            y = y + 1;
        }
        x = x + 1;
    }
    assert(ms@ =~= placer_move_seq());
    ms
}

/// A game position with tile values (not exponents): 0 is an empty cell.
#[derive(Debug, PartialEq, Eq)]
pub struct State {
    pub grid: [[i32; 4]; 4],
    pub next_to_move: Role,
    pub score: i32,
    pub terminal: bool,
}

impl State {
    /// The start of a game: an empty grid, the Placer to move, no score.
    pub fn initial() -> (s: State)
        ensures
            s.next_to_move == Role::Placer,
            s.score == 0,
            !s.terminal,
            forall|r: int, c: int| 0 <= r < 4 && 0 <= c < 4 ==> s.grid[r][c] == 0,
    {
        State { grid: [[0i32; 4]; 4], next_to_move: Role::Placer, score: 0, terminal: false }
    }
}

/// A move that does not change the position: a slide that moves no tile, or a
/// placement into an occupied cell.
#[derive(Debug, PartialEq, Eq)]
pub struct InvalidMove;

/// The largest tile value that a slide accepts (a merged tile must still fit).
pub const MAX_TILE: i32 = 16777216;

/// The largest score that a slide accepts (the merged values are added to it).
pub const MAX_SCORE: i32 = 1073741824;

/// Merges a run of tile values toward its front: two equal neighbours become one tile of
/// twice the value, and a merged tile does not merge again.
pub open spec fn merge_values(t: Seq<int>) -> Seq<int>
    decreases t.len(),
{
    if t.len() == 0 {
        seq![]
    } else if t.len() >= 2 && t[0] == t[1] {
        seq![2 * t[0]].add(merge_values(t.subrange(2, t.len() as int)))
    } else {
        seq![t[0]].add(merge_values(t.drop_first()))
    }
}

/// The sum of the tiles that merging `t` creates: what the move adds to the score.
pub open spec fn merge_gain(t: Seq<int>) -> int
    decreases t.len(),
{
    if t.len() == 0 {
        0
    } else if t.len() >= 2 && t[0] == t[1] {
        2 * t[0] + merge_gain(t.subrange(2, t.len() as int))
    } else {
        merge_gain(t.drop_first())
    }
}

/// The line of four values `l` as integers.
pub open spec fn value_line_seq(l: [i32; 4]) -> Seq<int> {
    seq![l[0] as int, l[1] as int, l[2] as int, l[3] as int]
}

/// The tile values of a line are in the range that a slide accepts.
pub open spec fn line_fits(l: [i32; 4]) -> bool {
    forall|k: int| 0 <= k < 4 ==> 0 <= #[trigger] l[k] <= MAX_TILE
}

/// The value of the tile waiting at the write position of a line being slid.
spec fn pending_value(out: [i32; 4], end: int) -> Seq<int> {
    if 0 <= end < 4 && out[end] != 0 {
        seq![out[end] as int]
    } else {
        seq![]
    }
}

/// Slides one line of tile values toward index 0; also returns the sum of the merged
/// tiles.
#[verifier::rlimit(60)]
pub fn merge_value_line(l: [i32; 4]) -> (r: ([i32; 4], i32))
    requires
        line_fits(l),
    ensures
        value_line_seq(r.0) == pad4(merge_values(tiles(value_line_seq(l)))),
        r.1 == merge_gain(tiles(value_line_seq(l))),
        0 <= r.1 <= 8 * MAX_TILE,
{
    let ghost s = value_line_seq(l);
    let mut out: [i32; 4] = [0i32; 4];
    let mut gain: i32 = 0;
    let mut end: usize = 0;
    let mut j: usize = 0;
    proof {
        assert(s.subrange(0, 4) =~= s);
        assert(value_line_seq(out).subrange(0, 0) =~= Seq::<int>::empty());
        assert(Seq::<int>::empty().add(tiles(s)) =~= tiles(s));
        assert(Seq::<int>::empty().add(merge_values(tiles(s))) =~= merge_values(tiles(s)));
    }
    while j < 4
        invariant
            s == value_line_seq(l),
            line_fits(l),
            j <= 4,
            end <= j,
            end < 4 || j == 4,
            end < 4 && out[end as int] != 0 ==> end < j,
            forall|k: int| end < k < 4 ==> out[k] == 0,
            forall|k: int| 0 <= k < 4 ==> 0 <= #[trigger] out[k] <= 2 * MAX_TILE,
            end < 4 ==> out[end as int] <= MAX_TILE,
            0 <= gain <= 33554432 * j,
            merge_values(tiles(s)) == value_line_seq(out).subrange(0, end as int).add(
                merge_values(pending_value(out, end as int).add(tiles(s.subrange(j as int, 4)))),
            ),
            merge_gain(tiles(s)) == gain + merge_gain(
                pending_value(out, end as int).add(tiles(s.subrange(j as int, 4))),
            ),
        decreases 4 - j,
    {
        proof {
            lemma_tiles_step(s, j as int);
        }
        let x = l[j];
        let ghost rest = tiles(s.subrange(j + 1, 4));
        let ghost done = value_line_seq(out).subrange(0, end as int);
        if x != 0 {
            if out[end] == 0 {
                out[end] = x;
                proof {
                    assert(value_line_seq(out).subrange(0, end as int) =~= done);
                    assert(pending_value(out, end as int) == seq![x as int]);
                    assert(Seq::<int>::empty().add(seq![x as int].add(rest)) =~= seq![x as int].add(
                        rest,
                    ));
                }
            } else if out[end] == x {
                let ghost p = out[end as int] as int;
                proof {
                    let t = seq![p].add(seq![p].add(rest));
                    assert(t.subrange(2, t.len() as int) =~= rest);
                    assert(merge_values(t) == seq![2 * p].add(merge_values(rest)));
                    assert(merge_gain(t) == 2 * p + merge_gain(rest));
                }
                out[end] = 2 * x;
                gain = gain + 2 * x;
                end = end + 1;
                proof {
                    assert(value_line_seq(out).subrange(0, end as int) =~= done.add(seq![2 * p]));
                    assert(pending_value(out, end as int) =~= Seq::<int>::empty());
                    assert(Seq::<int>::empty().add(rest) =~= rest);
                    assert(done.add(seq![2 * p]).add(merge_values(rest)) =~= done.add(
                        seq![2 * p].add(merge_values(rest)),
                    ));
                }
            } else {
                let ghost p = out[end as int] as int;
                proof {
                    let t = seq![p].add(seq![x as int].add(rest));
                    assert(t.drop_first() =~= seq![x as int].add(rest));
                    assert(merge_values(t) == seq![p].add(merge_values(seq![x as int].add(rest))));
                    assert(merge_gain(t) == merge_gain(seq![x as int].add(rest)));
                }
                end = end + 1;
                out[end] = x;
                proof {
                    assert(value_line_seq(out).subrange(0, end as int) =~= done.add(seq![p]));
                    assert(pending_value(out, end as int) == seq![x as int]);
                    assert(done.add(seq![p]).add(merge_values(seq![x as int].add(rest))) =~= done.add(
                        seq![p].add(merge_values(seq![x as int].add(rest))),
                    ));
                }
            }
        }
        j = j + 1;
    }
    proof {
        assert(s.subrange(4, 4) =~= seq![]);
        assert(tiles(seq![]) == Seq::<int>::empty());
        assert(merge_values(seq![]) == Seq::<int>::empty());
        let pend = pending_value(out, end as int);
        assert(pend.add(seq![]) =~= pend);
        if pend.len() == 1 {
            assert(pend.drop_first() =~= seq![]);
            assert(merge_values(pend) =~= pend);
            assert(merge_gain(pend.drop_first()) == 0);
            assert(merge_gain(pend) == 0);
        }
        assert(value_line_seq(out) =~= pad4(merge_values(tiles(s))));
    }
    (out, gain)
}

/// Line `i` of the value grid `g` as seen when sliding toward `d`.
pub open spec fn value_grid_line(g: [[i32; 4]; 4], d: Direction, i: int) -> Seq<int> {
    Seq::new(4, |k: int| g[line_row(d, i, k)][line_col(d, i, k)] as int)
}

/// `h` is the value grid `g` after every line slides and merges toward `d`.
pub open spec fn is_value_slide(g: [[i32; 4]; 4], d: Direction, h: [[i32; 4]; 4]) -> bool {
    forall|i: int, k: int|
        0 <= i < 4 && 0 <= k < 4 ==> h[line_row(d, i, k)][line_col(d, i, k)] as int == pad4(
            merge_values(tiles(value_grid_line(g, d, i))),
        )[k]
}

/// What sliding the first `n` lines of `g` toward `d` adds to the score.
pub open spec fn slide_gain(g: [[i32; 4]; 4], d: Direction, n: int) -> int
    decreases n,
{
    if n <= 0 {
        0
    } else {
        slide_gain(g, d, n - 1) + merge_gain(tiles(value_grid_line(g, d, n - 1)))
    }
}

/// Every tile of `g` is in the range that a slide accepts.
pub open spec fn grid_fits(g: [[i32; 4]; 4]) -> bool {
    forall|r: int, c: int| 0 <= r < 4 && 0 <= c < 4 ==> 0 <= #[trigger] g[r][c] <= MAX_TILE
}

/// Every cell of the value grid `g` is occupied.
pub open spec fn value_full(g: [[i32; 4]; 4]) -> bool {
    forall|r: int, c: int| 0 <= r < 4 && 0 <= c < 4 ==> g[r][c] != 0
}

/// Two horizontally or vertically adjacent cells of `g` hold the same value.
pub open spec fn value_neighbours_equal(g: [[i32; 4]; 4]) -> bool {
    (exists|r: int, c: int|
        #![trigger g[r][c + 1]]
        0 <= r < 4 && 0 <= c < 3 && g[r][c] == g[r][c + 1]) || (exists|r: int, c: int|
        #![trigger g[r + 1][c]]
        0 <= r < 3 && 0 <= c < 4 && g[r][c] == g[r + 1][c])
}

/// The Slider has no legal move on `g`.
pub open spec fn value_dead(g: [[i32; 4]; 4]) -> bool {
    value_full(g) && !value_neighbours_equal(g)
}

/// `h` is `g` with the cell at row `x`, column `y` set to `val`.
pub open spec fn is_value_placement(g: [[i32; 4]; 4], x: int, y: int, val: i32, h: [[i32; 4]; 4]) -> bool {
    forall|r: int, c: int|
        0 <= r < 4 && 0 <= c < 4 ==> h[r][c] == (if r == x && c == y {
            val
        } else {
            g[r][c]
        })
}

/// The moves that `next_state` accepts on `s`: a slide of tiles and a score small
/// enough for the result to fit, or a placement inside the grid.
pub open spec fn move_fits(s: State, m: Move) -> bool {
    match m {
        Move::Slide(_) => grid_fits(s.grid) && s.score <= MAX_SCORE,
        Move::Place { x, y, val: _ } => x < 4 && y < 4,
    }
}

/// What `next_state` returns for move `m` on `s`.
pub open spec fn next_state_result(s: State, m: Move, r: Result<State, InvalidMove>) -> bool {
    match m {
        Move::Slide(d) => match r {
            Ok(t) => {
                &&& is_value_slide(s.grid, d, t.grid)
                &&& t.grid != s.grid
                &&& t.score == s.score + slide_gain(s.grid, d, 4)
                &&& t.next_to_move == Role::Placer
                &&& !t.terminal
            },
            Err(_) => is_value_slide(s.grid, d, s.grid),
        },
        Move::Place { x, y, val } => match r {
            Ok(t) => {
                &&& s.grid[x as int][y as int] == 0
                &&& is_value_placement(s.grid, x as int, y as int, val, t.grid)
                &&& t.score == s.score
                &&& t.next_to_move == Role::Slider
                &&& t.terminal == value_dead(t.grid)
            },
            Err(_) => s.grid[x as int][y as int] != 0,
        },
    }
}

fn value_line_cell(d: Direction, i: usize, k: usize) -> (rc: (usize, usize))
    requires
        i < 4,
        k < 4,
    ensures
        rc.0 == line_row(d, i as int, k as int),
        rc.1 == line_col(d, i as int, k as int),
        rc.0 < 4,
        rc.1 < 4,
{
    match d {
        Direction::Up => (k, i),
        Direction::Down => (3 - k, i),
        Direction::Left => (i, k),
        Direction::Right => (i, 3 - k),
    }
}

/// Whether two value grids agree in every cell.
fn same_values(a: &[[i32; 4]; 4], b: &[[i32; 4]; 4]) -> (r: bool)
    ensures
        r == (*a == *b),
{
    let mut r: usize = 0;
    while r < 4
        invariant
            r <= 4,
            forall|x: int, y: int| 0 <= x < r && 0 <= y < 4 ==> a[x][y] == b[x][y],
        decreases 4 - r,
    {
        let mut c: usize = 0;
        while c < 4
            invariant
                r < 4,
                c <= 4,
                forall|x: int, y: int| 0 <= x < r && 0 <= y < 4 ==> a[x][y] == b[x][y],
                forall|y: int| 0 <= y < c ==> a[r as int][y] == b[r as int][y],
            decreases 4 - c,
        {
            if a[r][c] != b[r][c] {
                return false;
            }
            c = c + 1;
        }
        proof {
            assert(a[r as int] =~= b[r as int]);
        }
        r = r + 1;
    }
    proof {
        assert forall|x: int| 0 <= x < 4 implies a[x] == b[x] by {
            assert(a[x] =~= b[x]);
        }
        assert(*a =~= *b);
    }
    true
}

/// Slides every line of `s` toward `d` and adds the merged tiles to the score;
/// `InvalidMove` when no tile moves.
fn slide_state(s: &State, d: Direction) -> (r: Result<State, InvalidMove>)
    requires
        move_fits(*s, Move::Slide(d)),
    ensures
        next_state_result(*s, Move::Slide(d), r),
{
    let mut grid: [[i32; 4]; 4] = [[0i32; 4]; 4];
    let mut score: i32 = s.score;
    let mut i: usize = 0;
    while i < 4
        invariant
            i <= 4,
            grid_fits(s.grid),
            s.score <= MAX_SCORE,
            score == s.score + slide_gain(s.grid, d, i as int),
            0 <= slide_gain(s.grid, d, i as int) <= 134217728 * i,
            forall|x: int, k: int|
                0 <= x < i && 0 <= k < 4 ==> grid[line_row(d, x, k)][line_col(d, x, k)] as int == pad4(
                    merge_values(tiles(value_grid_line(s.grid, d, x))),
                )[k],
        decreases 4 - i,
    {
        let (r0, c0) = value_line_cell(d, i, 0);
        let (r1, c1) = value_line_cell(d, i, 1);
        let (r2, c2) = value_line_cell(d, i, 2);
        let (r3, c3) = value_line_cell(d, i, 3);
        let line: [i32; 4] = [s.grid[r0][c0], s.grid[r1][c1], s.grid[r2][c2], s.grid[r3][c3]];
        assert(value_line_seq(line) =~= value_grid_line(s.grid, d, i as int));
        let (m, gain) = merge_value_line(line);
        grid[r0][c0] = m[0];
        grid[r1][c1] = m[1];
        grid[r2][c2] = m[2];
        grid[r3][c3] = m[3];
        score = score + gain;
        proof {
            assert forall|x: int, k: int|
                0 <= x <= i && 0 <= k < 4 implies grid[line_row(d, x, k)][line_col(d, x, k)] as int
                == pad4(merge_values(tiles(value_grid_line(s.grid, d, x))))[k] by {
                if x == i {
                    assert(value_line_seq(m)[k] == m[k] as int);
                }
            }
        }
        i = i + 1;
    }
    if same_values(&grid, &s.grid) {
        Err(InvalidMove)
    } else {
        Ok(State { grid, next_to_move: Role::Placer, score, terminal: false })
    }
}

/// Slides every tile up.
pub fn slide_up(s: &State) -> (r: Result<State, InvalidMove>)
    requires
        move_fits(*s, Move::Slide(Direction::Up)),
    ensures
        next_state_result(*s, Move::Slide(Direction::Up), r),
{
    slide_state(s, Direction::Up)
}

/// Slides every tile down.
pub fn slide_down(s: &State) -> (r: Result<State, InvalidMove>)
    requires
        move_fits(*s, Move::Slide(Direction::Down)),
    ensures
        next_state_result(*s, Move::Slide(Direction::Down), r),
{
    slide_state(s, Direction::Down)
}

/// Slides every tile left.
pub fn slide_left(s: &State) -> (r: Result<State, InvalidMove>)
    requires
        move_fits(*s, Move::Slide(Direction::Left)),
    ensures
        next_state_result(*s, Move::Slide(Direction::Left), r),
{
    slide_state(s, Direction::Left)
}

/// Slides every tile right.
pub fn slide_right(s: &State) -> (r: Result<State, InvalidMove>)
    requires
        move_fits(*s, Move::Slide(Direction::Right)),
    ensures
        next_state_result(*s, Move::Slide(Direction::Right), r),
{
    slide_state(s, Direction::Right)
}

/// Whether the Slider is out of moves on `grid`: every cell occupied and no two
/// neighbours equal.
pub fn dead_grid(grid: &[[i32; 4]; 4]) -> (r: bool)
    ensures
        r == value_dead(*grid),
{
    let mut i: usize = 0;
    while i < 4
        invariant
            i <= 4,
            forall|r: int, c: int| 0 <= r < i && 0 <= c < 4 ==> grid[r][c] != 0,
            forall|r: int, c: int| 0 <= r < i && 0 <= c < 3 ==> grid[r][c] != #[trigger] grid[r][c + 1],
            forall|r: int, c: int| 0 <= r < 3 && 0 <= c < i ==> grid[r][c] != #[trigger] grid[r + 1][c],
        decreases 4 - i,
    {
        let mut j: usize = 0;
        while j < 4
            invariant
                i < 4,
                j <= 4,
                forall|c: int| 0 <= c < j ==> grid[i as int][c] != 0,
            decreases 4 - j,
        {
            if grid[i][j] == 0 {
                assert(!value_full(*grid));
                return false;
            }
            j = j + 1;
        }
        let mut j: usize = 0;
        while j < 3
            invariant
                i < 4,
                j <= 3,
                forall|c: int| 0 <= c < j ==> grid[i as int][c] != #[trigger] grid[i as int][c + 1],
                forall|r: int| 0 <= r < j ==> grid[r][i as int] != #[trigger] grid[r + 1][i as int],
            decreases 3 - j,
        {
            if grid[i][j] == grid[i][j + 1] {
                assert(value_neighbours_equal(*grid));
                return false;
            }
            if grid[j][i] == grid[j + 1][i] {
                assert(value_neighbours_equal(*grid));
                return false;
            }
            j = j + 1;
        }
        i = i + 1;
    }
    true
}

/// Puts a tile of value `val` at row `x`, column `y`; the Slider moves next, and the
/// result is terminal when the Slider has no move. `InvalidMove` when the cell is
/// occupied.
pub fn place(s: &State, x: usize, y: usize, val: i32) -> (r: Result<State, InvalidMove>)
    requires
        move_fits(*s, Move::Place { x, y, val }),
    ensures
        next_state_result(*s, Move::Place { x, y, val }, r),
{
    if s.grid[x][y] == 0 {
        let mut grid = s.grid;
        grid[x][y] = val;
        let terminal = dead_grid(&grid);
        Ok(State { grid, next_to_move: Role::Slider, score: s.score, terminal })
    } else {
        Err(InvalidMove)
    }
}

/// The position after move `m` on `s`.
pub fn next_state(s: &State, m: Move) -> (r: Result<State, InvalidMove>)
    requires
        move_fits(*s, m),
    ensures
        next_state_result(*s, m, r),
{
    match m {
        Move::Slide(d) => match d {
            Direction::Up => slide_up(s),
            Direction::Down => slide_down(s),
            Direction::Left => slide_left(s),
            Direction::Right => slide_right(s),
        },
        Move::Place { x, y, val } => place(s, x, y, val),
    }
}

/// Whether every tile of `g` is in the range that a slide accepts.
fn grid_in_range(g: &[[i32; 4]; 4]) -> (b: bool)
    ensures
        b == grid_fits(*g),
{
    let mut r: usize = 0;
    while r < 4
        invariant
            r <= 4,
            forall|x: int, y: int| 0 <= x < r && 0 <= y < 4 ==> 0 <= #[trigger] g[x][y] <= MAX_TILE,
        decreases 4 - r,
    {
        let mut c: usize = 0;
        while c < 4
            invariant
                r < 4,
                c <= 4,
                forall|x: int, y: int| 0 <= x < r && 0 <= y < 4 ==> 0 <= #[trigger] g[x][y] <= MAX_TILE,
                forall|y: int| 0 <= y < c ==> 0 <= #[trigger] g[r as int][y] <= MAX_TILE,
            decreases 4 - c,
        {
            if g[r][c] < 0 || g[r][c] > MAX_TILE {
                assert(!grid_fits(*g));
                return false;
            }
            c = c + 1;
        }
        r = r + 1;
    }
    true
}

/// Whether `next_state` accepts move `m` on `s` (see `move_fits`).
pub fn fits(s: &State, m: &Move) -> (b: bool)
    ensures
        b == move_fits(*s, *m),
{
    match *m {
        Move::Slide(_) => s.score <= MAX_SCORE && grid_in_range(&s.grid),
        Move::Place { x, y, val: _ } => x < 4 && y < 4,
    }
}

impl State {
    pub fn grid(&self) -> (g: &[[i32; 4]; 4])
        ensures
            *g == self.grid,
    {
        &self.grid
    }

    pub fn next_to_move(&self) -> (r: Role)
        ensures
            r == self.next_to_move,
    {
        self.next_to_move
    }

    pub fn score(&self) -> (r: i32)
        ensures
            r == self.score,
    {
        self.score
    }

    pub fn terminal(&self) -> (r: bool)
        ensures
            r == self.terminal,
    {
        self.terminal
    }
}

/// A slide has one result: `is_value_slide` fixes every cell.
pub proof fn lemma_value_slide_unique(g: [[i32; 4]; 4], d: Direction, h1: [[i32; 4]; 4], h2: [[i32; 4]; 4])
    requires
        is_value_slide(g, d, h1),
        is_value_slide(g, d, h2),
    ensures
        h1 == h2,
{
    assert forall|r: int| 0 <= r < 4 implies h1[r] =~= h2[r] by {
        assert forall|c: int| 0 <= c < 4 implies h1[r][c] == h2[r][c] by {
            let (i, k) = match d {
                Direction::Up => (c, r),
                Direction::Down => (c, 3 - r),
                Direction::Left => (r, c),
                Direction::Right => (r, 3 - c),
            };
            assert(line_row(d, i, k) == r && line_col(d, i, k) == c);
            assert(h1[line_row(d, i, k)][line_col(d, i, k)] as int == h2[line_row(d, i, k)][line_col(d, i, k)] as int);
        }
    }
    assert(h1 =~= h2);
}

} // verus!
