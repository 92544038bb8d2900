use vstd::prelude::*;
use crate::state::Direction;

verus! {

/// A 4x4 board of tile exponents: 0 is an empty cell, `e > 0` a tile of value `2^e`.
pub type Grid = [[u8; 4]; 4];

/// The non-empty cells of a line, in order.
pub open spec fn tiles(s: Seq<int>) -> Seq<int>
    decreases s.len(),
{
    if s.len() == 0 {
        seq![]
    } else if s[0] == 0 {
        tiles(s.drop_first())
    } else {
        seq![s[0]].add(tiles(s.drop_first()))
    }
}

/// Merges a run of tiles toward its front in exponent space: two equal neighbours
/// become one tile one exponent higher, and a merged tile does not merge again.
pub open spec fn merge_exponents(t: Seq<int>) -> Seq<int>
    decreases t.len(),
{
    if t.len() == 0 {
        seq![]
    } else if t.len() >= 2 && t[0] == t[1] {
        seq![t[0] + 1].add(merge_exponents(t.subrange(2, t.len() as int)))
    } else {
        seq![t[0]].add(merge_exponents(t.drop_first()))
    }
}

/// `t` followed by empty cells up to a line of four.
pub open spec fn pad4(t: Seq<int>) -> Seq<int> {
    t.add(Seq::new((4 - t.len()) as nat, |i: int| 0int))
}

/// The line of four exponents `l` as integers.
pub open spec fn line_seq(l: [u8; 4]) -> Seq<int> {
    seq![l[0] as int, l[1] as int, l[2] as int, l[3] as int]
}

/// The line that results from sliding `l` toward index 0.
pub open spec fn slid_exponents(l: Seq<int>) -> Seq<int> {
    pad4(merge_exponents(tiles(l)))
}

pub(crate) proof fn lemma_tiles_step(s: Seq<int>, j: int)
    requires
        0 <= j < s.len(),
    ensures
        tiles(s.subrange(j, s.len() as int)) == (if s[j] == 0 {
            tiles(s.subrange(j + 1, s.len() as int))
        } else {
            seq![s[j]].add(tiles(s.subrange(j + 1, s.len() as int)))
        }),
{
    assert(s.subrange(j, s.len() as int).drop_first() =~= s.subrange(j + 1, s.len() as int));
}

pub(crate) proof fn lemma_tiles_len(s: Seq<int>)
    ensures
        tiles(s).len() <= s.len(),
    decreases s.len(),
{
    if s.len() > 0 {
        lemma_tiles_len(s.drop_first());
    }
}

pub(crate) proof fn lemma_merge_len(t: Seq<int>)
    ensures
        merge_exponents(t).len() <= t.len(),
    decreases t.len(),
{
    if t.len() >= 2 && t[0] == t[1] {
        lemma_merge_len(t.subrange(2, t.len() as int));
    } else if t.len() > 0 {
        lemma_merge_len(t.drop_first());
    }
}

/// The tile at the write position of a line being slid, if one is waiting there
/// for a possible merge.
spec fn pending(out: [u8; 4], end: int) -> Seq<int> {
    if 0 <= end < 4 && out[end] != 0 {
        seq![out[end] as int]
    } else {
        seq![]
    }
}

/// Slides one line of exponents toward index 0.
#[verifier::rlimit(40)]
pub fn merge_line(l: [u8; 4]) -> (r: [u8; 4])
    requires
        forall|k: int| 0 <= k < 4 ==> l[k] < 255,
    ensures
        line_seq(r) == slid_exponents(line_seq(l)),
{
    let ghost s = line_seq(l);
    let mut out: [u8; 4] = [0u8; 4];
    let mut end: usize = 0;
    let mut j: usize = 0;
    proof {
        assert(s.subrange(0, 4) =~= s);
        assert(line_seq(out).subrange(0, 0) =~= Seq::<int>::empty());
        assert(Seq::<int>::empty().add(tiles(s)) =~= tiles(s));
        assert(Seq::<int>::empty().add(merge_exponents(tiles(s))) =~= merge_exponents(tiles(s)));
    }
    while j < 4
        invariant
            s == line_seq(l),
            forall|k: int| 0 <= k < 4 ==> l[k] < 255,
            j <= 4,
            end <= j,
            end < 4 || j == 4,
            end < 4 && out[end as int] != 0 ==> end < j,
            forall|k: int| end < k < 4 ==> out[k] == 0,
            merge_exponents(tiles(s)) == line_seq(out).subrange(0, end as int).add(
                merge_exponents(pending(out, end as int).add(tiles(s.subrange(j as int, 4)))),
            ),
        decreases 4 - j,
    {
        proof {
            lemma_tiles_step(s, j as int);
        }
        let x = l[j];
        let ghost rest = tiles(s.subrange(j + 1, 4));
        let ghost done = line_seq(out).subrange(0, end as int);
        if x != 0 {
            if out[end] == 0 {
                out[end] = x;
                proof {
                    assert(line_seq(out).subrange(0, end as int) =~= done);
                    assert(pending(out, end as int) == seq![x as int]);
                    assert(Seq::<int>::empty().add(seq![x as int].add(rest)) =~= seq![x as int].add(
                        rest,
                    ));
                }
            } else if out[end] == x {
                let ghost p = out[end as int] as int;
                proof {
                    let t = seq![p].add(seq![p].add(rest));
                    assert(t.subrange(2, t.len() as int) =~= rest);
                    assert(merge_exponents(t) == seq![p + 1].add(merge_exponents(rest)));
                }
                out[end] = x + 1;
                end = end + 1;
                proof {
                    assert(line_seq(out).subrange(0, end as int) =~= done.add(seq![p + 1]));
                    assert(pending(out, end as int) =~= Seq::<int>::empty());
                    assert(Seq::<int>::empty().add(rest) =~= rest);
                    assert(done.add(seq![p + 1]).add(merge_exponents(rest)) =~= done.add(
                        seq![p + 1].add(merge_exponents(rest)),
                    ));
                }
            } else {
                let ghost p = out[end as int] as int;
                proof {
                    let t = seq![p].add(seq![x as int].add(rest));
                    assert(t.drop_first() =~= seq![x as int].add(rest));
                    assert(merge_exponents(t) == seq![p].add(merge_exponents(seq![x as int].add(rest))));
                }
                end = end + 1;
                out[end] = x;
                proof {
                    assert(line_seq(out).subrange(0, end as int) =~= done.add(seq![p]));
                    assert(pending(out, end as int) == seq![x as int]);
                    assert(done.add(seq![p]).add(merge_exponents(seq![x as int].add(rest))) =~= done.add(
                        seq![p].add(merge_exponents(seq![x as int].add(rest))),
                    ));
                }
            }
        }
        j = j + 1;
    }
    proof {
        assert(s.subrange(4, 4) =~= seq![]);
        assert(tiles(seq![]) == Seq::<int>::empty());
        assert(merge_exponents(seq![]) == Seq::<int>::empty());
        let pend = pending(out, end as int);
        assert(pend.add(seq![]) =~= pend);
        if pend.len() == 1 {
            assert(pend.drop_first() =~= seq![]);
            assert(merge_exponents(pend) =~= pend);
        }
        assert(line_seq(out) =~= pad4(merge_exponents(tiles(s))));
    }
    out
}

/// The row of the `k`-th cell, counted from the edge that tiles slide toward, of line `i`
/// when sliding in direction `d`.
pub open spec fn line_row(d: Direction, i: int, k: int) -> int {
    match d {
        Direction::Up => k,
        Direction::Down => 3 - k,
        Direction::Left => i,
        Direction::Right => i,
    }
}

/// The column of the `k`-th cell of line `i` when sliding in direction `d`.
pub open spec fn line_col(d: Direction, i: int, k: int) -> int {
    match d {
        Direction::Up => i,
        Direction::Down => i,
        Direction::Left => k,
        Direction::Right => 3 - k,
    }
}

/// Line `i` of `g` as seen when sliding in direction `d`, starting at the target edge.
pub open spec fn grid_line(g: Grid, d: Direction, i: int) -> Seq<int> {
    Seq::new(4, |k: int| g[line_row(d, i, k)][line_col(d, i, k)] as int)
}

/// No cell of `g` is so large that a merge would leave the exponent range.
pub open spec fn mergeable(g: Grid) -> bool {
    forall|r: int, c: int| 0 <= r < 4 && 0 <= c < 4 ==> g[r][c] < 255
}

/// `h` is what `g` becomes when every line slides and merges toward direction `d`.
pub open spec fn is_slide(g: Grid, d: Direction, h: Grid) -> bool {
    forall|i: int, k: int|
        0 <= i < 4 && 0 <= k < 4 ==> h[line_row(d, i, k)][line_col(d, i, k)] as int
            == slid_exponents(grid_line(g, d, i))[k]
}

/// Every cell of `g` is occupied.
pub open spec fn full(g: Grid) -> bool {
    forall|r: int, c: int| 0 <= r < 4 && 0 <= c < 4 ==> g[r][c] != 0
}

/// Two horizontally or vertically adjacent cells hold the same value.
pub open spec fn has_equal_neighbours(g: Grid) -> bool {
    (exists|r: int, c: int|
        #![trigger g[r][c + 1]]
        0 <= r < 4 && 0 <= c < 3 && g[r][c] == g[r][c + 1]) || (exists|r: int, c: int|
        #![trigger g[r + 1][c]]
        0 <= r < 3 && 0 <= c < 4 && g[r][c] == g[r + 1][c])
}

/// The Slider has no legal move: the grid is full and no two neighbours are equal.
pub open spec fn dead(g: Grid) -> bool {
    full(g) && !has_equal_neighbours(g)
}

fn line_cell(d: Direction, i: usize, k: usize) -> (rc: (usize, usize))
    requires
        i < 4,
        k < 4,
    ensures
        rc.0 == line_row(d, i as int, k as int),
        rc.1 == line_col(d, i as int, k as int),
        rc.0 < 4,
        rc.1 < 4,
{
    match d {
        Direction::Up => (k, i),
        Direction::Down => (3 - k, i),
        Direction::Left => (i, k),
        Direction::Right => (i, 3 - k),
    }
}

/// Whether two grids hold the same value in every cell.
pub fn same_grid(a: &Grid, b: &Grid) -> (r: bool)
    ensures
        r == (*a == *b),
{
    let mut r: usize = 0;
    while r < 4
        invariant
            r <= 4,
            forall|x: int, y: int| 0 <= x < r && 0 <= y < 4 ==> a[x][y] == b[x][y],
        decreases 4 - r,
    {
        let mut c: usize = 0;
        while c < 4
            invariant
                r < 4,
                c <= 4,
                forall|x: int, y: int| 0 <= x < r && 0 <= y < 4 ==> a[x][y] == b[x][y],
                forall|y: int| 0 <= y < c ==> a[r as int][y] == b[r as int][y],
            decreases 4 - c,
        {
            if a[r][c] != b[r][c] {
                return false;
            }
            c = c + 1;
        }
        proof {
            assert(a[r as int] =~= b[r as int]);
        }
        r = r + 1;
    }
    proof {
        assert forall|x: int| 0 <= x < 4 implies a[x] == b[x] by {
            assert(a[x] =~= b[x]);
        }
        assert(*a =~= *b);
    }
    true
}

/// Slides every line of `g` toward direction `d`; `None` when no tile moves.
pub fn slide(g: &Grid, d: Direction) -> (r: Option<Grid>)
    requires
        mergeable(*g),
    ensures
        match r {
            Some(h) => is_slide(*g, d, h) && h != *g,
            None => is_slide(*g, d, *g),
        },
{
    let mut out: Grid = [[0u8; 4]; 4];
    let mut i: usize = 0;
    while i < 4
        invariant
            i <= 4,
            mergeable(*g),
            forall|x: int, k: int|
                0 <= x < i && 0 <= k < 4 ==> out[line_row(d, x, k)][line_col(d, x, k)] as int
                    == slid_exponents(grid_line(*g, d, x))[k],
        decreases 4 - i,
    {
        let (r0, c0) = line_cell(d, i, 0);
        let (r1, c1) = line_cell(d, i, 1);
        let (r2, c2) = line_cell(d, i, 2);
        let (r3, c3) = line_cell(d, i, 3);
        let line: [u8; 4] = [g[r0][c0], g[r1][c1], g[r2][c2], g[r3][c3]];
        assert(line_seq(line) =~= grid_line(*g, d, i as int));
        let m = merge_line(line);
        out[r0][c0] = m[0];
        out[r1][c1] = m[1];
        out[r2][c2] = m[2];
        out[r3][c3] = m[3];
        proof {
            assert forall|x: int, k: int|
                0 <= x <= i && 0 <= k < 4 implies out[line_row(d, x, k)][line_col(d, x, k)] as int
                == slid_exponents(grid_line(*g, d, x))[k] by {
                if x == i {
                    assert(line_seq(m)[k] == m[k] as int);
                }
            }
        }
        i = i + 1;
    }
    if same_grid(&out, g) {
        None
    } else {
        Some(out)
    }
}

/// Puts a tile of exponent `e` at row `x`, column `y`; `None` when that cell is occupied.
pub fn place(g: &Grid, x: usize, y: usize, e: u8) -> (r: Option<Grid>)
    requires
        x < 4,
        y < 4,
    ensures
        g[x as int][y as int] != 0 ==> r is None,
        g[x as int][y as int] == 0 ==> r is Some && is_placement(*g, x as int, y as int, e, r->0),
{
    if g[x][y] == 0 {
        let mut grid = *g;
        grid[x][y] = e;
        Some(grid)
    } else {
        None
    }
}

/// `h` is `g` with the cell at row `x`, column `y` set to `e`.
pub open spec fn is_placement(g: Grid, x: int, y: int, e: u8, h: Grid) -> bool {
    forall|r: int, c: int|
        0 <= r < 4 && 0 <= c < 4 ==> h[r][c] == (if r == x && c == y {
            e
        } else {
            g[r][c]
        })
}

/// Whether the Slider is out of moves on `g`: every cell occupied and no two
/// neighbours equal.
pub fn dead_grid(g: &Grid) -> (r: bool)
    ensures
        r == dead(*g),
{
    let mut i: usize = 0;
    while i < 4
        invariant
            i <= 4,
            forall|r: int, c: int| 0 <= r < i && 0 <= c < 4 ==> g[r][c] != 0,
            forall|r: int, c: int| 0 <= r < i && 0 <= c < 3 ==> g[r][c] != #[trigger] g[r][c + 1],
            forall|r: int, c: int| 0 <= r < 3 && 0 <= c < i ==> g[r][c] != #[trigger] g[r + 1][c],
        decreases 4 - i,
    {
        let mut j: usize = 0;
        while j < 4
            invariant
                i < 4,
                j <= 4,
                forall|c: int| 0 <= c < j ==> g[i as int][c] != 0,
            decreases 4 - j,
        {
            if g[i][j] == 0 {
                assert(!full(*g));
                return false;
            }
            j = j + 1;
        }
        let mut j: usize = 0;
        while j < 3
            invariant
                i < 4,
                j <= 3,
                forall|c: int| 0 <= c < j ==> g[i as int][c] != #[trigger] g[i as int][c + 1],
                forall|r: int| 0 <= r < j ==> g[r][i as int] != #[trigger] g[r + 1][i as int],
            decreases 3 - j,
        {
            if g[i][j] == g[i][j + 1] {
                assert(has_equal_neighbours(*g));
                return false;
            }
            if g[j][i] == g[j + 1][i] {
                assert(has_equal_neighbours(*g));
                return false;
            }
            j = j + 1;
        }
        i = i + 1;
    }
    true
}

/// Weight of any difference between horizontal neighbours.
pub const H_DIFF: i32 = 1;

/// Weight of any difference between vertical neighbours.
pub const V_DIFF: i32 = 1;

/// Extra weight of a horizontal neighbour pair, by the signed difference.
pub const H_REV: i32 = 3;

/// Extra weight of a vertical neighbour pair, by the signed difference.
pub const V_REV: i32 = 3;

/// Reward weight of equal horizontal neighbours.
pub const H_EQ: i32 = 2;

/// Reward weight of equal vertical neighbours.
pub const V_EQ: i32 = 2;

/// The squared exponent of a cell.
pub open spec fn sq(g: Grid, r: int, c: int) -> int {
    g[r][c] as int * g[r][c] as int
}

pub open spec fn abs(x: int) -> int {
    if x < 0 {
        -x
    } else {
        x
    }
}

/// What a pair of neighbours with squared exponents `a` then `b` adds to the estimate:
/// a reward when they are equal, less a penalty that grows with their difference and
/// weighs an increase toward the second cell more than a decrease.
pub open spec fn pair_value(a: int, b: int, diff_w: int, rev_w: int, eq_w: int) -> int {
    (if b - a == 0 {
        eq_w * a
    } else {
        0
    }) - ((2 * diff_w + rev_w) * abs(b - a) + rev_w * (b - a))
}

/// The horizontal pairs of row `r` that start in the first `n` columns.
pub open spec fn row_pairs(g: Grid, r: int, n: int) -> int
    decreases n,
{
    if n <= 0 {
        0
    } else {
        row_pairs(g, r, n - 1) + pair_value(
            sq(g, r, n - 1),
            sq(g, r, n),
            H_DIFF as int,
            H_REV as int,
            H_EQ as int,
        )
    }
}

/// The horizontal pairs of the first `n` rows.
pub open spec fn horizontal_value(g: Grid, n: int) -> int
    decreases n,
{
    if n <= 0 {
        0
    } else {
        horizontal_value(g, n - 1) + row_pairs(g, n - 1, 3)
    }
}

/// The vertical pairs between row `r` and row `r + 1` in the first `n` columns.
pub open spec fn column_pairs(g: Grid, r: int, n: int) -> int
    decreases n,
{
    if n <= 0 {
        0
    } else {
        column_pairs(g, r, n - 1) + pair_value(
            sq(g, r, n - 1),
            sq(g, r + 1, n - 1),
            V_DIFF as int,
            V_REV as int,
            V_EQ as int,
        )
    }
}

/// The vertical pairs between the first `n + 1` rows.
pub open spec fn vertical_value(g: Grid, n: int) -> int
    decreases n,
{
    if n <= 0 {
        0
    } else {
        vertical_value(g, n - 1) + column_pairs(g, n - 1, 4)
    }
}

/// The static estimate of a grid: smooth, mergeable grids score higher.
pub open spec fn heuristic_value(g: Grid) -> int {
    horizontal_value(g, 4) + vertical_value(g, 3)
}

/// The largest absolute value that `heuristic` can return.
pub const HEURISTIC_BOUND: i32 = 20000000;

proof fn lemma_pair_bounds(a: int, b: int)
    requires
        0 <= a <= 65025,
        0 <= b <= 65025,
    ensures
        -600000 <= pair_value(a, b, 1, 3, 2) <= 200000,
{
    let d = b - a;
    assert((2 * 1 + 3) * abs(d) == 5 * abs(d));
    assert(3 * d == 3 * d);
}

fn square(e: u8) -> (r: i32)
    ensures
        r == e as int * e as int,
        0 <= r <= 65025,
{
    assert(0 <= e as int * e as int <= 65025) by (nonlinear_arith)
        requires
            e <= 255,
    ;
    (e as i32) * (e as i32)
}

/// The static estimate of `grid` at a search cut-off, from the point of view of the
/// Slider.
pub fn heuristic(grid: &Grid) -> (v: i32)
    ensures
        v == heuristic_value(*grid),
        -HEURISTIC_BOUND <= v <= HEURISTIC_BOUND,
{
    let mut total: i32 = 0;
    let mut i: usize = 0;
    while i < 4
        invariant
            i <= 4,
            total == horizontal_value(*grid, i as int),
            -1800000 * i <= total <= 600000 * i,
        decreases 4 - i,
    {
        let mut j: usize = 0;
        let mut row: i32 = 0;
        while j < 3
            invariant
                i < 4,
                j <= 3,
                row == row_pairs(*grid, i as int, j as int),
                -600000 * j <= row <= 200000 * j,
            decreases 3 - j,
        {
            let a = square(grid[i][j]);
            let b = square(grid[i][j + 1]);
            let d = b - a;
            let ad = if d < 0 {
                -d
            } else {
                d
            };
            let eq = if d == 0 {
                H_EQ * a
            } else {
                0
            };
            proof {
                lemma_pair_bounds(a as int, b as int);
            }
            row = row + (eq - ((2 * H_DIFF + H_REV) * ad + H_REV * d));
            j = j + 1;
        }
        total = total + row;
        i = i + 1;
    }
    let mut i: usize = 0;
    let mut vertical: i32 = 0;
    while i < 3
        invariant
            i <= 3,
            vertical == vertical_value(*grid, i as int),
            -2400000 * i <= vertical <= 800000 * i,
        decreases 3 - i,
    {
        let mut j: usize = 0;
        let mut col: i32 = 0;
        while j < 4
            invariant
                i < 3,
                j <= 4,
                col == column_pairs(*grid, i as int, j as int),
                -600000 * j <= col <= 200000 * j,
            decreases 4 - j,
        {
            let a = square(grid[i][j]);
            let b = square(grid[i + 1][j]);
            let d = b - a;
            let ad = if d < 0 {
                -d
            } else {
                d
            };
            let eq = if d == 0 {
                V_EQ * a
            } else {
                0
            };
            proof {
                lemma_pair_bounds(a as int, b as int);
            }
            col = col + (eq - ((2 * V_DIFF + V_REV) * ad + V_REV * d));
            j = j + 1;
        }
        vertical = vertical + col;
        i = i + 1;
    }
    total + vertical
}

/// A slide has one result: the relation `is_slide` fixes every cell.
pub proof fn lemma_slide_unique(g: Grid, d: Direction, h1: Grid, h2: Grid)
    requires
        is_slide(g, d, h1),
        is_slide(g, d, h2),
    ensures
        h1 == h2,
{
    assert forall|r: int| 0 <= r < 4 implies h1[r] =~= h2[r] by {
        assert forall|c: int| 0 <= c < 4 implies h1[r][c] == h2[r][c] by {
            let (i, k) = match d {
                Direction::Up => (c, r),
                Direction::Down => (c, 3 - r),
                Direction::Left => (r, c),
                Direction::Right => (r, 3 - c),
            };
            assert(line_row(d, i, k) == r && line_col(d, i, k) == c);
            assert(h1[line_row(d, i, k)][line_col(d, i, k)] as int == h2[line_row(d, i, k)][line_col(d, i, k)] as int);
        }
    }
    assert(h1 =~= h2);
}

proof fn lemma_sq_range(g: Grid, r: int, c: int)
    requires
        0 <= r < 4,
        0 <= c < 4,
    ensures
        0 <= sq(g, r, c) <= 65025,
{
    let e = g[r][c] as int;
    assert(0 <= e * e <= 65025) by (nonlinear_arith)
        requires
            0 <= e <= 255,
    ;
}

proof fn lemma_row_pairs_range(g: Grid, r: int, n: int)
    requires
        0 <= r < 4,
        0 <= n <= 3,
    ensures
        -600000 * n <= row_pairs(g, r, n) <= 200000 * n,
    decreases n,
{
    if n > 0 {
        lemma_row_pairs_range(g, r, n - 1);
        lemma_sq_range(g, r, n - 1);
        lemma_sq_range(g, r, n);
        lemma_pair_bounds(sq(g, r, n - 1), sq(g, r, n));
    }
}

proof fn lemma_horizontal_range(g: Grid, n: int)
    requires
        0 <= n <= 4,
    ensures
        -1800000 * n <= horizontal_value(g, n) <= 600000 * n,
    decreases n,
{
    if n > 0 {
        lemma_horizontal_range(g, n - 1);
        lemma_row_pairs_range(g, n - 1, 3);
    }
}

proof fn lemma_column_pairs_range(g: Grid, r: int, n: int)
    requires
        0 <= r < 3,
        0 <= n <= 4,
    ensures
        -600000 * n <= column_pairs(g, r, n) <= 200000 * n,
    decreases n,
{
    if n > 0 {
        lemma_column_pairs_range(g, r, n - 1);
        lemma_sq_range(g, r, n - 1);
        lemma_sq_range(g, r + 1, n - 1);
        lemma_pair_bounds(sq(g, r, n - 1), sq(g, r + 1, n - 1));
    }
}

proof fn lemma_vertical_range(g: Grid, n: int)
    requires
        0 <= n <= 3,
    ensures
        -2400000 * n <= vertical_value(g, n) <= 800000 * n,
    decreases n,
{
    if n > 0 {
        lemma_vertical_range(g, n - 1);
        lemma_column_pairs_range(g, n - 1, 4);
    }
}

/// The static estimate of every grid is within `HEURISTIC_BOUND` of zero.
pub proof fn lemma_heuristic_range(g: Grid)
    ensures
        -HEURISTIC_BOUND <= heuristic_value(g) <= HEURISTIC_BOUND,
{
    lemma_horizontal_range(g, 4);
    lemma_vertical_range(g, 3);
}

} // verus!
