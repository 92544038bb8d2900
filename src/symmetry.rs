use vstd::prelude::*;
use crate::grid::Grid;

verus! {

/// Whether symmetry `t` (0..8) exchanges rows and columns.
pub open spec fn swaps(t: int) -> bool {
    t >= 4
}

/// Whether symmetry `t` mirrors the first coordinate after the optional exchange.
pub open spec fn flips_first(t: int) -> bool {
    t == 1 || t == 3 || t == 6 || t == 7
}

/// Whether symmetry `t` mirrors the second coordinate after the optional exchange.
pub open spec fn flips_second(t: int) -> bool {
    t == 2 || t == 3 || t == 5 || t == 7
}

/// The row of the source cell that symmetry `t` moves to row `r`, column `c`.
pub open spec fn src_row(t: int, r: int, c: int) -> int {
    let a = if swaps(t) {
        c
    } else {
        r
    };
    if flips_first(t) {
        3 - a
    } else {
        a
    }
}

/// The column of the source cell that symmetry `t` moves to row `r`, column `c`.
pub open spec fn src_col(t: int, r: int, c: int) -> int {
    let b = if swaps(t) {
        r
    } else {
        c
    };
    if flips_second(t) {
        3 - b
    } else {
        b
    }
}

/// `h` is the image of `g` under symmetry `t` of the square: 0 is the identity, 1 and 2
/// the two axis reflections, 3 the half turn, 4 and 7 the diagonal reflections, 5 and 6
/// the quarter turns.
pub open spec fn is_image(g: Grid, t: int, h: Grid) -> bool {
    0 <= t < 8 && forall|r: int, c: int|
        0 <= r < 4 && 0 <= c < 4 ==> h[r][c] == g[src_row(t, r, c)][src_col(t, r, c)]
}

/// The cell at row `r`, column `c` of the image of `g` under symmetry `t`.
pub open spec fn image_cell(g: Grid, t: int, r: int, c: int) -> int {
    g[src_row(t, r, c)][src_col(t, r, c)] as int
}

/// Four cells read as one base-256 number, the first most significant.
pub open spec fn row_code(a: int, b: int, c: int, d: int) -> int {
    ((a * 256 + b) * 256 + c) * 256 + d
}

/// The code of row `r` of the image of `g` under symmetry `t`.
pub open spec fn image_row_code(g: Grid, t: int, r: int) -> int {
    row_code(image_cell(g, t, r, 0), image_cell(g, t, r, 1), image_cell(g, t, r, 2), image_cell(g, t, r, 3))
}

/// The image of `g` under symmetry `t` read row by row as one base-256 number; numeric
/// order on codes is lexicographic order on grids.
pub open spec fn image_code(g: Grid, t: int) -> int {
    ((image_row_code(g, t, 0) * 0x1_0000_0000 + image_row_code(g, t, 1)) * 0x1_0000_0000
        + image_row_code(g, t, 2)) * 0x1_0000_0000 + image_row_code(g, t, 3)
}

/// The code of `g` itself.
pub open spec fn code(g: Grid) -> int {
    image_code(g, 0)
}

/// `h` is the representative of the symmetry class of `g`: the image of `g` with the
/// greatest code.
pub open spec fn is_canonical(g: Grid, h: Grid) -> bool {
    (exists|t: int| is_image(g, t, h)) && forall|t: int| 0 <= t < 8 ==> #[trigger] image_code(g, t) <= code(h)
}

/// The symmetry that applies `s` and then `t` (the image under `t` of the image under `s`
/// reads `g` at `src(s, src(t, p))`).
pub open spec fn compose(t: int, s: int) -> int {
    let sw = swaps(t) != swaps(s);
    let f1 = flips_first(t) != (if swaps(t) { flips_second(s) } else { flips_first(s) });
    let f2 = flips_second(t) != (if swaps(t) { flips_first(s) } else { flips_second(s) });
    if !sw {
        if !f1 && !f2 { 0 } else if f1 && !f2 { 1 } else if !f1 && f2 { 2 } else { 3 }
    } else {
        if !f1 && !f2 { 4 } else if !f1 && f2 { 5 } else if f1 && !f2 { 6 } else { 7 }
    }
}

/// The symmetry that undoes `t`.
pub open spec fn inverse(t: int) -> int {
    if t == 5 {
        6
    } else if t == 6 {
        5
    } else {
        t
    }
}

proof fn lemma_compose_src(t: int, s: int, r: int, c: int)
    requires
        0 <= t < 8,
        0 <= s < 8,
        0 <= r < 4,
        0 <= c < 4,
    ensures
        0 <= compose(t, s) < 8,
        src_row(s, src_row(t, r, c), src_col(t, r, c)) == src_row(compose(s, t), r, c),
        src_col(s, src_row(t, r, c), src_col(t, r, c)) == src_col(compose(s, t), r, c),
{
}

proof fn lemma_inverse_src(t: int, r: int, c: int)
    requires
        0 <= t < 8,
        0 <= r < 4,
        0 <= c < 4,
    ensures
        0 <= inverse(t) < 8,
        src_row(t, src_row(inverse(t), r, c), src_col(inverse(t), r, c)) == r,
        src_col(t, src_row(inverse(t), r, c), src_col(inverse(t), r, c)) == c,
{
}

proof fn lemma_src_range(t: int, r: int, c: int)
    requires
        0 <= t < 8,
        0 <= r < 4,
        0 <= c < 4,
    ensures
        0 <= src_row(t, r, c) < 4,
        0 <= src_col(t, r, c) < 4,
{
}

/// Images of an image of `g` are images of `g`: the image of `h` under `s` is the
/// image of `g` under `compose(t, s)`.
proof fn lemma_image_of_image(g: Grid, t: int, h: Grid, s: int)
    requires
        is_image(g, t, h),
        0 <= s < 8,
    ensures
        image_code(h, s) == image_code(g, compose(t, s)),
        0 <= compose(t, s) < 8,
{
    assert forall|r: int, c: int| 0 <= r < 4 && 0 <= c < 4 implies image_cell(h, s, r, c)
        == image_cell(g, compose(t, s), r, c) by {
        lemma_compose_src(s, t, r, c);
        lemma_src_range(s, r, c);
    }
    lemma_compose_src(s, t, 0, 0);
}

/// A grid is an image of each of its images.
proof fn lemma_image_inverse(g: Grid, t: int, h: Grid)
    requires
        is_image(g, t, h),
    ensures
        is_image(h, inverse(t), g),
{
    assert forall|r: int, c: int| 0 <= r < 4 && 0 <= c < 4 implies g[r][c]
        == h[src_row(inverse(t), r, c)][src_col(inverse(t), r, c)] by {
        lemma_inverse_src(t, r, c);
        lemma_src_range(inverse(t), r, c);
    }
    lemma_inverse_src(t, 0, 0);
}

proof fn lemma_code_of_image(g: Grid, t: int, h: Grid)
    requires
        is_image(g, t, h),
    ensures
        code(h) == image_code(g, t),
{
    assert forall|r: int, c: int| 0 <= r < 4 && 0 <= c < 4 implies image_cell(h, 0, r, c)
        == image_cell(g, t, r, c) by {}
}

proof fn lemma_digits(x: int, y: int, x2: int, y2: int, k: int)
    requires
        k > 0,
        0 <= y < k,
        0 <= y2 < k,
        x * k + y == x2 * k + y2,
    ensures
        x == x2,
        y == y2,
{
    let d = x - x2;
    assert(d * k == y2 - y) by (nonlinear_arith)
        requires
            x * k + y == x2 * k + y2,
            d == x - x2,
    ;
    if d >= 1 {
        assert(d * k >= k) by (nonlinear_arith)
            requires
                d >= 1,
                k > 0,
        ;
    } else if d <= -1 {
        assert(d * k <= -k) by (nonlinear_arith)
            requires
                d <= -1,
                k > 0,
        ;
    }
    assert(d == 0);
    assert(d * k == 0);
}

proof fn lemma_row_code_injective(a: int, b: int, c: int, d: int, a2: int, b2: int, c2: int, d2: int)
    requires
        0 <= a < 256 && 0 <= b < 256 && 0 <= c < 256 && 0 <= d < 256,
        0 <= a2 < 256 && 0 <= b2 < 256 && 0 <= c2 < 256 && 0 <= d2 < 256,
        row_code(a, b, c, d) == row_code(a2, b2, c2, d2),
    ensures
        a == a2 && b == b2 && c == c2 && d == d2,
{
    lemma_digits((a * 256 + b) * 256 + c, d, (a2 * 256 + b2) * 256 + c2, d2, 256);
    lemma_digits(a * 256 + b, c, a2 * 256 + b2, c2, 256);
    lemma_digits(a, b, a2, b2, 256);
}

proof fn lemma_row_code_range(g: Grid, t: int, r: int)
    requires
        0 <= t < 8,
        0 <= r < 4,
    ensures
        0 <= image_row_code(g, t, r) < 0x1_0000_0000,
{
    lemma_src_range(t, r, 0);
    lemma_src_range(t, r, 1);
    lemma_src_range(t, r, 2);
    lemma_src_range(t, r, 3);
}

/// Distinct grids have distinct codes.
pub proof fn lemma_code_injective(g: Grid, h: Grid)
    requires
        code(g) == code(h),
    ensures
        g == h,
{
    let k: int = 0x1_0000_0000;
    lemma_row_code_range(g, 0, 0);
    lemma_row_code_range(g, 0, 1);
    lemma_row_code_range(g, 0, 2);
    lemma_row_code_range(g, 0, 3);
    lemma_row_code_range(h, 0, 0);
    lemma_row_code_range(h, 0, 1);
    lemma_row_code_range(h, 0, 2);
    lemma_row_code_range(h, 0, 3);
    let (g0, g1, g2, g3) = (image_row_code(g, 0, 0), image_row_code(g, 0, 1), image_row_code(g, 0, 2), image_row_code(g, 0, 3));
    let (h0, h1, h2, h3) = (image_row_code(h, 0, 0), image_row_code(h, 0, 1), image_row_code(h, 0, 2), image_row_code(h, 0, 3));
    lemma_digits((g0 * k + g1) * k + g2, g3, (h0 * k + h1) * k + h2, h3, k);
    lemma_digits(g0 * k + g1, g2, h0 * k + h1, h2, k);
    lemma_digits(g0, g1, h0, h1, k);
    assert forall|r: int| 0 <= r < 4 implies g[r] =~= h[r] by {
        lemma_row_code_injective(
            g[r][0] as int, g[r][1] as int, g[r][2] as int, g[r][3] as int,
            h[r][0] as int, h[r][1] as int, h[r][2] as int, h[r][3] as int,
        );
    }
    assert(g =~= h);
}

/// Every grid in the symmetry class of `g` has the same representative as `g`.
pub proof fn lemma_canonical_shared(g: Grid, t: int, h: Grid, a: Grid, b: Grid)
    requires
        is_image(g, t, h),
        is_canonical(g, a),
        is_canonical(h, b),
    ensures
        a == b,
{
    let ta = choose|u: int| is_image(g, u, a);
    let tb = choose|u: int| is_image(h, u, b);
    // b is an image of g, so its code is at most that of a.
    lemma_code_of_image(h, tb, b);
    lemma_image_of_image(g, t, h, tb);
    assert(image_code(g, compose(t, tb)) <= code(a));
    // a is an image of h, so its code is at most that of b.
    lemma_image_inverse(g, t, h);
    lemma_code_of_image(g, ta, a);
    lemma_image_of_image(h, inverse(t), g, ta);
    assert(image_code(h, compose(inverse(t), ta)) <= code(b));
    lemma_code_injective(a, b);
}

fn source_cell(t: usize, r: usize, c: usize) -> (rc: (usize, usize))
    requires
        t < 8,
        r < 4,
        c < 4,
    ensures
        rc.0 == src_row(t as int, r as int, c as int),
        rc.1 == src_col(t as int, r as int, c as int),
        rc.0 < 4,
        rc.1 < 4,
{
    let (a, b) = if t >= 4 {
        (c, r)
    } else {
        (r, c)
    };
    let a = if t == 1 || t == 3 || t == 6 || t == 7 {
        3 - a
    } else {
        a
    };
    let b = if t == 2 || t == 3 || t == 5 || t == 7 {
        3 - b
    } else {
        b
    };
    (a, b)
}

/// The image of `g` under symmetry `t`.
pub fn image(g: &Grid, t: usize) -> (h: Grid)
    requires
        t < 8,
    ensures
        is_image(*g, t as int, h),
{
    let mut h: Grid = [[0u8; 4]; 4];
    let mut r: usize = 0;
    while r < 4
        invariant
            t < 8,
            r <= 4,
            forall|x: int, y: int|
                0 <= x < r && 0 <= y < 4 ==> h[x][y] == g[src_row(t as int, x, y)][src_col(t as int, x, y)],
        decreases 4 - r,
    {
        let mut c: usize = 0;
        while c < 4
            invariant
                t < 8,
                r < 4,
                c <= 4,
                forall|x: int, y: int|
                    0 <= x < r && 0 <= y < 4 ==> h[x][y] == g[src_row(t as int, x, y)][src_col(t as int, x, y)],
                forall|y: int| 0 <= y < c ==> h[r as int][y] == g[src_row(t as int, r as int, y)][src_col(t as int, r as int, y)],
            decreases 4 - c,
        {
            let (a, b) = source_cell(t, r, c);
            h[r][c] = g[a][b];
            c = c + 1;
        }
        r = r + 1;
    }
    h
}

/// The eight images of `g`, in the order of the symmetry numbering.
pub fn symmetries(g: &Grid) -> (images: [Grid; 8])
    ensures
        forall|t: int| 0 <= t < 8 ==> is_image(*g, t, #[trigger] images[t]),
{
    let mut images: [Grid; 8] = [[[0u8; 4]; 4]; 8];
    let mut t: usize = 0;
    while t < 8
        invariant
            t <= 8,
            forall|u: int| 0 <= u < t ==> is_image(*g, u, #[trigger] images[u]),
        decreases 8 - t,
    {
        images[t] = image(g, t);
        t = t + 1;
    }
    images
}

/// The code of `g`: its cells read row by row as one base-256 number.
pub fn grid_code(g: &Grid) -> (k: u128)
    ensures
        k == code(*g),
{
    let mut k: u128 = 0;
    let mut r: usize = 0;
    proof {
        reveal_with_fuel(pow_code, 5);
        assert(pow_code(4) == 0x1_0000_0000_0000_0000_0000_0000_0000_0000);
    }
    while r < 4
        invariant
            r <= 4,
            pow_code(4) == 0x1_0000_0000_0000_0000_0000_0000_0000_0000,
            forall|n: int| 0 <= n < 4 ==> #[trigger] pow_code(n + 1) == pow_code(n) * 0x1_0000_0000,
            forall|n: int| 0 <= n <= 4 ==> #[trigger] pow_code(n) <= pow_code(4),
            k == partial_code(*g, r as int),
            0 <= k < pow_code(r as int),
        decreases 4 - r,
    {
        let row: u128 = (((g[r][0] as u128) * 256 + g[r][1] as u128) * 256 + g[r][2] as u128) * 256
            + g[r][3] as u128;
        proof {
            lemma_row_code_range(*g, 0, r as int);
            assert(row == image_row_code(*g, 0, r as int));
            assert(k * 0x1_0000_0000 + row < pow_code(r + 1)) by (nonlinear_arith)
                requires
                    0 <= k < pow_code(r as int),
                    0 <= row < 0x1_0000_0000,
                    pow_code(r + 1) == pow_code(r as int) * 0x1_0000_0000,
            ;
        }
        k = k * 0x1_0000_0000 + row;
        r = r + 1;
    }
    proof {
        reveal_with_fuel(partial_code, 5);
    }
    k
}

/// The code of the first `n` rows of `g`.
spec fn partial_code(g: Grid, n: int) -> int
    decreases n,
{
    if n <= 0 {
        0
    } else {
        partial_code(g, n - 1) * 0x1_0000_0000 + image_row_code(g, 0, n - 1)
    }
}

/// `2^(32 n)`: the bound on the code of `n` rows.
spec fn pow_code(n: int) -> int
    decreases n,
{
    if n <= 0 {
        1
    } else {
        pow_code(n - 1) * 0x1_0000_0000
    }
}

/// The representative of the symmetry class of `g`.
pub fn canonical_grid(g: &Grid) -> (h: Grid)
    ensures
        is_canonical(*g, h),
{
    let images = symmetries(g);
    let mut best: usize = 0;
    let mut best_code = grid_code(&images[0]);
    proof {
        lemma_code_of_image(*g, 0, images[0]);
    }
    let mut t: usize = 1;
    while t < 8
        invariant
            1 <= t <= 8,
            best < 8,
            forall|u: int| 0 <= u < 8 ==> is_image(*g, u, #[trigger] images[u]),
            best_code == code(images[best as int]),
            forall|u: int| 0 <= u < t ==> #[trigger] image_code(*g, u) <= best_code,
        decreases 8 - t,
    {
        let k = grid_code(&images[t]);
        proof {
            lemma_code_of_image(*g, t as int, images[t as int]);
        }
        if k > best_code {
            best = t;
            best_code = k;
        }
        t = t + 1;
    }
    proof {
        lemma_code_of_image(*g, best as int, images[best as int]);
    }
    images[best]
}

/// The representative of `g` is also the representative of each image of `g`.
pub proof fn lemma_canonical_of_image(g: Grid, t: int, h: Grid, a: Grid)
    requires
        is_image(g, t, h),
        is_canonical(g, a),
    ensures
        is_canonical(h, a),
{
    let ta = choose|u: int| is_image(g, u, a);
    let u = compose(inverse(t), ta);
    assert(0 <= u < 8 && compose(t, u) == ta);
    assert forall|r: int, c: int| 0 <= r < 4 && 0 <= c < 4 implies a[r][c] == h[src_row(u, r, c)][src_col(
        u,
        r,
        c,
    )] by {
        lemma_compose_src(u, t, r, c);
        lemma_src_range(u, r, c);
    }
    assert(is_image(h, u, a));
    assert forall|s: int| 0 <= s < 8 implies #[trigger] image_code(h, s) <= code(a) by {
        lemma_image_of_image(g, t, h, s);
    }
}

/// A grid has one image under each symmetry.
pub proof fn lemma_image_unique(g: Grid, t: int, h1: Grid, h2: Grid)
    requires
        is_image(g, t, h1),
        is_image(g, t, h2),
    ensures
        h1 == h2,
{
    assert forall|r: int| 0 <= r < 4 implies h1[r] =~= h2[r] by {
        assert forall|c: int| 0 <= c < 4 implies h1[r][c] == h2[r][c] by {
            assert(h1[r][c] == g[src_row(t, r, c)][src_col(t, r, c)]);
        }
    }
    assert(h1 =~= h2);
}

proof fn lemma_image_of_image_grid(g: Grid, t: int, h: Grid, s: int, h2: Grid)
    requires
        is_image(g, t, h),
        is_image(h, s, h2),
    ensures
        is_image(g, compose(t, s), h2),
{
    assert forall|r: int, c: int| 0 <= r < 4 && 0 <= c < 4 implies h2[r][c] == g[src_row(compose(t, s), r, c)][src_col(
        compose(t, s),
        r,
        c,
    )] by {
        lemma_compose_src(s, t, r, c);
        lemma_src_range(s, r, c);
    }
    lemma_compose_src(s, t, 0, 0);
}

/// An image `h` of `g` has exactly the images that `g` has: the symmetry class is closed
/// under the eight symmetries.
pub proof fn lemma_image_sets_equal(g: Grid, t: int, h: Grid)
    requires
        is_image(g, t, h),
    ensures
        forall|s: int, h2: Grid| #[trigger] is_image(h, s, h2) ==> exists|u: int| is_image(g, u, h2),
        forall|u: int, h2: Grid| #[trigger] is_image(g, u, h2) ==> exists|s: int| is_image(h, s, h2),
{
    assert forall|s: int, h2: Grid| #[trigger] is_image(h, s, h2) implies exists|u: int| is_image(g, u, h2) by {
        lemma_image_of_image_grid(g, t, h, s, h2);
    }
    lemma_image_inverse(g, t, h);
    assert forall|u: int, h2: Grid| #[trigger] is_image(g, u, h2) implies exists|s: int| is_image(h, s, h2) by {
        lemma_image_of_image_grid(h, inverse(t), g, u, h2);
    }
}

} // verus!
