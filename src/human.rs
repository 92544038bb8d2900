use vstd::prelude::*;
use vstd::string::StringSliceAdditionalSpecFns;
use crate::state::{
    Direction, Move, Role, State, fits, is_value_slide, lemma_value_slide_unique, next_state,
};

verus! {

/// A player whose moves are typed in, one line per attempt.
pub struct Human;

/// An ASCII white-space byte.
pub open spec fn is_space(b: u8) -> bool {
    b == 32 || (9 <= b <= 13)
}

/// The number of white-space bytes at the front of `s`.
pub open spec fn leading_spaces(s: Seq<u8>) -> nat
    decreases s.len(),
{
    if s.len() > 0 && is_space(s[0]) {
        1 + leading_spaces(s.drop_first())
    } else {
        0
    }
}

/// The number of white-space bytes at the end of `s`.
pub open spec fn trailing_spaces(s: Seq<u8>) -> nat
    decreases s.len(),
{
    if s.len() > 0 && is_space(s.last()) {
        1 + trailing_spaces(s.drop_last())
    } else {
        0
    }
}

/// `s` without its leading and trailing white space.
pub open spec fn trimmed(s: Seq<u8>) -> Seq<u8> {
    let t = s.subrange(leading_spaces(s) as int, s.len() as int);
    t.subrange(0, t.len() - trailing_spaces(t))
}

/// The direction that a trimmed line names: `u`, `d`, `l` or `r`.
pub open spec fn direction_named(t: Seq<u8>) -> Option<Direction> {
    if t == seq![117u8] {
        Some(Direction::Up)
    } else if t == seq![100u8] {
        Some(Direction::Down)
    } else if t == seq![108u8] {
        Some(Direction::Left)
    } else if t == seq![114u8] {
        Some(Direction::Right)
    } else {
        None
    }
}

/// The value of a run of decimal digits.
pub open spec fn digits_value(t: Seq<u8>) -> int
    decreases t.len(),
{
    if t.len() == 0 {
        0
    } else {
        10 * digits_value(t.drop_last()) + (t.last() - 48)
    }
}

/// All bytes of `t` are decimal digits.
pub open spec fn all_digits(t: Seq<u8>) -> bool {
    forall|i: int| 0 <= i < t.len() ==> 48 <= #[trigger] t[i] <= 57
}

/// The number that token `t` writes: digits, optionally after a `+`.
pub open spec fn token_number(t: Seq<u8>) -> Option<int> {
    let d = if t.len() > 0 && t[0] == 43 {
        t.drop_first()
    } else {
        t
    };
    if d.len() > 0 && all_digits(d) {
        Some(digits_value(d))
    } else {
        None
    }
}

/// The index of the first space byte (32) in `t`, or its length when there is none.
pub open spec fn first_space(t: Seq<u8>) -> int
    decreases t.len(),
{
    if t.len() == 0 {
        0
    } else if t[0] == 32 {
        0
    } else {
        1 + first_space(t.drop_first())
    }
}

/// The cell that a trimmed line names: two numbers separated by one space (more text
/// after a further space is ignored); both must be inside the grid.
pub open spec fn cell_named(t: Seq<u8>) -> Option<(usize, usize)> {
    let p = first_space(t);
    if p >= t.len() {
        None
    } else {
        let rest = t.subrange(p + 1, t.len() as int);
        let q = first_space(rest);
        let xs = token_number(t.subrange(0, p));
        let ys = token_number(rest.subrange(0, q));
        if xs is Some && ys is Some && xs->0 < 4 && ys->0 < 4 {
            Some((xs->0 as usize, ys->0 as usize))
        } else {
            None
        }
    }
}

proof fn lemma_leading_step(s: Seq<u8>, i: int)
    requires
        0 <= i < s.len(),
        is_space(s[i]),
    ensures
        leading_spaces(s.subrange(i, s.len() as int)) == 1 + leading_spaces(s.subrange(i + 1, s.len() as int)),
{
    assert(s.subrange(i, s.len() as int).drop_first() =~= s.subrange(i + 1, s.len() as int));
}

proof fn lemma_trailing_step(s: Seq<u8>, j: int)
    requires
        0 < j <= s.len(),
        is_space(s[j - 1]),
    ensures
        trailing_spaces(s.subrange(0, j)) == 1 + trailing_spaces(s.subrange(0, j - 1)),
{
    assert(s.subrange(0, j).drop_last() =~= s.subrange(0, j - 1));
}

/// The bounds of `b` without its leading and trailing white space.
fn trim_bounds(b: &[u8]) -> (r: (usize, usize))
    ensures
        r.0 <= r.1 <= b@.len(),
        b@.subrange(r.0 as int, r.1 as int) == trimmed(b@),
{
    let ghost s = b@;
    let mut start: usize = 0;
    proof {
        assert(s.subrange(0, s.len() as int) =~= s);
    }
    while start < b.len() && is_space_byte(b[start])
        invariant
            s == b@,
            start <= s.len(),
            leading_spaces(s) == start + leading_spaces(s.subrange(start as int, s.len() as int)),
        decreases s.len() - start,
    {
        proof {
            lemma_leading_step(s, start as int);
        }
        start = start + 1;
    }
    proof {
        if start < s.len() {
            assert(!is_space(s.subrange(start as int, s.len() as int)[0]));
        }
        assert(leading_spaces(s) == start);
    }
    let ghost t = s.subrange(start as int, s.len() as int);
    let mut end: usize = b.len();
    proof {
        assert(t.subrange(0, t.len() as int) =~= t);
    }
    while end > start && is_space_byte(b[end - 1])
        invariant
            s == b@,
            t == s.subrange(start as int, s.len() as int),
            start <= end <= s.len(),
            trailing_spaces(t) == (s.len() - end) + trailing_spaces(t.subrange(0, end - start)),
        decreases end - start,
    {
        proof {
            lemma_trailing_step(t, end - start);
        }
        end = end - 1;
    }
    proof {
        let u = t.subrange(0, end - start);
        if end > start {
            assert(!is_space(u.last()));
        }
        assert(trailing_spaces(t) == s.len() - end);
        assert(s.subrange(start as int, end as int) =~= t.subrange(0, t.len() - trailing_spaces(t)));
    }
    (start, end)
}

fn is_space_byte(b: u8) -> (r: bool)
    ensures
        r == is_space(b),
{
    b == 32 || (9 <= b && b <= 13)
}

/// The index of the first space byte of `b[from..to]`, or `to`.
fn find_space(b: &[u8], from: usize, to: usize) -> (p: usize)
    requires
        from <= to <= b@.len(),
    ensures
        p - from == first_space(b@.subrange(from as int, to as int)),
        from <= p <= to,
{
    let mut p: usize = from;
    proof {
        assert(b@.subrange(from as int, to as int).subrange(0, 0) =~= Seq::<u8>::empty());
    }
    while p < to && b[p] != 32
        invariant
            from <= p <= to <= b@.len(),
            forall|i: int| from <= i < p ==> b@[i] != 32,
        decreases to - p,
    {
        p = p + 1;
    }
    proof {
        lemma_first_space(b@.subrange(from as int, to as int), p - from);
    }
    p
}

proof fn lemma_first_space(t: Seq<u8>, n: int)
    requires
        0 <= n <= t.len(),
        forall|i: int| 0 <= i < n ==> t[i] != 32,
        n == t.len() || t[n] == 32,
    ensures
        first_space(t) == n,
    decreases t.len(),
{
    if t.len() > 0 && n > 0 {
        lemma_first_space(t.drop_first(), n - 1);
    }
}

/// The number that `b[from..to]` writes, when it writes one below 4; `None` otherwise.
#[verifier::rlimit(40)]
fn small_number(b: &[u8], from: usize, to: usize) -> (r: Option<usize>)
    requires
        from <= to <= b@.len(),
    ensures
        r matches Some(v) ==> v < 4,
        match token_number(b@.subrange(from as int, to as int)) {
            Some(n) => if n < 4 {
                r == Some(n as usize)
            } else {
                r is None
            },
            None => r is None,
        },
{
    let ghost t = b@.subrange(from as int, to as int);
    let mut i = from;
    if i < to && b[i] == 43 {
        i = i + 1;
    }
    let ghost d: Seq<u8> = if t.len() > 0 && t[0] == 43 {
        t.drop_first()
    } else {
        t
    };
    proof {
        assert(d =~= b@.subrange(i as int, to as int));
    }
    if i == to {
        assert(d.len() == 0);
        assert(token_number(t) is None);
        return None;
    }
    let start = i;
    let mut v: usize = 0;
    while i < to
        invariant
            from <= start <= i <= to <= b@.len(),
            d == b@.subrange(start as int, to as int),
            t == b@.subrange(from as int, to as int),
            d == (if t.len() > 0 && t[0] == 43 {
                t.drop_first()
            } else {
                t
            }),
            forall|k: int| start <= k < i ==> 48 <= #[trigger] b@[k] <= 57,
            digits_value(d.subrange(0, i - start)) >= 0,
            digits_value(d.subrange(0, i - start)) < 4 ==> v == digits_value(d.subrange(0, i - start)),
            digits_value(d.subrange(0, i - start)) >= 4 ==> v == 4,
        decreases to - i,
    {
        let c = b[i];
        if c < 48 || c > 57 {
            proof {
                assert(!all_digits(d)) by {
                    assert(d[i - start] == c);
                }
                assert(token_number(t) is None);
            }
            return None;
        }
        proof {
            let pre = d.subrange(0, i - start);
            let next = d.subrange(0, i + 1 - start);
            assert(next.drop_last() =~= pre);
            assert(next.last() == c);
            assert(digits_value(next) == 10 * digits_value(pre) + (c - 48));
        }
        if v < 4 {
            v = v * 10 + (c - 48) as usize;
            if v > 4 {
                v = 4;
            }
        }
        i = i + 1;
    }
    proof {
        assert(d.subrange(0, d.len() as int) =~= d);
        assert(all_digits(d));
    }
    if v < 4 {
        Some(v)
    } else {
        None
    }
}

impl Human {
    /// The slide that `line` asks for, when it names a direction and that slide is legal
    /// on `s` with the Slider to move.
    pub fn slide_from_line(&self, s: &State, line: &str) -> (r: Option<Move>)
        ensures
            r matches Some(m) ==> m == Move::Slide(direction_named(trimmed(line.spec_bytes()))->0),
            r matches Some(m) ==> s.next_to_move == Role::Slider && crate::state::move_fits(*s, m),
            r matches Some(Move::Slide(d)) ==> !is_value_slide(s.grid, d, s.grid),
            r is None ==> s.next_to_move != Role::Slider || direction_named(trimmed(line.spec_bytes())) is None || ({
                let m = Move::Slide(direction_named(trimmed(line.spec_bytes()))->0);
                !crate::state::move_fits(*s, m) || is_value_slide(s.grid, direction_named(trimmed(line.spec_bytes()))->0, s.grid)
            }),
    {
        if s.next_to_move != Role::Slider {
            return None;
        }
        let b = line.as_bytes();
        let (st, en) = trim_bounds(b);
        if en - st != 1 {
            proof {
                assert(trimmed(b@).len() != 1);
            }
            return None;
        }
        let c = b[st];
        proof {
            assert(trimmed(b@) =~= seq![c]);
        }
        proof {
            assert(seq![117u8][0] == 117 && seq![100u8][0] == 100 && seq![108u8][0] == 108 && seq![114u8][0] == 114);
            assert(seq![c][0] == c);
        }
        let d = if c == 117 {
            Direction::Up
        } else if c == 100 {
            Direction::Down
        } else if c == 108 {
            Direction::Left
        } else if c == 114 {
            Direction::Right
        } else {
            return None;
        };
        let m = Move::Slide(d);
        if !fits(s, &m) {
            return None;
        }
        match next_state(s, m) {
            Ok(t) => {
                proof {
                    if is_value_slide(s.grid, d, s.grid) {
                        lemma_value_slide_unique(s.grid, d, s.grid, t.grid);
                    }
                }
                Some(m)
            },
            Err(_) => None,
        }
    }

    /// The placement of a 2 that `line` asks for, when it names a cell inside the grid
    /// that is empty on `s` with the Placer to move.
    pub fn place_from_line(&self, s: &State, line: &str) -> (r: Option<Move>)
        ensures
            r matches Some(m) ==> {
                &&& s.next_to_move == Role::Placer
                &&& cell_named(trimmed(line.spec_bytes())) matches Some(xy)
                &&& m == Move::Place { x: xy.0, y: xy.1, val: 2 }
                &&& s.grid[xy.0 as int][xy.1 as int] == 0
            },
            r is None ==> s.next_to_move != Role::Placer || match cell_named(trimmed(line.spec_bytes())) {
                Some(xy) => s.grid[xy.0 as int][xy.1 as int] != 0,
                None => true,
            },
    {
        if s.next_to_move != Role::Placer {
            return None;
        }
        let b = line.as_bytes();
        let (st, en) = trim_bounds(b);
        let ghost t = b@.subrange(st as int, en as int);
        let p = find_space(b, st, en);
        if p >= en {
            return None;
        }
        let q = find_space(b, p + 1, en);
        proof {
            let rest = t.subrange(p + 1 - st, t.len() as int);
            assert(rest =~= b@.subrange(p + 1, en as int));
            assert(t.subrange(0, p - st) =~= b@.subrange(st as int, p as int));
            assert(rest.subrange(0, q - (p + 1)) =~= b@.subrange(p + 1, q as int));
        }
        let x = match small_number(b, st, p) {
            Some(x) => x,
            None => {
                return None;
            },
        };
        let y = match small_number(b, p + 1, q) {
            Some(y) => y,
            None => {
                return None;
            },
        };
        if s.grid[x][y] == 0 {
            Some(Move::Place { x, y, val: 2 })
        } else {
            None
        }
    }
}

} // verus!
