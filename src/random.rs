use vstd::prelude::*;
use crate::state::{
    Direction, Move, Role, State, fits, is_value_slide, lemma_value_slide_unique, move_fits,
    next_state,
};
use rand::seq::IteratorRandom;

verus! {

/// A player that picks uniformly among its legal moves.
pub struct Random;

/// `m` is a move that `Random` may pick on `s`: a slide that moves a tile, or a 2 or a
/// 4 in an empty cell, by the side to move.
pub open spec fn random_candidate(s: State, m: Move) -> bool {
    match m {
        Move::Slide(d) => s.next_to_move == Role::Slider && move_fits(s, m) && !is_value_slide(
            s.grid,
            d,
            s.grid,
        ),
        Move::Place { x, y, val } => s.next_to_move == Role::Placer && x < 4 && y < 4 && s.grid[x as int][y as int]
            == 0 && (val == 2 || val == 4),
    }
}

/// Relies on rand's `IteratorRandom::choose` over `0..n` with the thread-local
/// generator: it returns `None` exactly when the range is empty, and otherwise one of
/// its items.
#[verifier::external_body]
fn random_index(n: usize) -> (r: Option<usize>)
    ensures
        r is None <==> n == 0,
        r matches Some(i) ==> i < n,
{
    (0..n).choose(&mut rand::thread_rng())
}

impl Random {
    /// Every move that this player may pick on `s`, and nothing else.
    pub fn candidates(&self, s: &State) -> (ms: Vec<Move>)
        ensures
            forall|i: int| 0 <= i < ms@.len() ==> random_candidate(*s, #[trigger] ms@[i]),
            forall|m: Move| random_candidate(*s, m) ==> ms@.contains(m),
    {
        let mut ms: Vec<Move> = Vec::new();
        if s.next_to_move == Role::Slider {
            let dirs = [Direction::Up, Direction::Left, Direction::Right, Direction::Down];
            let mut i: usize = 0;
            while i < 4
                invariant
                    i <= 4,
                    s.next_to_move == Role::Slider,
                    dirs@ == seq![Direction::Up, Direction::Left, Direction::Right, Direction::Down],
                    forall|j: int| 0 <= j < ms@.len() ==> random_candidate(*s, #[trigger] ms@[j]),
                    forall|j: int| 0 <= j < i ==> (random_candidate(*s, Move::Slide(#[trigger] dirs@[j]))
                        ==> ms@.contains(Move::Slide(dirs@[j]))),
                decreases 4 - i,
            {
                let m = Move::Slide(dirs[i]);
                if fits(s, &m) {
                    match next_state(s, m) {
                        Ok(t) => {
                            proof {
                                if is_value_slide(s.grid, dirs[i as int], s.grid) {
                                    lemma_value_slide_unique(s.grid, dirs[i as int], s.grid, t.grid);
                                }
                            }
                            let ghost before = ms@;
                            ms.push(m);
                            proof {
                                assert(ms@[ms@.len() - 1] == m);
                                assert forall|m2: Move| #[trigger] before.contains(m2) implies ms@.contains(m2) by {
                                    let j = choose|j: int| 0 <= j < before.len() && before[j] == m2;
                                    assert(ms@[j] == m2);
                                }
                            }
                        },
                        Err(_) => {},
                    }
                }
                i = i + 1;
            }
            proof {
                assert forall|m: Move| random_candidate(*s, m) implies ms@.contains(m) by {
                    if let Move::Slide(d) = m {
                        let j: int = match d {
                            Direction::Up => 0,
                            Direction::Left => 1,
                            Direction::Right => 2,
                            Direction::Down => 3,
                        };
                        assert(dirs@[j] == d);
                    }
                }
            }
        } else {
            let mut x: usize = 0;
            while x < 4
                invariant
                    x <= 4,
                    s.next_to_move == Role::Placer,
                    forall|j: int| 0 <= j < ms@.len() ==> random_candidate(*s, #[trigger] ms@[j]),
                    forall|m: Move|
                        random_candidate(*s, m) && (m matches Move::Place { x: mx, .. } && mx < x) ==> ms@.contains(m),
                decreases 4 - x,
            {
                let mut y: usize = 0;
                while y < 4
                    invariant
                        x < 4,
                        y <= 4,
                        s.next_to_move == Role::Placer,
                        forall|j: int| 0 <= j < ms@.len() ==> random_candidate(*s, #[trigger] ms@[j]),
                        forall|m: Move|
                            random_candidate(*s, m) && (m matches Move::Place { x: mx, y: my, .. } && (mx < x || (
                            mx == x && my < y))) ==> ms@.contains(m),
                    decreases 4 - y,
                {
                    if s.grid[x][y] == 0 {
                        let ghost before = ms@;
                        ms.push(Move::Place { x, y, val: 2 });
                        ms.push(Move::Place { x, y, val: 4 });
                        proof {
                            assert(ms@[ms@.len() - 2] == Move::Place { x, y, val: 2 });
                            assert(ms@[ms@.len() - 1] == Move::Place { x, y, val: 4 });
                            assert forall|m: Move| #[trigger] before.contains(m) implies ms@.contains(m) by {
                                let j = choose|j: int| 0 <= j < before.len() && before[j] == m;
                                assert(ms@[j] == m);
                            }
                        }
                    }
                    y = y + 1;
                }
                x = x + 1;
            }
        }
        ms
    }

    /// One of the candidate moves at random; `None` when there is none.
    pub fn pick_move(&mut self, s: &State) -> (r: Option<Move>)
        ensures
            r matches Some(m) ==> random_candidate(*s, m),
            r is None ==> forall|m: Move| !random_candidate(*s, m),
    {
        let ms = self.candidates(s);
        match random_index(ms.len()) {
            Some(i) => Some(ms[i]),
            None => {
                proof {
                    assert forall|m: Move| !random_candidate(*s, m) by {
                        if random_candidate(*s, m) {
                            assert(ms@.contains(m));
                        }
                    }
                }
                None
            },
        }
    }
}

} // verus!
