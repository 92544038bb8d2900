use adversarial_2048::human::Human;
use adversarial_2048::random::Random;
use adversarial_2048::state::{next_state, Direction, InvalidMove, Move, Role, State};

fn slider_state(grid: [[i32; 4]; 4]) -> State {
    State { grid, next_to_move: Role::Slider, score: 0, terminal: false }
}

#[test]
fn slide_adds_merged_tiles_to_score() {
    let s = State {
        grid: [[2, 2, 2, 2], [0, 4, 0, 4], [2, 0, 4, 2], [4, 4, 2, 2]],
        next_to_move: Role::Slider,
        score: 10,
        terminal: false,
    };
    let t = next_state(&s, Move::Slide(Direction::Left)).unwrap();
    assert_eq!(t.score, 38);
    assert_eq!(t.next_to_move, Role::Placer);
    assert!(!t.terminal);
}

#[test]
fn invalid_moves() {
    let s = slider_state([[2, 4, 0, 0], [0, 0, 0, 0], [0, 0, 0, 0], [0, 0, 0, 0]]);
    assert_eq!(next_state(&s, Move::Slide(Direction::Left)), Err(InvalidMove));
    assert_eq!(next_state(&s, Move::Place { x: 0, y: 0, val: 2 }), Err(InvalidMove));
}

#[test]
fn random_slider_picks_a_moving_slide() {
    let s = slider_state([[2, 0, 0, 0], [0, 0, 0, 0], [0, 0, 0, 0], [0, 0, 0, 0]]);
    for _ in 0..20 {
        let m = Random.pick_move(&s).unwrap();
        assert!(matches!(m, Move::Slide(Direction::Right) | Move::Slide(Direction::Down)));
    }
    assert_eq!(Random.candidates(&s).len(), 2);
}

#[test]
fn random_placer_fills_the_only_gap() {
    let mut grid = [[2, 4, 2, 4], [4, 2, 4, 2], [2, 4, 2, 4], [4, 2, 4, 2]];
    grid[2][1] = 0;
    let s = State { grid, next_to_move: Role::Placer, score: 0, terminal: false };
    for _ in 0..20 {
        match Random.pick_move(&s).unwrap() {
            Move::Place { x, y, val } => {
                assert_eq!((x, y), (2, 1));
                assert!(val == 2 || val == 4);
            }
            Move::Slide(_) => panic!("the Placer places"),
        }
    }
    grid[2][1] = 8;
    let full = State { grid, next_to_move: Role::Placer, score: 0, terminal: false };
    assert_eq!(Random.pick_move(&full), None);
}

#[test]
fn human_slide_lines() {
    let s = slider_state([[2, 0, 0, 0], [0, 0, 0, 0], [0, 0, 0, 0], [0, 0, 0, 0]]);
    assert_eq!(Human.slide_from_line(&s, " r\n"), Some(Move::Slide(Direction::Right)));
    assert_eq!(Human.slide_from_line(&s, "d"), Some(Move::Slide(Direction::Down)));
    assert_eq!(Human.slide_from_line(&s, "u\n"), None);
    assert_eq!(Human.slide_from_line(&s, "x\n"), None);
    assert_eq!(Human.slide_from_line(&s, "rr\n"), None);
}

#[test]
fn human_place_lines() {
    let mut s = State::initial();
    s.grid[0][0] = 2;
    assert_eq!(Human.place_from_line(&s, "1 2\n"), Some(Move::Place { x: 1, y: 2, val: 2 }));
    assert_eq!(Human.place_from_line(&s, "  +3 0 extra "), Some(Move::Place { x: 3, y: 0, val: 2 }));
    assert_eq!(Human.place_from_line(&s, "0 0\n"), None);
    assert_eq!(Human.place_from_line(&s, "4 1\n"), None);
    assert_eq!(Human.place_from_line(&s, "a 1\n"), None);
    assert_eq!(Human.place_from_line(&s, "1\n"), None);
    assert_eq!(Human.place_from_line(&s, "1  2\n"), None);
}
