use adversarial_2048::state::{next_state, Direction, Move, Role, State};

#[test]
fn game_place1() {
    let s = State::initial();
    let m = Move::Place { x: 1, y: 2, val: 2 };
    let s = next_state(&s, m).unwrap();
    assert_eq!(s.grid, [[0, 0, 0, 0], [0, 0, 2, 0], [0, 0, 0, 0], [0, 0, 0, 0]]);
    assert_eq!(
        s,
        State {
            grid: [[0, 0, 0, 0], [0, 0, 2, 0], [0, 0, 0, 0], [0, 0, 0, 0]],
            next_to_move: Role::Slider,
            score: 0,
            terminal: false,
        }
    );
}

#[test]
fn game_slide_left() {
    let s = State::initial();
    let m = Move::Place { x: 1, y: 2, val: 2 };
    let s = next_state(&s, m).unwrap();
    let m = Move::Slide(Direction::Left);
    let s = next_state(&s, m).unwrap();
    assert_eq!(s.grid, [[0, 0, 0, 0], [2, 0, 0, 0], [0, 0, 0, 0], [0, 0, 0, 0]]);
}

#[test]
fn game_slide_left2() {
    let s = State {
        grid: [[2, 2, 2, 2], [0, 4, 0, 4], [2, 0, 4, 2], [4, 4, 2, 2]],
        next_to_move: Role::Slider,
        score: 0,
        terminal: false,
    };
    let m = Move::Slide(Direction::Left);
    let s = next_state(&s, m).unwrap();
    assert_eq!(s.grid, [[4, 4, 0, 0], [8, 0, 0, 0], [2, 4, 2, 0], [8, 4, 0, 0]]);
}

#[test]
fn game_slide_left3() {
    let s = State {
        grid: [[2, 4, 2, 0], [2, 2, 4, 0], [2, 0, 4, 2], [0, 2, 4, 2]],
        next_to_move: Role::Slider,
        score: 0,
        terminal: false,
    };
    let m = Move::Slide(Direction::Left);
    let s = next_state(&s, m).unwrap();
    assert_eq!(s.grid, [[2, 4, 2, 0], [4, 4, 0, 0], [2, 4, 2, 0], [2, 4, 2, 0]]);
}

#[test]
fn game_slide_right() {
    let s = State {
        grid: [[2, 4, 2, 0], [2, 2, 4, 0], [2, 0, 2, 2], [0, 2, 4, 2]],
        next_to_move: Role::Slider,
        score: 0,
        terminal: false,
    };
    let m = Move::Slide(Direction::Right);
    let s = next_state(&s, m).unwrap();
    assert_eq!(s.grid, [[0, 2, 4, 2], [0, 0, 4, 4], [0, 0, 2, 4], [0, 2, 4, 2]]);
}

#[test]
fn game_slide_right2() {
    let s = State {
        grid: [[2, 2, 2, 2], [0, 4, 0, 4], [2, 0, 4, 2], [4, 4, 2, 2]],
        next_to_move: Role::Slider,
        score: 0,
        terminal: false,
    };
    let m = Move::Slide(Direction::Right);
    let s = next_state(&s, m).unwrap();
    assert_eq!(s.grid, [[0, 0, 4, 4], [0, 0, 0, 8], [0, 2, 4, 2], [0, 0, 8, 4]]);
}

#[test]
fn game_slide_up() {
    let s = State {
        grid: [[2, 2, 2, 2], [0, 4, 0, 4], [2, 0, 4, 2], [4, 4, 2, 2]],
        next_to_move: Role::Slider,
        score: 0,
        terminal: false,
    };
    let m = Move::Slide(Direction::Up);
    let s = next_state(&s, m).unwrap();
    assert_eq!(s.grid, [[4, 2, 2, 2], [4, 8, 4, 4], [0, 0, 2, 4], [0, 0, 0, 0]]);
}

#[test]
fn game_slide_up2() {
    let s = State {
        grid: [[0, 0, 0, 0], [0, 0, 2, 0], [4, 0, 0, 0], [4, 0, 2, 0]],
        next_to_move: Role::Slider,
        score: 0,
        terminal: false,
    };
    let m = Move::Slide(Direction::Up);
    let s = next_state(&s, m).unwrap();
    assert_eq!(s.grid, [[8, 0, 4, 0], [0, 0, 0, 0], [0, 0, 0, 0], [0, 0, 0, 0]]);
}

#[test]
fn game_slide_down() {
    let s = State {
        grid: [[2, 2, 2, 2], [0, 4, 0, 4], [2, 0, 4, 2], [4, 4, 2, 2]],
        next_to_move: Role::Slider,
        score: 0,
        terminal: false,
    };
    let m = Move::Slide(Direction::Down);
    let s = next_state(&s, m).unwrap();
    assert_eq!(s.grid, [[0, 0, 0, 0], [0, 0, 2, 2], [4, 2, 4, 4], [4, 8, 2, 4]]);
}
