use adversarial_2048::state::{dead_grid, next_state, Direction, Move, Role, State};

#[test]
fn state_place1() {
    let s = State::initial();
    let m = Move::Place { x: 1, y: 2, val: 2 };
    let s = next_state(&s, m).unwrap();
    assert_eq!(s.grid, [[0, 0, 0, 0], [0, 0, 2, 0], [0, 0, 0, 0], [0, 0, 0, 0]]);
    assert_eq!(
        s,
        State {
            grid: [[0, 0, 0, 0], [0, 0, 2, 0], [0, 0, 0, 0], [0, 0, 0, 0]],
            next_to_move: Role::Slider,
            score: 0,
            terminal: false,
        }
    );
}

#[test]
fn state_slide_left() {
    let s = State::initial();
    let m = Move::Place { x: 1, y: 2, val: 2 };
    let s = next_state(&s, m).unwrap();
    let m = Move::Slide(Direction::Left);
    let s = next_state(&s, m).unwrap();
    assert_eq!(s.grid, [[0, 0, 0, 0], [2, 0, 0, 0], [0, 0, 0, 0], [0, 0, 0, 0]]);
}

#[test]
fn state_slide_left2() {
    let s = State {
        grid: [[2, 2, 2, 2], [0, 4, 0, 4], [2, 0, 4, 2], [4, 4, 2, 2]],
        next_to_move: Role::Slider,
        score: 0,
        terminal: false,
    };
    let m = Move::Slide(Direction::Left);
    let s = next_state(&s, m).unwrap();
    assert_eq!(s.grid, [[4, 4, 0, 0], [8, 0, 0, 0], [2, 4, 2, 0], [8, 4, 0, 0]]);
}

#[test]
fn state_slide_left3() {
    let s = State {
        grid: [[2, 4, 2, 0], [2, 2, 4, 0], [2, 0, 4, 2], [0, 2, 4, 2]],
        next_to_move: Role::Slider,
        score: 0,
        terminal: false,
    };
    let m = Move::Slide(Direction::Left);
    let s = next_state(&s, m).unwrap();
    assert_eq!(s.grid, [[2, 4, 2, 0], [4, 4, 0, 0], [2, 4, 2, 0], [2, 4, 2, 0]]);
}

#[test]
fn state_slide_right() {
    let s = State {
        grid: [[2, 4, 2, 0], [2, 2, 4, 0], [2, 0, 2, 2], [0, 2, 4, 2]],
        next_to_move: Role::Slider,
        score: 0,
        terminal: false,
    };
    let m = Move::Slide(Direction::Right);
    let s = next_state(&s, m).unwrap();
    assert_eq!(s.grid, [[0, 2, 4, 2], [0, 0, 4, 4], [0, 0, 2, 4], [0, 2, 4, 2]]);
}

#[test]
fn state_slide_right2() {
    let s = State {
        grid: [[2, 2, 2, 2], [0, 4, 0, 4], [2, 0, 4, 2], [4, 4, 2, 2]],
        next_to_move: Role::Slider,
        score: 0,
        terminal: false,
    };
    let m = Move::Slide(Direction::Right);
    let s = next_state(&s, m).unwrap();
    assert_eq!(s.grid, [[0, 0, 4, 4], [0, 0, 0, 8], [0, 2, 4, 2], [0, 0, 8, 4]]);
}

#[test]
fn state_slide_up() {
    let s = State {
        grid: [[2, 2, 2, 2], [0, 4, 0, 4], [2, 0, 4, 2], [4, 4, 2, 2]],
        next_to_move: Role::Slider,
        score: 0,
        terminal: false,
    };
    let m = Move::Slide(Direction::Up);
    let s = next_state(&s, m).unwrap();
    assert_eq!(s.grid, [[4, 2, 2, 2], [4, 8, 4, 4], [0, 0, 2, 4], [0, 0, 0, 0]]);
}

#[test]
fn state_slide_up2() {
    let s = State {
        grid: [[0, 0, 0, 0], [0, 0, 2, 0], [4, 0, 0, 0], [4, 0, 2, 0]],
        next_to_move: Role::Slider,
        score: 0,
        terminal: false,
    };
    let m = Move::Slide(Direction::Up);
    let s = next_state(&s, m).unwrap();
    assert_eq!(s.grid, [[8, 0, 4, 0], [0, 0, 0, 0], [0, 0, 0, 0], [0, 0, 0, 0]]);
}

#[test]
fn state_slide_down() {
    let s = State {
        grid: [[2, 2, 2, 2], [0, 4, 0, 4], [2, 0, 4, 2], [4, 4, 2, 2]],
        next_to_move: Role::Slider,
        score: 0,
        terminal: false,
    };
    let m = Move::Slide(Direction::Down);
    let s = next_state(&s, m).unwrap();
    assert_eq!(s.grid, [[0, 0, 0, 0], [0, 0, 2, 2], [4, 2, 4, 4], [4, 8, 2, 4]]);
}

#[test]
fn dead1() {
    let grid = [[2, 4, 8, 4], [256, 8, 4, 2], [4, 128, 2, 4], [2, 8, 64, 8]];
    assert!(dead_grid(&grid));
}

#[test]
fn dead2() {
    let grid = [[4, 16, 8, 4], [2, 4, 64, 16], [16, 32, 16, 8], [4, 2, 4, 2]];
    assert!(dead_grid(&grid));
}

#[test]
fn dead3() {
    let grid = [[4, 16, 8, 4], [2, 4, 64, 16], [16, 32, 0, 8], [4, 2, 4, 2]];
    assert!(!dead_grid(&grid));
}

#[test]
fn dead4() {
    let grid = [[2, 4, 8, 4], [256, 8, 4, 2], [4, 128, 2, 4], [2, 2, 64, 8]];
    assert!(!dead_grid(&grid));
}

#[test]
fn place2() {
    let s = State {
        grid: [[2, 4, 8, 4], [256, 8, 4, 2], [4, 128, 2, 4], [2, 0, 64, 8]],
        next_to_move: Role::Placer,
        score: 0,
        terminal: false,
    };
    let m = Move::Place { x: 3, y: 1, val: 4 };
    let s = next_state(&s, m).unwrap();
    assert_eq!(
        s,
        State {
            grid: [[2, 4, 8, 4], [256, 8, 4, 2], [4, 128, 2, 4], [2, 4, 64, 8]],
            next_to_move: Role::Slider,
            score: 0,
            terminal: true,
        }
    );
}
