use snake::grid::{ConversionError, Direction, Key, Point};
use snake::{RECT_SIZE, SCREEN_SIZE};

fn stepped(p: Point, d: Direction) -> Point {
    let mut q = p;
    q.update(d);
    q
}

#[test]
fn step_moves_one_cell() {
    let p = Point { x: 400, y: 400 };
    assert_eq!(stepped(p, Direction::Up), Point { x: 400, y: 360 });
    assert_eq!(stepped(p, Direction::Down), Point { x: 400, y: 440 });
    assert_eq!(stepped(p, Direction::Left), Point { x: 360, y: 400 });
    assert_eq!(stepped(p, Direction::Right), Point { x: 440, y: 400 });
}

#[test]
fn step_wraps_at_every_edge() {
    let origin = Point { x: 0, y: 0 };
    assert_eq!(stepped(origin, Direction::Up), Point { x: 0, y: 760 });
    assert_eq!(stepped(origin, Direction::Left), Point { x: 760, y: 0 });
    let far = Point { x: 760, y: 760 };
    assert_eq!(stepped(far, Direction::Down), Point { x: 760, y: 0 });
    assert_eq!(stepped(far, Direction::Right), Point { x: 0, y: 760 });
}

#[test]
fn step_stays_on_playfield() {
    let mut p = Point { x: 0, y: 0 };
    let walk = [
        Direction::Up,
        Direction::Up,
        Direction::Left,
        Direction::Down,
        Direction::Right,
        Direction::Right,
    ];
    for d in walk {
        p.update(d);
        assert!(p.x < SCREEN_SIZE && p.y < SCREEN_SIZE);
        assert!(p.x % RECT_SIZE == 0 && p.y % RECT_SIZE == 0);
    }
}

#[test]
fn center_start() {
    assert_eq!(Point::new(), Point { x: 400, y: 400 });
}

#[test]
fn arrow_keys_map_to_directions() {
    assert_eq!(Direction::try_from(Key::Up), Ok(Direction::Up));
    assert_eq!(Direction::try_from(Key::Down), Ok(Direction::Down));
    assert_eq!(Direction::try_from(Key::Left), Ok(Direction::Left));
    assert_eq!(Direction::try_from(Key::Right), Ok(Direction::Right));
}

#[test]
fn other_keys_are_rejected() {
    for key in [Key::R, Key::S, Key::M, Key::Q, Key::Escape, Key::Other] {
        assert_eq!(Direction::try_from(key), Err(ConversionError::InvalidKey));
    }
}
