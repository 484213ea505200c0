use maze_wars::maze::Maze;
use maze_wars::msg::Direction;
use maze_wars::player::PlayerState;

#[test]
fn direction_vectors_round_trip() {
    for d in [Direction::Up, Direction::Down, Direction::Left, Direction::Right] {
        assert_eq!(Direction::from_vec(&d.vec()), d);
    }
    assert_eq!(Direction::from_vec(&(0, -1)), Direction::Up);
    assert_eq!(Direction::from_vec(&(0, 1)), Direction::Down);
    assert_eq!(Direction::from_vec(&(-1, 0)), Direction::Left);
    assert_eq!(Direction::from_vec(&(1, 0)), Direction::Right);
    // anything that is no unit vector of the other three falls back to Right
    assert_eq!(Direction::from_vec(&(3, 7)), Direction::Right);
}

#[test]
fn rotations_and_opposites() {
    assert_eq!(Direction::Up.rotated_right(), Direction::Right);
    assert_eq!(Direction::Right.rotated_right(), Direction::Down);
    assert_eq!(Direction::Up.rotated_left(), Direction::Left);
    assert_eq!(Direction::Left.rotated_left(), Direction::Down);
    for d in [Direction::Up, Direction::Down, Direction::Left, Direction::Right] {
        assert_eq!(d.opposite().opposite(), d);
        assert_eq!(d.rotated_left().rotated_right(), d);
    }
}

#[test]
fn empty_map_has_border_walls_and_open_interior() {
    let m = Maze::empty_map();
    assert_eq!(m.grid.len(), 17);
    for (i, row) in m.grid.iter().enumerate() {
        assert_eq!(row.len(), 33);
        for (j, &cell) in row.iter().enumerate() {
            if i == 0 || i == 16 || j == 0 || j == 32 {
                assert_eq!(cell, 1, "border at ({i},{j})");
            } else {
                assert_eq!(cell, 0, "interior at ({i},{j})");
            }
        }
    }
}

#[test]
fn from_lines_parses_digit_rows() {
    let lines = vec![b"111".to_vec(), b"101".to_vec(), b"191".to_vec()];
    let m = Maze::from_lines(&lines).expect("digit lines parse");
    assert_eq!(m.grid, vec![vec![1, 1, 1], vec![1, 0, 1], vec![1, 9, 1]]);
}

#[test]
fn from_lines_rejects_non_digits() {
    assert!(Maze::from_lines(&vec![b"11".to_vec(), b"1x".to_vec()]).is_none());
    assert!(Maze::from_lines(&vec![b" 1".to_vec()]).is_none());
}

#[test]
fn random_location_is_free_and_interior() {
    let m = Maze::empty_map();
    for _ in 0..20 {
        let (x, y) = m.get_random_location().expect("the empty map has room");
        assert!((1..=32).contains(&(x as usize)));
        assert!((1..=15).contains(&(y as usize)));
        assert_eq!(m.grid[y as usize][x as usize], 0);
    }
}

#[test]
fn step_moves_into_open_tiles_and_stops_at_walls() {
    let m = Maze::empty_map();
    let mut p = PlayerState::new(b"ann".to_vec(), (1, 1));
    // a wall stands above and to the left of the corner tile
    assert!(!p.step(&m.grid, Direction::Up));
    assert!(!p.step(&m.grid, Direction::Left));
    assert_eq!((p.pos_x, p.pos_y), (1, 1));
    // the interior is open
    assert!(p.step(&m.grid, Direction::Right));
    assert_eq!((p.pos_x, p.pos_y), (2, 1));
    assert!(p.step(&m.grid, Direction::Down));
    assert_eq!((p.pos_x, p.pos_y), (2, 2));
    assert!(p.step(&m.grid, Direction::Up));
    assert_eq!((p.pos_x, p.pos_y), (2, 1));
}

#[test]
fn first_turn_is_admitted_and_rotates() {
    // a fresh throttle always admits its first operation
    let mut p = PlayerState::new(b"ann".to_vec(), (1, 1));
    p.dir = Direction::Up;
    assert!(p.turn_right());
    assert_eq!(p.dir, Direction::Right);

    let mut q = PlayerState::new(b"bob".to_vec(), (1, 1));
    q.dir = Direction::Up;
    assert!(q.turn_left());
    assert_eq!(q.dir, Direction::Left);
}

#[test]
fn movement_keys_go_through_the_throttle() {
    let m = Maze::empty_map();
    let mut p = PlayerState::new(b"ann".to_vec(), (1, 1));
    p.dir = Direction::Right;
    // the first step is admitted; it moves exactly one tile forwards
    assert!(p.go_forward(&m.grid));
    assert_eq!((p.pos_x, p.pos_y), (2, 1));
    // an immediate second step is rate-limited: nothing changes
    let moved = p.go_forward(&m.grid);
    if !moved {
        assert_eq!((p.pos_x, p.pos_y), (2, 1));
    }
    // a fresh participant's first backward step is admitted
    let mut q = PlayerState::new(b"bob".to_vec(), (2, 1));
    q.dir = Direction::Right;
    assert!(q.go_backward(&m.grid));
    assert_eq!((q.pos_x, q.pos_y), (1, 1));
    assert_eq!(q.dir, Direction::Right, "walking backwards keeps the facing");
}

#[test]
fn scores_move_by_the_fixed_amounts() {
    let mut p = PlayerState::new(b"ann".to_vec(), (1, 1));
    p.shot_opponent();
    assert_eq!(p.score, 10);
    p.got_shot();
    assert_eq!(p.score, 5);
    p.got_shot();
    p.got_shot();
    assert_eq!(p.score, -5);
}

#[test]
fn opponent_sprite_direction() {
    let mut p = PlayerState::new(b"ann".to_vec(), (1, 1));
    p.dir = Direction::Up;
    // same facing: seen from behind
    assert_eq!(p.get_opponent_direction(&Direction::Up), Direction::Up);
    // opposite facing: looking at the player
    assert_eq!(p.get_opponent_direction(&Direction::Down), Direction::Down);
    // crosswise: profiles
    assert_eq!(p.get_opponent_direction(&Direction::Left), Direction::Left);
    assert_eq!(p.get_opponent_direction(&Direction::Right), Direction::Right);
}
