use maze_wars::codec::decode;
use maze_wars::maze::Maze;
use maze_wars::msg::{Direction, Message};
use maze_wars::player::PlayerState;
use maze_wars::session::{
    join_datagram, ping_datagram, prepare_player_data_to_send, prepare_shoot_data_to_send,
    ApplyEffect, Handshake, Roster,
};

fn roster_for(name: &[u8]) -> Roster {
    Roster::new(PlayerState::new(name.to_vec(), (1, 1)))
}

#[test]
fn client_joined_adds_an_opponent_but_not_self() {
    let mut r = roster_for(b"ann");
    let effect = r.apply(Message::ClientJoined(b"bob".to_vec(), b"10.0.0.2:5000".to_vec()));
    assert!(matches!(effect, ApplyEffect::Quiet));
    assert_eq!(r.opponents.len(), 1);
    assert_eq!(r.opponents[0].name, b"bob".to_vec());
    assert_eq!(r.opponents[0].score, 0);
    // the echo of the player's own join is not an opponent
    let effect = r.apply(Message::ClientJoined(b"ann".to_vec(), b"10.0.0.1:4000".to_vec()));
    assert!(matches!(effect, ApplyEffect::Quiet));
    assert_eq!(r.opponents.len(), 1);
}

#[test]
fn opponent_list_adds_everyone_else() {
    let mut r = roster_for(b"ann");
    let effect = r.apply(Message::OpponentList(vec![
        b"bob".to_vec(),
        b"ann".to_vec(),
        b"cid".to_vec(),
    ]));
    assert!(matches!(effect, ApplyEffect::Quiet));
    assert_eq!(r.opponents.len(), 2);
    assert_eq!(r.opponents[0].name, b"bob".to_vec());
    assert_eq!(r.opponents[1].name, b"cid".to_vec());
}

#[test]
fn player_moved_overwrites_the_replica_wholesale() {
    let mut r = roster_for(b"ann");
    r.apply(Message::OpponentList(vec![b"bob".to_vec()]));
    let effect = r.apply(Message::PlayerMoved(b"bob".to_vec(), 7, 3, 0, 1));
    assert!(matches!(effect, ApplyEffect::Quiet));
    assert_eq!(r.opponents[0].pos_x, 7);
    assert_eq!(r.opponents[0].pos_y, 3);
    assert_eq!(r.opponents[0].dir, Direction::Down);
    // a later (stale) update still wins: last write wins, no sequencing
    r.apply(Message::PlayerMoved(b"bob".to_vec(), 2, 2, -1, 0));
    assert_eq!(r.opponents[0].pos_x, 2);
    assert_eq!(r.opponents[0].dir, Direction::Left);
    // an update for an unknown name changes nobody
    r.apply(Message::PlayerMoved(b"ghost".to_vec(), 9, 9, 1, 0));
    assert_eq!(r.opponents[0].pos_x, 2);
}

#[test]
fn player_shot_scores_and_signals_the_victim() {
    let mut r = roster_for(b"ann");
    r.apply(Message::OpponentList(vec![b"bob".to_vec(), b"cid".to_vec()]));

    // someone else's duel: scores move, nothing to do locally
    let effect = r.apply(Message::PlayerShot(b"bob".to_vec(), b"cid".to_vec()));
    assert!(matches!(effect, ApplyEffect::Quiet));
    assert_eq!(r.opponents[0].score, 10);
    assert_eq!(r.opponents[1].score, -5);
    assert_eq!(r.player.score, 0);

    // the local player fires
    let effect = r.apply(Message::PlayerShot(b"ann".to_vec(), b"bob".to_vec()));
    assert!(matches!(effect, ApplyEffect::Quiet));
    assert_eq!(r.player.score, 10);
    assert_eq!(r.opponents[0].score, 5);

    // the local player is hit: respawn and announce
    let effect = r.apply(Message::PlayerShot(b"cid".to_vec(), b"ann".to_vec()));
    assert!(matches!(effect, ApplyEffect::RespawnAndAnnounce));
    assert_eq!(r.player.score, 5);
    assert_eq!(r.opponents[1].score, 5);
}

#[test]
fn player_left_removes_the_replica() {
    let mut r = roster_for(b"ann");
    r.apply(Message::OpponentList(vec![b"bob".to_vec(), b"cid".to_vec()]));
    let effect = r.apply(Message::PlayerLeft(b"bob".to_vec()));
    assert!(matches!(effect, ApplyEffect::Quiet));
    assert_eq!(r.opponents.len(), 1);
    assert_eq!(r.opponents[0].name, b"cid".to_vec());
}

#[test]
fn maze_and_connection_lost_effects() {
    let mut r = roster_for(b"ann");
    let grid = vec![vec![1, 1], vec![1, 1]];
    match r.apply(Message::Maze(grid.clone())) {
        ApplyEffect::InstallMaze(g) => assert_eq!(g, grid),
        _ => panic!("a maze message must ask for the maze to be installed"),
    }
    let effect = r.apply(Message::ConnectionLost);
    assert!(matches!(effect, ApplyEffect::SessionOver));
}

#[test]
fn respawn_lands_on_a_free_interior_tile() {
    let maze = Maze::empty_map();
    let mut r = roster_for(b"ann");
    let moved = r.respawn(&maze);
    assert!(moved, "the empty map has free tiles everywhere inside");
    let (x, y) = (r.player.pos_x as usize, r.player.pos_y as usize);
    assert!((1..=32).contains(&x) && (1..=15).contains(&y));
    assert_eq!(maze.grid[y][x], 0);
}

#[test]
fn handshake_needs_roster_and_maze() {
    // client side of the handshake: ready only once both responses came
    let mut h = Handshake::new();
    assert!(!h.is_ready());
    h.observe(&Message::ClientJoined(b"x".to_vec(), b"a".to_vec()));
    h.observe(&Message::Pong);
    assert!(!h.is_ready());
    h.observe(&Message::OpponentList(vec![]));
    assert!(!h.is_ready());
    h.observe(&Message::Maze(vec![]));
    assert!(h.is_ready());
}

#[test]
fn outgoing_datagrams_decode_to_what_they_announce() {
    let d = join_datagram(&b"ann".to_vec(), &b"10.0.0.1:4000".to_vec());
    assert_eq!(
        decode(d.as_slice()),
        Some(Message::ClientJoined(b"ann".to_vec(), b"10.0.0.1:4000".to_vec()))
    );

    let d = ping_datagram(&b"ann".to_vec());
    assert_eq!(decode(d.as_slice()), Some(Message::Ping(b"ann".to_vec())));

    let mut p = PlayerState::new(b"ann".to_vec(), (4, 9));
    p.dir = Direction::Up;
    let d = prepare_player_data_to_send(&b"ann".to_vec(), &p);
    assert_eq!(
        decode(d.as_slice()),
        Some(Message::PlayerMoved(b"ann".to_vec(), 4, 9, 0, -1))
    );

    let d = prepare_shoot_data_to_send(b"ann".to_vec(), b"bob".to_vec());
    assert_eq!(
        decode(d.as_slice()),
        Some(Message::PlayerShot(b"ann".to_vec(), b"bob".to_vec()))
    );
}

#[test]
fn shooting_hits_the_first_opponent_in_the_line_of_sight() {
    let maze = Maze::empty_map();
    let mut r = roster_for(b"ann");
    r.player.pos_x = 1;
    r.player.pos_y = 1;
    r.player.dir = Direction::Right;
    r.apply(Message::OpponentList(vec![b"bob".to_vec(), b"cid".to_vec()]));
    r.apply(Message::PlayerMoved(b"bob".to_vec(), 9, 1, 0, 1));
    r.apply(Message::PlayerMoved(b"cid".to_vec(), 5, 1, 0, 1));

    // cid stands closer along the ray than bob
    assert_eq!(r.closest_opponent(&maze), Some(1));
    let (shooter, target) = r.shoot(&maze).expect("someone is in the line of sight");
    assert_eq!(shooter, b"ann".to_vec());
    assert_eq!(target, b"cid".to_vec());

    // nobody stands above: the ray hits the border wall
    r.player.dir = Direction::Up;
    assert_eq!(r.closest_opponent(&maze), None);
    assert!(r.shoot(&maze).is_none());
}

#[test]
fn walls_block_the_shot() {
    // a wall column separates the player from the opponent
    let lines = vec![
        b"11111".to_vec(),
        b"10101".to_vec(),
        b"11111".to_vec(),
    ];
    let maze = Maze::from_lines(&lines).expect("digit lines parse");
    let mut r = roster_for(b"ann");
    r.player.pos_x = 1;
    r.player.pos_y = 1;
    r.player.dir = Direction::Right;
    r.apply(Message::OpponentList(vec![b"bob".to_vec()]));
    r.apply(Message::PlayerMoved(b"bob".to_vec(), 3, 1, 0, 1));
    assert_eq!(r.closest_opponent(&maze), None);
}
