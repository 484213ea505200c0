use maze_wars::codec::{decode, encode};
use maze_wars::msg::Message;
use maze_wars::relay::Relay;

fn small_grid() -> Vec<Vec<i32>> {
    vec![vec![1, 1, 1], vec![1, 0, 1], vec![1, 1, 1]]
}

fn join(relay: &mut Relay, name: &[u8], addr: &[u8], now: u64) -> Vec<maze_wars::relay::Datagram> {
    let msg = encode(&Message::ClientJoined(name.to_vec(), addr.to_vec()));
    relay.handle_datagram(msg.as_slice(), &addr.to_vec(), now)
}

#[test]
fn join_handshake_replies_roster_then_maze() {
    // a joiner gets exactly one OpponentList and one Maze, in that
    // order, before any broadcast concerning itself.
    let mut relay = Relay::new(small_grid());

    let out = join(&mut relay, b"ann", b"10.0.0.1:4000", 0);
    assert_eq!(out.len(), 3);
    assert_eq!(out[0].dest, b"10.0.0.1:4000".to_vec());
    assert_eq!(
        decode(out[0].payload.as_slice()),
        Some(Message::OpponentList(vec![]))
    );
    assert_eq!(out[1].dest, b"10.0.0.1:4000".to_vec());
    assert_eq!(decode(out[1].payload.as_slice()), Some(Message::Maze(small_grid())));
    // the announcement reaches every peer — only ann so far, and only
    // after her two private replies
    assert_eq!(out[2].dest, b"10.0.0.1:4000".to_vec());
    assert_eq!(
        decode(out[2].payload.as_slice()),
        Some(Message::ClientJoined(b"ann".to_vec(), b"10.0.0.1:4000".to_vec()))
    );

    let out = join(&mut relay, b"bob", b"10.0.0.2:5000", 1);
    assert_eq!(out.len(), 4);
    assert_eq!(out[0].dest, b"10.0.0.2:5000".to_vec());
    assert_eq!(
        decode(out[0].payload.as_slice()),
        Some(Message::OpponentList(vec![b"ann".to_vec()]))
    );
    assert_eq!(out[1].dest, b"10.0.0.2:5000".to_vec());
    assert_eq!(decode(out[1].payload.as_slice()), Some(Message::Maze(small_grid())));
    // the join announcement goes to all peers in registry order, and bob
    // hears of himself only after the roster and the maze
    let joined = Some(Message::ClientJoined(b"bob".to_vec(), b"10.0.0.2:5000".to_vec()));
    assert_eq!(out[2].dest, b"10.0.0.1:4000".to_vec());
    assert_eq!(decode(out[2].payload.as_slice()), joined);
    assert_eq!(out[3].dest, b"10.0.0.2:5000".to_vec());
    assert_eq!(decode(out[3].payload.as_slice()), joined);
}

#[test]
fn player_moved_fans_out_to_everyone_else() {
    // relayed verbatim to every other registered client, never echoed
    // back to the sender.
    let mut relay = Relay::new(small_grid());
    join(&mut relay, b"ann", b"10.0.0.1:4000", 0);
    join(&mut relay, b"bob", b"10.0.0.2:5000", 0);
    join(&mut relay, b"cid", b"10.0.0.3:6000", 0);

    let moved = encode(&Message::PlayerMoved(b"ann".to_vec(), 1, 1, 0, -1));
    let out = relay.handle_datagram(moved.as_slice(), &b"10.0.0.1:4000".to_vec(), 1);
    let dests: Vec<Vec<u8>> = out.iter().map(|d| d.dest.clone()).collect();
    assert_eq!(dests, vec![b"10.0.0.2:5000".to_vec(), b"10.0.0.3:6000".to_vec()]);
    for d in &out {
        assert_eq!(d.payload, moved, "the relayed bytes are the received bytes");
    }
}

#[test]
fn player_shot_broadcasts_to_every_peer() {
    // a shot goes back to the shooter too: each client, the shooter
    // included, scores the duel from the same broadcast
    let mut relay = Relay::new(small_grid());
    join(&mut relay, b"ann", b"10.0.0.1:4000", 0);
    join(&mut relay, b"bob", b"10.0.0.2:5000", 0);

    let shot = encode(&Message::PlayerShot(b"bob".to_vec(), b"ann".to_vec()));
    let out = relay.handle_datagram(shot.as_slice(), &b"10.0.0.2:5000".to_vec(), 1);
    assert_eq!(out.len(), 2);
    assert_eq!(out[0].dest, b"10.0.0.1:4000".to_vec());
    assert_eq!(out[0].payload, shot);
    assert_eq!(out[1].dest, b"10.0.0.2:5000".to_vec());
    assert_eq!(out[1].payload, shot);
}

#[test]
fn ping_touches_and_echoes() {
    let mut relay = Relay::new(small_grid());
    join(&mut relay, b"ann", b"10.0.0.1:4000", 0);

    let ping = encode(&Message::Ping(b"ann".to_vec()));
    let out = relay.handle_datagram(ping.as_slice(), &b"10.0.0.1:4999".to_vec(), 5_000);
    assert_eq!(out.len(), 1);
    // the echo goes to the datagram's source address, verbatim
    assert_eq!(out[0].dest, b"10.0.0.1:4999".to_vec());
    assert_eq!(out[0].payload, ping);
    // the touch kept ann alive past her earlier deadline
    let notices = relay.run_sweep(2_000, 6_000);
    assert!(notices.is_empty());
    assert_eq!(relay.registry.len(), 1);
}

#[test]
fn sweep_broadcasts_departures_to_remaining_peers() {
    let mut relay = Relay::new(small_grid());
    join(&mut relay, b"owner", b"10.0.0.1:4000", 0);
    join(&mut relay, b"bob", b"10.0.0.2:5000", 0);
    join(&mut relay, b"cid", b"10.0.0.3:6000", 10_000);

    let notices = relay.run_sweep(2_000, 10_000);
    // bob timed out; the owner is exempt although just as stale
    assert_eq!(relay.registry.len(), 2);
    let left = encode(&Message::PlayerLeft(b"bob".to_vec()));
    assert_eq!(notices.len(), 2);
    assert_eq!(notices[0].dest, b"10.0.0.1:4000".to_vec());
    assert_eq!(notices[0].payload, left);
    assert_eq!(notices[1].dest, b"10.0.0.3:6000".to_vec());
    assert_eq!(notices[1].payload, left);
}

#[test]
fn malformed_datagrams_are_dropped_and_service_continues() {
    // junk input neither crashes nor changes anything, and the loop
    // keeps serving afterwards.
    let mut relay = Relay::new(small_grid());
    join(&mut relay, b"ann", b"10.0.0.1:4000", 0);

    for junk in [&[][..], &[0xABu8][..], &[2u8, 9, b'x'][..]] {
        let out = relay.handle_datagram(junk, &b"10.9.9.9:1".to_vec(), 1);
        assert!(out.is_empty());
        assert_eq!(relay.registry.len(), 1);
    }
    // a truncated but otherwise valid join is junk too
    let full = encode(&Message::ClientJoined(b"bob".to_vec(), b"10.0.0.2:5000".to_vec()));
    let out = relay.handle_datagram(&full[..full.len() - 1], &b"10.0.0.2:5000".to_vec(), 1);
    assert!(out.is_empty());
    assert_eq!(relay.registry.len(), 1);
    // and the server still answers a proper join afterwards
    let out = join(&mut relay, b"bob", b"10.0.0.2:5000", 2);
    assert_eq!(out.len(), 4);
    assert_eq!(relay.registry.len(), 2);
}

#[test]
fn unexpected_variants_are_ignored_by_the_server() {
    let mut relay = Relay::new(small_grid());
    join(&mut relay, b"ann", b"10.0.0.1:4000", 0);
    for msg in [
        Message::OpponentList(vec![b"x".to_vec()]),
        Message::Maze(small_grid()),
        Message::PlayerLeft(b"ann".to_vec()),
        Message::ConnectionLost,
        Message::Pong,
    ] {
        let bytes = encode(&msg);
        let out = relay.handle_datagram(bytes.as_slice(), &b"10.0.0.1:4000".to_vec(), 1);
        assert!(out.is_empty());
        assert_eq!(relay.registry.len(), 1);
    }
}
