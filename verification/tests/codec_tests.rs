use maze_wars::codec::{decode, encode};
use maze_wars::msg::Message;

fn roundtrip(m: Message) {
    let bytes = encode(&m);
    let back = decode(bytes.as_slice()).expect("a canonical encoding must decode");
    assert_eq!(back, m);
    // and re-encoding the decoded message reproduces the bytes exactly
    assert_eq!(encode(&back), bytes);
}

#[test]
fn roundtrip_opponent_list() {
    roundtrip(Message::OpponentList(vec![]));
    roundtrip(Message::OpponentList(vec![b"ann".to_vec(), b"bob".to_vec(), vec![]]));
}

#[test]
fn roundtrip_player_shot() {
    roundtrip(Message::PlayerShot(b"ann".to_vec(), b"bob".to_vec()));
}

#[test]
fn roundtrip_client_joined() {
    roundtrip(Message::ClientJoined(b"ann".to_vec(), b"192.168.1.7:51123".to_vec()));
}

#[test]
fn roundtrip_player_left() {
    roundtrip(Message::PlayerLeft(b"ann".to_vec()));
}

#[test]
fn roundtrip_player_moved() {
    roundtrip(Message::PlayerMoved(b"ann".to_vec(), 7, 12, 0, -1));
    roundtrip(Message::PlayerMoved(b"b".to_vec(), u32::MAX, 0, -1, 0));
}

#[test]
fn roundtrip_maze() {
    roundtrip(Message::Maze(vec![]));
    roundtrip(Message::Maze(vec![vec![1, 1, 1], vec![1, 0, 1], vec![1, 1, 1]]));
    // ragged rows survive too
    roundtrip(Message::Maze(vec![vec![], vec![255, 0]]));
}

#[test]
fn roundtrip_connection_lost_ping_pong() {
    roundtrip(Message::ConnectionLost);
    roundtrip(Message::Ping(b"ann".to_vec()));
    roundtrip(Message::Pong);
}

#[test]
fn exact_bytes_of_simple_messages() {
    assert_eq!(encode(&Message::Pong), vec![8u8]);
    assert_eq!(encode(&Message::ConnectionLost), vec![6u8]);
    assert_eq!(encode(&Message::Ping(b"bob".to_vec())), vec![7u8, 3, b'b', b'o', b'b']);
    assert_eq!(
        encode(&Message::PlayerLeft(b"ann".to_vec())),
        vec![3u8, 3, b'a', b'n', b'n']
    );
}

#[test]
fn exact_bytes_of_player_moved() {
    // tag, name, then x, y, dx, dy as little-endian 32-bit words
    let bytes = encode(&Message::PlayerMoved(b"a".to_vec(), 258, 1, 1, -1));
    assert_eq!(
        bytes,
        vec![4u8, 1, b'a', 2, 1, 0, 0, 1, 0, 0, 0, 1, 0, 0, 0, 255, 255, 255, 255]
    );
}

#[test]
fn exact_bytes_of_maze() {
    // tag, row count (u16), then per row: column count (u16) and one byte per cell
    let bytes = encode(&Message::Maze(vec![vec![1, 0], vec![7]]));
    assert_eq!(bytes, vec![5u8, 2, 0, 2, 0, 1, 0, 1, 0, 7]);
}

#[test]
fn empty_buffer_fails_to_decode() {
    assert_eq!(decode(&[]), None);
}

#[test]
fn single_random_byte_fails_to_decode() {
    // an unknown tag is dropped, whatever it is
    assert_eq!(decode(&[0xAB]), None);
    // known tags that need a payload fail without one
    assert_eq!(decode(&[2]), None);
    assert_eq!(decode(&[7]), None);
}

#[test]
fn truncated_message_fails_to_decode() {
    let full = encode(&Message::ClientJoined(b"ann".to_vec(), b"10.0.0.1:4000".to_vec()));
    for cut in 0..full.len() {
        assert_eq!(decode(&full[..cut]), None, "a prefix of length {cut} must not decode");
    }
}

#[test]
fn trailing_garbage_fails_to_decode() {
    let mut bytes = encode(&Message::Ping(b"ann".to_vec()));
    bytes.push(0);
    assert_eq!(decode(bytes.as_slice()), None);
    assert_eq!(decode(&[8, 8]), None);
}

#[test]
fn name_length_prefix_is_checked() {
    // claims five name bytes but carries three
    assert_eq!(decode(&[7, 5, b'a', b'n', b'n']), None);
}
