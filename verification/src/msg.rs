//! The wire protocol: the closed set of application messages exchanged as
//! UDP datagrams, and the cardinal directions a player can face.
//!
//! Names and addresses travel as raw bytes; positions are tile coordinates
//! of the maze grid; a direction travels as the unit vector that the
//! `Direction` enum maps to.

use vstd::prelude::*;

verus! {

/// The four directions a player can face, and the four unit vectors a
/// `PlayerMoved` datagram can carry.
#[derive(Clone, Copy, Debug, PartialEq, Eq, Structural, Hash)]
pub enum Direction {
    Up,
    Down,
    Left,
    Right,
}

impl Direction {
    /// The unit vector of this direction, in grid coordinates
    /// (x grows to the right, y grows downwards).
    pub fn vec(&self) -> (r: (i32, i32))
        ensures
            r == self.spec_vec(),
    {
        match self {
            Direction::Up => (0, -1),
            Direction::Down => (0, 1),
            Direction::Left => (-1, 0),
            Direction::Right => (1, 0),
        }
    }

    pub open spec fn spec_vec(self) -> (i32, i32) {
        match self {
            Direction::Up => (0int as i32, -1int as i32),
            Direction::Down => (0int as i32, 1int as i32),
            Direction::Left => (-1int as i32, 0int as i32),
            Direction::Right => (1int as i32, 0int as i32),
        }
    }

    /// The direction whose unit vector matches `dir`; any vector that is not
    /// a unit vector of `Up`, `Down` or `Left` falls back to `Right`.
    pub fn from_vec(dir: &(i32, i32)) -> (r: Direction)
        ensures
            r == Direction::spec_from_vec(*dir),
    {
        if dir.0 == 0 && dir.1 == -1 {
            Direction::Up
        } else if dir.0 == 0 && dir.1 == 1 {
            Direction::Down
        } else if dir.0 == -1 && dir.1 == 0 {
            Direction::Left
        } else {
            Direction::Right
        }
    }

    pub open spec fn spec_from_vec(dir: (i32, i32)) -> Direction {
        if dir.0 == 0 && dir.1 == -1 {
            Direction::Up
        } else if dir.0 == 0 && dir.1 == 1 {
            Direction::Down
        } else if dir.0 == -1 && dir.1 == 0 {
            Direction::Left
        } else {
            Direction::Right
        }
    }

    /// The direction faced after a quarter turn clockwise.
    pub fn rotated_right(&self) -> (r: Direction)
        ensures
            r == self.spec_rotated_right(),
    {
        match self {
            Direction::Right => Direction::Down,
            Direction::Down => Direction::Left,
            Direction::Left => Direction::Up,
            Direction::Up => Direction::Right,
        }
    }

    pub open spec fn spec_rotated_right(self) -> Direction {
        match self {
            Direction::Right => Direction::Down,
            Direction::Down => Direction::Left,
            Direction::Left => Direction::Up,
            Direction::Up => Direction::Right,
        }
    }

    /// The direction faced after a quarter turn counter-clockwise.
    pub fn rotated_left(&self) -> (r: Direction)
        ensures
            r == self.spec_rotated_left(),
    {
        match self {
            Direction::Right => Direction::Up,
            Direction::Up => Direction::Left,
            Direction::Left => Direction::Down,
            Direction::Down => Direction::Right,
        }
    }

    pub open spec fn spec_rotated_left(self) -> Direction {
        match self {
            Direction::Right => Direction::Up,
            Direction::Up => Direction::Left,
            Direction::Left => Direction::Down,
            Direction::Down => Direction::Right,
        }
    }

    /// The opposite direction (the one walked when stepping backwards).
    pub fn opposite(&self) -> (r: Direction)
        ensures
            r == self.spec_opposite(),
    {
        match self {
            Direction::Right => Direction::Left,
            Direction::Down => Direction::Up,
            Direction::Left => Direction::Right,
            Direction::Up => Direction::Down,
        }
    }

    pub open spec fn spec_opposite(self) -> Direction {
        match self {
            Direction::Right => Direction::Left,
            Direction::Down => Direction::Up,
            Direction::Left => Direction::Right,
            Direction::Up => Direction::Down,
        }
    }
}

/// Everything the proofs say about a direction round trip: turning the
/// direction into its unit vector and reading the vector back yields the
/// same direction.
pub proof fn lemma_direction_vec_round_trip(d: Direction)
    ensures
        Direction::spec_from_vec(d.spec_vec()) == d,
{
}

/// One application message; one message per datagram.
///
/// `ClientJoined`, `PlayerMoved`, `PlayerShot` and `Ping` travel from a
/// client to the server and (the first three) are relayed onwards;
/// `OpponentList`, `Maze` and `PlayerLeft` travel from the server to clients;
/// `Pong` answers a `Ping`; `ConnectionLost` is a client-local signal that
/// never legitimately crosses the wire, though it still has an encoding so
/// that the codec is total over the enum. Because of that, its one-byte
/// encoding does decode like any other: a receive loop must drop a
/// `ConnectionLost` that arrives from the wire, or a single spoofed byte
/// could end its session.
#[derive(Clone, Debug, PartialEq, Eq)]
pub enum Message {
    /// The names of the peers already in the session, sent to a joiner.
    OpponentList(Vec<Vec<u8>>),
    /// Shooter's name, target's name.
    PlayerShot(Vec<u8>, Vec<u8>),
    /// Joiner's name and the address the joiner receives on.
    ClientJoined(Vec<u8>, Vec<u8>),
    /// Name of a peer evicted from the session.
    PlayerLeft(Vec<u8>),
    /// Name, position in maze tiles (x, y), facing as a unit vector (dx, dy).
    PlayerMoved(Vec<u8>, u32, u32, i32, i32),
    /// The authoritative maze grid, row by row.
    Maze(Vec<Vec<i32>>),
    /// Client-local: the receive loop died and the session is over.
    ConnectionLost,
    /// Liveness probe carrying the sender's name.
    Ping(Vec<u8>),
    /// Liveness reply.
    Pong,
}

/// The mathematical shadow of `Message`: the same variants over `Seq`.
pub enum MessageV {
    OpponentList(Seq<Seq<u8>>),
    PlayerShot(Seq<u8>, Seq<u8>),
    ClientJoined(Seq<u8>, Seq<u8>),
    PlayerLeft(Seq<u8>),
    PlayerMoved(Seq<u8>, u32, u32, i32, i32),
    Maze(Seq<Seq<i32>>),
    ConnectionLost,
    Ping(Seq<u8>),
    Pong,
}

impl View for Message {
    type V = MessageV;

    open spec fn view(&self) -> MessageV {
        match self {
            Message::OpponentList(names) => MessageV::OpponentList(names.deep_view()),
            Message::PlayerShot(shooter, target) => MessageV::PlayerShot(shooter@, target@),
            Message::ClientJoined(name, address) => MessageV::ClientJoined(name@, address@),
            Message::PlayerLeft(name) => MessageV::PlayerLeft(name@),
            Message::PlayerMoved(name, px, py, dx, dy) => MessageV::PlayerMoved(name@, *px, *py, *dx, *dy),
            Message::Maze(grid) => MessageV::Maze(grid.deep_view()),
            Message::ConnectionLost => MessageV::ConnectionLost,
            Message::Ping(name) => MessageV::Ping(name@),
            Message::Pong => MessageV::Pong,
        }
    }
}

} // verus!
