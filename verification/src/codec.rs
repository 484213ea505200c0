//! The serialization contract of the wire protocol.
//!
//! Each message is one datagram in a canonical, self-describing binary
//! form: a tag byte followed by the payload. Byte strings (names,
//! addresses) carry a one-byte length prefix; lists carry a two-byte
//! little-endian count; positions and direction vectors are four-byte
//! little-endian words; maze cells are single bytes.
//!
//! The format is canonical: a byte string decodes to at most one message,
//! and re-encoding a decoded message yields the input bytes unchanged.
//! Malformed or truncated input decodes to `None` and is never an error
//! that can stop a receive loop.

use vstd::prelude::*;
use vstd::bytes::*;
use vstd::slice::*;
use crate::msg::{Message, MessageV};

verus! {

pub const TAG_OPPONENT_LIST: u8 = 0;

pub const TAG_PLAYER_SHOT: u8 = 1;

pub const TAG_CLIENT_JOINED: u8 = 2;

pub const TAG_PLAYER_LEFT: u8 = 3;

pub const TAG_PLAYER_MOVED: u8 = 4;

pub const TAG_MAZE: u8 = 5;

pub const TAG_CONNECTION_LOST: u8 = 6;

pub const TAG_PING: u8 = 7;

pub const TAG_PONG: u8 = 8;

/// A byte string short enough for its one-byte length prefix.
pub open spec fn bytes_wf(s: Seq<u8>) -> bool {
    s.len() <= 255
}

/// A maze cell small enough for its one-byte encoding.
pub open spec fn cell_wf(c: i32) -> bool {
    0 <= c <= 255
}

/// A maze row short enough for its two-byte count, with encodable cells.
pub open spec fn row_wf(r: Seq<i32>) -> bool {
    r.len() <= 0xFFFF && forall|i: int| 0 <= i < r.len() ==> cell_wf(#[trigger] r[i])
}

/// The message fits the fixed-width length fields of the wire format.
pub open spec fn msg_wf(m: MessageV) -> bool {
    match m {
        MessageV::OpponentList(names) => names.len() <= 0xFFFF && forall|i: int|
            0 <= i < names.len() ==> bytes_wf(#[trigger] names[i]),
        MessageV::PlayerShot(shooter, target) => bytes_wf(shooter) && bytes_wf(target),
        MessageV::ClientJoined(name, address) => bytes_wf(name) && bytes_wf(address),
        MessageV::PlayerLeft(name) => bytes_wf(name),
        MessageV::PlayerMoved(name, px, py, dx, dy) => bytes_wf(name),
        MessageV::Maze(grid) => grid.len() <= 0xFFFF && forall|i: int|
            0 <= i < grid.len() ==> row_wf(#[trigger] grid[i]),
        MessageV::ConnectionLost => true,
        MessageV::Ping(name) => bytes_wf(name),
        MessageV::Pong => true,
    }
}

/// A length-prefixed byte string.
pub open spec fn enc_bytes(s: Seq<u8>) -> Seq<u8> {
    seq![s.len() as u8] + s
}

pub open spec fn enc_u16(x: u16) -> Seq<u8> {
    spec_u16_to_le_bytes(x)
}

pub open spec fn enc_u32(x: u32) -> Seq<u8> {
    spec_u32_to_le_bytes(x)
}

pub open spec fn enc_i32(x: i32) -> Seq<u8> {
    spec_u32_to_le_bytes(x as u32)
}

/// The concatenation of the length-prefixed names of a list.
pub open spec fn enc_names(names: Seq<Seq<u8>>) -> Seq<u8>
    decreases names.len(),
{
    if names.len() == 0 {
        Seq::empty()
    } else {
        enc_bytes(names.first()) + enc_names(names.drop_first())
    }
}

/// A row's cells, one byte each.
pub open spec fn enc_cells(row: Seq<i32>) -> Seq<u8>
    decreases row.len(),
{
    if row.len() == 0 {
        Seq::empty()
    } else {
        seq![row.first() as u8] + enc_cells(row.drop_first())
    }
}

/// The rows of a grid, each a two-byte count followed by its cells.
pub open spec fn enc_rows(grid: Seq<Seq<i32>>) -> Seq<u8>
    decreases grid.len(),
{
    if grid.len() == 0 {
        Seq::empty()
    } else {
        enc_u16(grid.first().len() as u16) + enc_cells(grid.first()) + enc_rows(grid.drop_first())
    }
}

/// The canonical encoding of a message.
pub open spec fn encoded_msg(m: MessageV) -> Seq<u8> {
    match m {
        MessageV::OpponentList(names) => seq![TAG_OPPONENT_LIST] + enc_u16(names.len() as u16)
            + enc_names(names),
        MessageV::PlayerShot(shooter, target) => seq![TAG_PLAYER_SHOT] + enc_bytes(shooter)
            + enc_bytes(target),
        MessageV::ClientJoined(name, address) => seq![TAG_CLIENT_JOINED] + enc_bytes(name)
            + enc_bytes(address),
        MessageV::PlayerLeft(name) => seq![TAG_PLAYER_LEFT] + enc_bytes(name),
        MessageV::PlayerMoved(name, px, py, dx, dy) => seq![TAG_PLAYER_MOVED] + enc_bytes(name)
            + enc_u32(px) + enc_u32(py) + enc_i32(dx) + enc_i32(dy),
        MessageV::Maze(grid) => seq![TAG_MAZE] + enc_u16(grid.len() as u16) + enc_rows(grid),
        MessageV::ConnectionLost => seq![TAG_CONNECTION_LOST],
        MessageV::Ping(name) => seq![TAG_PING] + enc_bytes(name),
        MessageV::Pong => seq![TAG_PONG],
    }
}

/// Reads a length-prefixed byte string; yields the string and the rest.
pub open spec fn dec_bytes(b: Seq<u8>) -> Option<(Seq<u8>, Seq<u8>)> {
    if b.len() < 1 {
        None
    } else {
        let n = b.first() as int;
        if 1 + n <= b.len() {
            Some((b.subrange(1, 1 + n), b.subrange(1 + n, b.len() as int)))
        } else {
            None
        }
    }
}

pub open spec fn dec_u16(b: Seq<u8>) -> Option<(u16, Seq<u8>)> {
    if b.len() < 2 {
        None
    } else {
        Some((spec_u16_from_le_bytes(b.subrange(0, 2)), b.subrange(2, b.len() as int)))
    }
}

pub open spec fn dec_u32(b: Seq<u8>) -> Option<(u32, Seq<u8>)> {
    if b.len() < 4 {
        None
    } else {
        Some((spec_u32_from_le_bytes(b.subrange(0, 4)), b.subrange(4, b.len() as int)))
    }
}

/// Reads `n` length-prefixed byte strings.
pub open spec fn dec_names(b: Seq<u8>, n: int) -> Option<(Seq<Seq<u8>>, Seq<u8>)>
    decreases n,
{
    if n <= 0 {
        Some((Seq::empty(), b))
    } else {
        match dec_bytes(b) {
            None => None,
            Some((s, rest)) => match dec_names(rest, n - 1) {
                None => None,
                Some((names, rest2)) => Some((seq![s] + names, rest2)),
            },
        }
    }
}

/// Reads `n` one-byte cells.
pub open spec fn dec_cells(b: Seq<u8>, n: int) -> Option<(Seq<i32>, Seq<u8>)>
    decreases n,
{
    if n <= 0 {
        Some((Seq::empty(), b))
    } else if b.len() < 1 {
        None
    } else {
        match dec_cells(b.drop_first(), n - 1) {
            None => None,
            Some((cells, rest)) => Some((seq![b.first() as i32] + cells, rest)),
        }
    }
}

/// Reads `n` rows, each a two-byte count followed by its cells.
pub open spec fn dec_rows(b: Seq<u8>, n: int) -> Option<(Seq<Seq<i32>>, Seq<u8>)>
    decreases n,
{
    if n <= 0 {
        Some((Seq::empty(), b))
    } else {
        match dec_u16(b) {
            None => None,
            Some((cols, rest)) => match dec_cells(rest, cols as int) {
                None => None,
                Some((row, rest2)) => match dec_rows(rest2, n - 1) {
                    None => None,
                    Some((rows, rest3)) => Some((seq![row] + rows, rest3)),
                },
            },
        }
    }
}

/// The message encoded by `b`, if `b` is exactly one canonical encoding.
pub open spec fn spec_decode(b: Seq<u8>) -> Option<MessageV> {
    if b.len() < 1 {
        None
    } else {
        let tag = b.first();
        let body = b.drop_first();
        if tag == TAG_OPPONENT_LIST {
            match dec_u16(body) {
                None => None,
                Some((n, rest)) => match dec_names(rest, n as int) {
                    None => None,
                    Some((names, rest2)) => if rest2.len() == 0 {
                        Some(MessageV::OpponentList(names))
                    } else {
                        None
                    },
                },
            }
        } else if tag == TAG_PLAYER_SHOT {
            match dec_bytes(body) {
                None => None,
                Some((shooter, rest)) => match dec_bytes(rest) {
                    None => None,
                    Some((target, rest2)) => if rest2.len() == 0 {
                        Some(MessageV::PlayerShot(shooter, target))
                    } else {
                        None
                    },
                },
            }
        } else if tag == TAG_CLIENT_JOINED {
            match dec_bytes(body) {
                None => None,
                Some((name, rest)) => match dec_bytes(rest) {
                    None => None,
                    Some((address, rest2)) => if rest2.len() == 0 {
                        Some(MessageV::ClientJoined(name, address))
                    } else {
                        None
                    },
                },
            }
        } else if tag == TAG_PLAYER_LEFT {
            match dec_bytes(body) {
                None => None,
                Some((name, rest)) => if rest.len() == 0 {
                    Some(MessageV::PlayerLeft(name))
                } else {
                    None
                },
            }
        } else if tag == TAG_PLAYER_MOVED {
            match dec_bytes(body) {
                None => None,
                Some((name, rest)) => match dec_u32(rest) {
                    None => None,
                    Some((x, rest2)) => match dec_u32(rest2) {
                        None => None,
                        Some((y, rest3)) => match dec_u32(rest3) {
                            None => None,
                            Some((dx, rest4)) => match dec_u32(rest4) {
                                None => None,
                                Some((dy, rest5)) => if rest5.len() == 0 {
                                    Some(MessageV::PlayerMoved(name, x, y, dx as i32, dy as i32))
                                } else {
                                    None
                                },
                            },
                        },
                    },
                },
            }
        } else if tag == TAG_MAZE {
            match dec_u16(body) {
                None => None,
                Some((n, rest)) => match dec_rows(rest, n as int) {
                    None => None,
                    Some((grid, rest2)) => if rest2.len() == 0 {
                        Some(MessageV::Maze(grid))
                    } else {
                        None
                    },
                },
            }
        } else if tag == TAG_CONNECTION_LOST {
            if body.len() == 0 {
                Some(MessageV::ConnectionLost)
            } else {
                None
            }
        } else if tag == TAG_PING {
            match dec_bytes(body) {
                None => None,
                Some((name, rest)) => if rest.len() == 0 {
                    Some(MessageV::Ping(name))
                } else {
                    None
                },
            }
        } else if tag == TAG_PONG {
            if body.len() == 0 {
                Some(MessageV::Pong)
            } else {
                None
            }
        } else {
            None
        }
    }
}

proof fn lemma_dec_bytes_of_enc(s: Seq<u8>, rest: Seq<u8>)
    requires
        bytes_wf(s),
    ensures
        dec_bytes(enc_bytes(s) + rest) == Some((s, rest)),
{
    let b = enc_bytes(s) + rest;
    assert(b.first() == s.len() as u8);
    assert(b.subrange(1, 1 + s.len() as int) =~= s);
    assert(b.subrange(1 + s.len() as int, b.len() as int) =~= rest);
}

proof fn lemma_enc_of_dec_bytes(b: Seq<u8>)
    ensures
        dec_bytes(b) matches Some(p) ==> bytes_wf(p.0) && b == enc_bytes(p.0) + p.1,
{
    if dec_bytes(b) is Some {
        let p = dec_bytes(b)->Some_0;
        assert(b =~= enc_bytes(p.0) + p.1);
    }
}

proof fn lemma_dec_u16_of_enc(x: u16, rest: Seq<u8>)
    ensures
        dec_u16(enc_u16(x) + rest) == Some((x, rest)),
{
    lemma_auto_spec_u16_to_from_le_bytes();
    let b = enc_u16(x) + rest;
    assert(b.subrange(0, 2) =~= enc_u16(x));
    assert(b.subrange(2, b.len() as int) =~= rest);
}

proof fn lemma_enc_of_dec_u16(b: Seq<u8>)
    ensures
        dec_u16(b) matches Some(p) ==> b == enc_u16(p.0) + p.1,
{
    lemma_auto_spec_u16_to_from_le_bytes();
    if dec_u16(b) is Some {
        let p = dec_u16(b)->Some_0;
        assert(enc_u16(p.0) == b.subrange(0, 2));
        assert(b =~= b.subrange(0, 2) + b.subrange(2, b.len() as int));
    }
}

proof fn lemma_dec_u32_of_enc(x: u32, rest: Seq<u8>)
    ensures
        dec_u32(enc_u32(x) + rest) == Some((x, rest)),
{
    lemma_auto_spec_u32_to_from_le_bytes();
    let b = enc_u32(x) + rest;
    assert(b.subrange(0, 4) =~= enc_u32(x));
    assert(b.subrange(4, b.len() as int) =~= rest);
}

proof fn lemma_enc_of_dec_u32(b: Seq<u8>)
    ensures
        dec_u32(b) matches Some(p) ==> b == enc_u32(p.0) + p.1,
{
    lemma_auto_spec_u32_to_from_le_bytes();
    if dec_u32(b) is Some {
        let p = dec_u32(b)->Some_0;
        assert(enc_u32(p.0) == b.subrange(0, 4));
        assert(b =~= b.subrange(0, 4) + b.subrange(4, b.len() as int));
    }
}

proof fn lemma_dec_names_of_enc(names: Seq<Seq<u8>>, rest: Seq<u8>)
    requires
        forall|i: int| 0 <= i < names.len() ==> bytes_wf(#[trigger] names[i]),
    ensures
        dec_names(enc_names(names) + rest, names.len() as int) == Some((names, rest)),
    decreases names.len(),
{
    if names.len() == 0 {
        assert(enc_names(names) + rest =~= rest);
        assert(dec_names(rest, 0) == Some((Seq::<Seq<u8>>::empty(), rest)));
        assert(names =~= Seq::<Seq<u8>>::empty());
    } else {
        let tail = names.drop_first();
        assert(enc_names(names) + rest =~= enc_bytes(names.first()) + (enc_names(tail) + rest));
        lemma_dec_bytes_of_enc(names.first(), enc_names(tail) + rest);
        lemma_dec_names_of_enc(tail, rest);
        assert(seq![names.first()] + tail =~= names);
    }
}

proof fn lemma_enc_of_dec_names(b: Seq<u8>, n: int)
    requires
        n >= 0,
    ensures
        dec_names(b, n) matches Some(p) ==> {
            &&& p.0.len() == n
            &&& forall|i: int| 0 <= i < p.0.len() ==> bytes_wf(#[trigger] p.0[i])
            &&& b == enc_names(p.0) + p.1
        },
    decreases n,
{
    if n == 0 {
        if dec_names(b, n) is Some {
            let p = dec_names(b, n)->Some_0;
            assert(b =~= enc_names(p.0) + p.1);
        }
    } else {
        lemma_enc_of_dec_bytes(b);
        if dec_bytes(b) is Some {
            let q = dec_bytes(b)->Some_0;
            lemma_enc_of_dec_names(q.1, n - 1);
            if dec_names(q.1, n - 1) is Some {
                let t = dec_names(q.1, n - 1)->Some_0;
                let p = dec_names(b, n)->Some_0;
                assert(p.0 == seq![q.0] + t.0);
                assert((seq![q.0] + t.0).first() == q.0);
                assert((seq![q.0] + t.0).drop_first() =~= t.0);
                assert(enc_names(p.0) == enc_bytes(q.0) + enc_names(t.0));
                assert(b =~= (enc_bytes(q.0) + enc_names(t.0)) + p.1);
            }
        }
    }
}

proof fn lemma_dec_cells_of_enc(row: Seq<i32>, rest: Seq<u8>)
    requires
        forall|i: int| 0 <= i < row.len() ==> cell_wf(#[trigger] row[i]),
    ensures
        dec_cells(enc_cells(row) + rest, row.len() as int) == Some((row, rest)),
    decreases row.len(),
{
    if row.len() == 0 {
        assert(enc_cells(row) + rest =~= rest);
        assert(row =~= Seq::<i32>::empty());
    } else {
        let c = row.first();
        let tail = row.drop_first();
        let b = enc_cells(row) + rest;
        assert(b =~= seq![c as u8] + (enc_cells(tail) + rest));
        assert(b.first() == c as u8);
        assert(b.drop_first() =~= enc_cells(tail) + rest);
        lemma_dec_cells_of_enc(tail, rest);
        assert(b.first() as i32 == c);
        assert(seq![c] + tail =~= row);
    }
}

proof fn lemma_enc_of_dec_cells(b: Seq<u8>, n: int)
    requires
        n >= 0,
    ensures
        dec_cells(b, n) matches Some(p) ==> {
            &&& p.0.len() == n
            &&& forall|i: int| 0 <= i < p.0.len() ==> cell_wf(#[trigger] p.0[i])
            &&& b == enc_cells(p.0) + p.1
        },
    decreases n,
{
    if n == 0 {
        if dec_cells(b, n) is Some {
            let p = dec_cells(b, n)->Some_0;
            assert(b =~= enc_cells(p.0) + p.1);
        }
    } else if b.len() >= 1 {
        lemma_enc_of_dec_cells(b.drop_first(), n - 1);
        if dec_cells(b.drop_first(), n - 1) is Some {
            let t = dec_cells(b.drop_first(), n - 1)->Some_0;
            let p = dec_cells(b, n)->Some_0;
            assert(p.0 == seq![b.first() as i32] + t.0);
            assert((seq![b.first() as i32] + t.0).first() == b.first() as i32);
            assert((seq![b.first() as i32] + t.0).drop_first() =~= t.0);
            assert((b.first() as i32) as u8 == b.first());
            assert(enc_cells(p.0) == seq![b.first()] + enc_cells(t.0));
            assert(b =~= seq![b.first()] + b.drop_first());
            assert(seq![b.first()] + b.drop_first() =~= (seq![b.first()] + enc_cells(t.0)) + t.1);
        }
    }
}

proof fn lemma_dec_rows_of_enc(grid: Seq<Seq<i32>>, rest: Seq<u8>)
    requires
        forall|i: int| 0 <= i < grid.len() ==> row_wf(#[trigger] grid[i]),
    ensures
        dec_rows(enc_rows(grid) + rest, grid.len() as int) == Some((grid, rest)),
    decreases grid.len(),
{
    if grid.len() == 0 {
        assert(enc_rows(grid) + rest =~= rest);
        assert(grid =~= Seq::<Seq<i32>>::empty());
    } else {
        let row = grid.first();
        let tail = grid.drop_first();
        let b = enc_rows(grid) + rest;
        assert(b =~= enc_u16(row.len() as u16) + (enc_cells(row) + (enc_rows(tail) + rest)));
        lemma_dec_u16_of_enc(row.len() as u16, enc_cells(row) + (enc_rows(tail) + rest));
        lemma_dec_cells_of_enc(row, enc_rows(tail) + rest);
        lemma_dec_rows_of_enc(tail, rest);
        assert(seq![row] + tail =~= grid);
    }
}

proof fn lemma_enc_of_dec_rows(b: Seq<u8>, n: int)
    requires
        n >= 0,
    ensures
        dec_rows(b, n) matches Some(p) ==> {
            &&& p.0.len() == n
            &&& forall|i: int| 0 <= i < p.0.len() ==> row_wf(#[trigger] p.0[i])
            &&& b == enc_rows(p.0) + p.1
        },
    decreases n,
{
    if n == 0 {
        if dec_rows(b, n) is Some {
            let p = dec_rows(b, n)->Some_0;
            assert(b =~= enc_rows(p.0) + p.1);
        }
    } else {
        lemma_enc_of_dec_u16(b);
        if dec_u16(b) is Some {
            let q = dec_u16(b)->Some_0;
            lemma_enc_of_dec_cells(q.1, q.0 as int);
            if dec_cells(q.1, q.0 as int) is Some {
                let c = dec_cells(q.1, q.0 as int)->Some_0;
                lemma_enc_of_dec_rows(c.1, n - 1);
                if dec_rows(c.1, n - 1) is Some {
                    let t = dec_rows(c.1, n - 1)->Some_0;
                    let p = dec_rows(b, n)->Some_0;
                    assert(p.0 == seq![c.0] + t.0);
                    assert((seq![c.0] + t.0).first() == c.0);
                    assert((seq![c.0] + t.0).drop_first() =~= t.0);
                    assert(c.0.len() == q.0 as int);
                    assert(enc_rows(p.0) == enc_u16(q.0) + enc_cells(c.0) + enc_rows(t.0));
                    assert(b =~= ((enc_u16(q.0) + enc_cells(c.0)) + enc_rows(t.0)) + p.1);
                }
            }
        }
    }
}

/// Round trip, one way: a well-formed message decodes back from its own
/// encoding, so every message the library sends is read back as itself.
pub proof fn lemma_decode_of_encode(m: MessageV)
    requires
        msg_wf(m),
    ensures
        spec_decode(encoded_msg(m)) == Some(m),
{
    let b = encoded_msg(m);
    match m {
        MessageV::OpponentList(names) => {
            assert(b.first() == TAG_OPPONENT_LIST);
            assert(b.drop_first() =~= enc_u16(names.len() as u16) + (enc_names(names)
                + Seq::<u8>::empty()));
            lemma_dec_u16_of_enc(names.len() as u16, enc_names(names) + Seq::<u8>::empty());
            assert(enc_names(names) + Seq::<u8>::empty() =~= enc_names(names) + Seq::<u8>::empty());
            lemma_dec_names_of_enc(names, Seq::<u8>::empty());
        }
        MessageV::PlayerShot(shooter, target) => {
            assert(b.first() == TAG_PLAYER_SHOT);
            assert(b.drop_first() =~= enc_bytes(shooter) + (enc_bytes(target)
                + Seq::<u8>::empty()));
            lemma_dec_bytes_of_enc(shooter, enc_bytes(target) + Seq::<u8>::empty());
            lemma_dec_bytes_of_enc(target, Seq::<u8>::empty());
        }
        MessageV::ClientJoined(name, address) => {
            assert(b.first() == TAG_CLIENT_JOINED);
            assert(b.drop_first() =~= enc_bytes(name) + (enc_bytes(address)
                + Seq::<u8>::empty()));
            lemma_dec_bytes_of_enc(name, enc_bytes(address) + Seq::<u8>::empty());
            lemma_dec_bytes_of_enc(address, Seq::<u8>::empty());
        }
        MessageV::PlayerLeft(name) => {
            assert(b.first() == TAG_PLAYER_LEFT);
            assert(b.drop_first() =~= enc_bytes(name) + Seq::<u8>::empty());
            lemma_dec_bytes_of_enc(name, Seq::<u8>::empty());
        }
        MessageV::PlayerMoved(name, px, py, dx, dy) => {
            assert(b.first() == TAG_PLAYER_MOVED);
            let r4 = enc_i32(dy) + Seq::<u8>::empty();
            let r3 = enc_i32(dx) + r4;
            let r2 = enc_u32(py) + r3;
            let r1 = enc_u32(px) + r2;
            assert(b.drop_first() =~= enc_bytes(name) + r1);
            lemma_dec_bytes_of_enc(name, r1);
            lemma_dec_u32_of_enc(px, r2);
            lemma_dec_u32_of_enc(py, r3);
            lemma_dec_u32_of_enc(dx as u32, r4);
            lemma_dec_u32_of_enc(dy as u32, Seq::<u8>::empty());
            assert((dx as u32) as i32 == dx) by (bit_vector);
            assert((dy as u32) as i32 == dy) by (bit_vector);
        }
        MessageV::Maze(grid) => {
            assert(b.first() == TAG_MAZE);
            assert(b.drop_first() =~= enc_u16(grid.len() as u16) + (enc_rows(grid)
                + Seq::<u8>::empty()));
            lemma_dec_u16_of_enc(grid.len() as u16, enc_rows(grid) + Seq::<u8>::empty());
            lemma_dec_rows_of_enc(grid, Seq::<u8>::empty());
        }
        MessageV::ConnectionLost => {
            assert(b.first() == TAG_CONNECTION_LOST);
            assert(b.drop_first().len() == 0);
        }
        MessageV::Ping(name) => {
            assert(b.first() == TAG_PING);
            assert(b.drop_first() =~= enc_bytes(name) + Seq::<u8>::empty());
            lemma_dec_bytes_of_enc(name, Seq::<u8>::empty());
        }
        MessageV::Pong => {
            assert(b.first() == TAG_PONG);
            assert(b.drop_first().len() == 0);
        }
    }
}

/// Round trip, the other way: any byte string that decodes at all is the
/// canonical encoding of what it decodes to, so re-encoding a received
/// message reproduces the received bytes exactly.
pub proof fn lemma_encode_of_decode(b: Seq<u8>)
    ensures
        spec_decode(b) matches Some(m) ==> msg_wf(m) && encoded_msg(m) == b,
{
    if spec_decode(b) is Some {
        let m = spec_decode(b)->Some_0;
        let tag = b.first();
        let body = b.drop_first();
        assert(b =~= seq![tag] + body);
        if tag == TAG_OPPONENT_LIST {
            lemma_enc_of_dec_u16(body);
            let q = dec_u16(body)->Some_0;
            lemma_enc_of_dec_names(q.1, q.0 as int);
            let p = dec_names(q.1, q.0 as int)->Some_0;
            assert(p.1.len() == 0);
            assert(q.1 =~= enc_names(p.0));
            assert(p.0.len() as u16 == q.0);
            assert(encoded_msg(m) =~= b);
        } else if tag == TAG_PLAYER_SHOT {
            lemma_enc_of_dec_bytes(body);
            let q = dec_bytes(body)->Some_0;
            lemma_enc_of_dec_bytes(q.1);
            let p = dec_bytes(q.1)->Some_0;
            assert(p.1.len() == 0);
            assert(q.1 =~= enc_bytes(p.0));
            assert(encoded_msg(m) =~= b);
        } else if tag == TAG_CLIENT_JOINED {
            lemma_enc_of_dec_bytes(body);
            let q = dec_bytes(body)->Some_0;
            lemma_enc_of_dec_bytes(q.1);
            let p = dec_bytes(q.1)->Some_0;
            assert(p.1.len() == 0);
            assert(q.1 =~= enc_bytes(p.0));
            assert(encoded_msg(m) =~= b);
        } else if tag == TAG_PLAYER_LEFT {
            lemma_enc_of_dec_bytes(body);
            let q = dec_bytes(body)->Some_0;
            assert(q.1.len() == 0);
            assert(body =~= enc_bytes(q.0));
            assert(encoded_msg(m) =~= b);
        } else if tag == TAG_PLAYER_MOVED {
            lemma_enc_of_dec_bytes(body);
            let q = dec_bytes(body)->Some_0;
            lemma_enc_of_dec_u32(q.1);
            let x1 = dec_u32(q.1)->Some_0;
            lemma_enc_of_dec_u32(x1.1);
            let x2 = dec_u32(x1.1)->Some_0;
            lemma_enc_of_dec_u32(x2.1);
            let x3 = dec_u32(x2.1)->Some_0;
            lemma_enc_of_dec_u32(x3.1);
            let x4 = dec_u32(x3.1)->Some_0;
            assert(x4.1.len() == 0);
            assert(x3.1 =~= enc_u32(x4.0));
            let xv = x3.0;
            let yv = x4.0;
            assert((xv as i32) as u32 == xv) by (bit_vector);
            assert((yv as i32) as u32 == yv) by (bit_vector);
            assert(encoded_msg(m) =~= b);
        } else if tag == TAG_MAZE {
            lemma_enc_of_dec_u16(body);
            let q = dec_u16(body)->Some_0;
            lemma_enc_of_dec_rows(q.1, q.0 as int);
            let p = dec_rows(q.1, q.0 as int)->Some_0;
            assert(p.1.len() == 0);
            assert(q.1 =~= enc_rows(p.0));
            assert(p.0.len() as u16 == q.0);
            assert(encoded_msg(m) =~= b);
        } else if tag == TAG_CONNECTION_LOST {
            assert(body.len() == 0);
            assert(encoded_msg(m) =~= b);
        } else if tag == TAG_PING {
            lemma_enc_of_dec_bytes(body);
            let q = dec_bytes(body)->Some_0;
            assert(q.1.len() == 0);
            assert(body =~= enc_bytes(q.0));
            assert(encoded_msg(m) =~= b);
        } else {
            assert(tag == TAG_PONG);
            assert(body.len() == 0);
            assert(encoded_msg(m) =~= b);
        }
    }
}

proof fn lemma_enc_names_concat(a: Seq<Seq<u8>>, b: Seq<Seq<u8>>)
    ensures
        enc_names(a + b) == enc_names(a) + enc_names(b),
    decreases a.len(),
{
    if a.len() == 0 {
        assert(a + b =~= b);
        assert(enc_names(a) + enc_names(b) =~= enc_names(b));
    } else {
        assert((a + b).len() > 0);
        assert((a + b).first() == a.first());
        assert((a + b).drop_first() =~= a.drop_first() + b);
        lemma_enc_names_concat(a.drop_first(), b);
        assert(enc_bytes(a.first()) + (enc_names(a.drop_first()) + enc_names(b)) =~= (enc_bytes(
            a.first(),
        ) + enc_names(a.drop_first())) + enc_names(b));
    }
}

proof fn lemma_enc_names_singleton(x: Seq<u8>)
    ensures
        enc_names(seq![x]) == enc_bytes(x),
{
    assert(seq![x].drop_first() =~= Seq::<Seq<u8>>::empty());
    assert(enc_bytes(x) + enc_names(Seq::<Seq<u8>>::empty()) =~= enc_bytes(x));
}

proof fn lemma_enc_cells_concat(a: Seq<i32>, b: Seq<i32>)
    ensures
        enc_cells(a + b) == enc_cells(a) + enc_cells(b),
    decreases a.len(),
{
    if a.len() == 0 {
        assert(a + b =~= b);
        assert(enc_cells(a) + enc_cells(b) =~= enc_cells(b));
    } else {
        assert((a + b).first() == a.first());
        assert((a + b).drop_first() =~= a.drop_first() + b);
        lemma_enc_cells_concat(a.drop_first(), b);
        assert(seq![a.first() as u8] + (enc_cells(a.drop_first()) + enc_cells(b)) =~= (seq![
            a.first() as u8,
        ] + enc_cells(a.drop_first())) + enc_cells(b));
    }
}

proof fn lemma_enc_cells_singleton(x: i32)
    ensures
        enc_cells(seq![x]) == seq![x as u8],
{
    assert(seq![x].drop_first() =~= Seq::<i32>::empty());
    assert(seq![x as u8] + enc_cells(Seq::<i32>::empty()) =~= seq![x as u8]);
}

proof fn lemma_enc_rows_concat(a: Seq<Seq<i32>>, b: Seq<Seq<i32>>)
    ensures
        enc_rows(a + b) == enc_rows(a) + enc_rows(b),
    decreases a.len(),
{
    if a.len() == 0 {
        assert(a + b =~= b);
        assert(enc_rows(a) + enc_rows(b) =~= enc_rows(b));
    } else {
        assert((a + b).first() == a.first());
        assert((a + b).drop_first() =~= a.drop_first() + b);
        lemma_enc_rows_concat(a.drop_first(), b);
        assert(enc_u16(a.first().len() as u16) + enc_cells(a.first()) + (enc_rows(a.drop_first())
            + enc_rows(b)) =~= (enc_u16(a.first().len() as u16) + enc_cells(a.first()) + enc_rows(
            a.drop_first(),
        )) + enc_rows(b));
    }
}

proof fn lemma_enc_rows_singleton(x: Seq<i32>)
    ensures
        enc_rows(seq![x]) == enc_u16(x.len() as u16) + enc_cells(x),
{
    assert(seq![x].drop_first() =~= Seq::<Seq<i32>>::empty());
    assert(enc_u16(x.len() as u16) + enc_cells(x) + enc_rows(Seq::<Seq<i32>>::empty()) =~= enc_u16(
        x.len() as u16,
    ) + enc_cells(x));
}

fn push_vec(out: &mut Vec<u8>, s: &Vec<u8>)
    ensures
        final(out)@ == old(out)@ + s@,
{
    let mut j: usize = 0;
    while j < s.len()
        invariant
            j <= s.len(),
            out@ == old(out)@ + s@.take(j as int),
        decreases s.len() - j,
    {
        out.push(s[j]);
        proof {
            assert(old(out)@ + s@.take(j as int + 1) =~= (old(out)@ + s@.take(j as int)).push(
                s@[j as int],
            ));
        }
        j += 1;
    }
    assert(s@.take(s@.len() as int) =~= s@);
}

fn push_u16(out: &mut Vec<u8>, x: u16)
    ensures
        final(out)@ == old(out)@ + enc_u16(x),
{
    let bytes = u16_to_le_bytes(x);
    push_vec(out, &bytes);
}

fn push_u32(out: &mut Vec<u8>, x: u32)
    ensures
        final(out)@ == old(out)@ + enc_u32(x),
{
    let bytes = u32_to_le_bytes(x);
    push_vec(out, &bytes);
}

fn push_name(out: &mut Vec<u8>, s: &Vec<u8>)
    requires
        bytes_wf(s@),
    ensures
        final(out)@ == old(out)@ + enc_bytes(s@),
{
    out.push(s.len() as u8);
    push_vec(out, s);
    proof {
        assert(old(out)@ + enc_bytes(s@) =~= (old(out)@.push(s@.len() as u8)) + s@);
    }
}

fn encode_names(out: &mut Vec<u8>, names: &Vec<Vec<u8>>)
    requires
        forall|i: int| 0 <= i < names@.len() ==> bytes_wf(#[trigger] names@[i]@),
    ensures
        final(out)@ == old(out)@ + enc_names(names.deep_view()),
{
    proof {
        lemma_names_deep_view_v(*names);
    }
    let ghost dv = names.deep_view();
    let mut i: usize = 0;
    while i < names.len()
        invariant
            i <= names@.len(),
            dv == names.deep_view(),
            dv.len() == names@.len(),
            forall|k: int| 0 <= k < names@.len() ==> dv[k] == names@[k]@,
            forall|k: int| 0 <= k < names@.len() ==> bytes_wf(#[trigger] names@[k]@),
            out@ == old(out)@ + enc_names(dv.take(i as int)),
        decreases names@.len() - i,
    {
        push_name(out, &names[i]);
        proof {
            assert(dv.take(i as int + 1) =~= dv.take(i as int) + seq![dv[i as int]]);
            lemma_enc_names_concat(dv.take(i as int), seq![dv[i as int]]);
            lemma_enc_names_singleton(dv[i as int]);
            assert(old(out)@ + (enc_names(dv.take(i as int)) + enc_bytes(dv[i as int])) =~= (old(
                out,
            )@ + enc_names(dv.take(i as int))) + enc_bytes(dv[i as int]));
        }
        i += 1;
    }
    assert(dv.take(dv.len() as int) =~= dv);
}

fn encode_row(out: &mut Vec<u8>, row: &Vec<i32>)
    requires
        row_wf(row@),
    ensures
        final(out)@ == old(out)@ + enc_u16(row@.len() as u16) + enc_cells(row@),
{
    push_u16(out, row.len() as u16);
    let ghost mid = out@;
    let mut j: usize = 0;
    while j < row.len()
        invariant
            j <= row@.len(),
            row_wf(row@),
            mid == old(out)@ + enc_u16(row@.len() as u16),
            out@ == mid + enc_cells(row@.take(j as int)),
        decreases row@.len() - j,
    {
        out.push(row[j] as u8);
        proof {
            assert(row@.take(j as int + 1) =~= row@.take(j as int) + seq![row@[j as int]]);
            lemma_enc_cells_concat(row@.take(j as int), seq![row@[j as int]]);
            lemma_enc_cells_singleton(row@[j as int]);
            assert(mid + (enc_cells(row@.take(j as int)) + seq![row@[j as int] as u8]) =~= (mid
                + enc_cells(row@.take(j as int))).push(row@[j as int] as u8));
        }
        j += 1;
    }
    assert(row@.take(row@.len() as int) =~= row@);
}

fn encode_rows(out: &mut Vec<u8>, grid: &Vec<Vec<i32>>)
    requires
        forall|i: int| 0 <= i < grid@.len() ==> row_wf(#[trigger] grid@[i]@),
    ensures
        final(out)@ == old(out)@ + enc_rows(grid.deep_view()),
{
    proof {
        lemma_grid_deep_view_v(*grid);
    }
    let ghost dv = grid.deep_view();
    let mut i: usize = 0;
    while i < grid.len()
        invariant
            i <= grid@.len(),
            dv == grid.deep_view(),
            dv.len() == grid@.len(),
            forall|k: int| 0 <= k < grid@.len() ==> dv[k] == grid@[k]@,
            forall|k: int| 0 <= k < grid@.len() ==> row_wf(#[trigger] grid@[k]@),
            out@ == old(out)@ + enc_rows(dv.take(i as int)),
        decreases grid@.len() - i,
    {
        encode_row(out, &grid[i]);
        proof {
            assert(dv.take(i as int + 1) =~= dv.take(i as int) + seq![dv[i as int]]);
            lemma_enc_rows_concat(dv.take(i as int), seq![dv[i as int]]);
            lemma_enc_rows_singleton(dv[i as int]);
            assert(old(out)@ + (enc_rows(dv.take(i as int)) + (enc_u16(dv[i as int].len() as u16)
                + enc_cells(dv[i as int]))) =~= ((old(out)@ + enc_rows(dv.take(i as int)))
                + enc_u16(dv[i as int].len() as u16)) + enc_cells(dv[i as int]));
        }
        i += 1;
    }
    assert(dv.take(dv.len() as int) =~= dv);
}

/// Turns a message into the one datagram that carries it.
pub fn encode(m: &Message) -> (r: Vec<u8>)
    requires
        msg_wf(m@),
    ensures
        r@ == encoded_msg(m@),
{
    let mut out: Vec<u8> = Vec::new();
    match m {
        Message::OpponentList(names) => {
            proof {
                lemma_names_deep_view_v(*names);
                assert forall|i: int| 0 <= i < names@.len() implies bytes_wf(
                    #[trigger] names@[i]@,
                ) by {
                    assert(names.deep_view()[i] == names@[i]@);
                }
            }
            out.push(TAG_OPPONENT_LIST);
            push_u16(&mut out, names.len() as u16);
            encode_names(&mut out, names);
            proof {
                assert(out@ =~= seq![TAG_OPPONENT_LIST] + enc_u16(
                    names.deep_view().len() as u16,
                ) + enc_names(names.deep_view()));
            }
        }
        Message::PlayerShot(shooter, target) => {
            out.push(TAG_PLAYER_SHOT);
            push_name(&mut out, shooter);
            push_name(&mut out, target);
            proof {
                assert(out@ =~= seq![TAG_PLAYER_SHOT] + enc_bytes(shooter@) + enc_bytes(target@));
            }
        }
        Message::ClientJoined(name, address) => {
            out.push(TAG_CLIENT_JOINED);
            push_name(&mut out, name);
            push_name(&mut out, address);
            proof {
                assert(out@ =~= seq![TAG_CLIENT_JOINED] + enc_bytes(name@) + enc_bytes(address@));
            }
        }
        Message::PlayerLeft(name) => {
            out.push(TAG_PLAYER_LEFT);
            push_name(&mut out, name);
            proof {
                assert(out@ =~= seq![TAG_PLAYER_LEFT] + enc_bytes(name@));
            }
        }
        Message::PlayerMoved(name, px, py, dx, dy) => {
            out.push(TAG_PLAYER_MOVED);
            push_name(&mut out, name);
            push_u32(&mut out, *px);
            push_u32(&mut out, *py);
            push_u32(&mut out, *dx as u32);
            push_u32(&mut out, *dy as u32);
            proof {
                assert(out@ =~= seq![TAG_PLAYER_MOVED] + enc_bytes(name@) + enc_u32(*px) + enc_u32(
                    *py,
                ) + enc_i32(*dx) + enc_i32(*dy));
            }
        }
        Message::Maze(grid) => {
            proof {
                lemma_grid_deep_view_v(*grid);
                assert forall|i: int| 0 <= i < grid@.len() implies row_wf(
                    #[trigger] grid@[i]@,
                ) by {
                    assert(grid.deep_view()[i] == grid@[i]@);
                }
            }
            out.push(TAG_MAZE);
            push_u16(&mut out, grid.len() as u16);
            encode_rows(&mut out, grid);
            proof {
                assert(out@ =~= seq![TAG_MAZE] + enc_u16(grid.deep_view().len() as u16) + enc_rows(
                    grid.deep_view(),
                ));
            }
        }
        Message::ConnectionLost => {
            out.push(TAG_CONNECTION_LOST);
            proof {
                assert(out@ =~= seq![TAG_CONNECTION_LOST]);
            }
        }
        Message::Ping(name) => {
            out.push(TAG_PING);
            push_name(&mut out, name);
            proof {
                assert(out@ =~= seq![TAG_PING] + enc_bytes(name@));
            }
        }
        Message::Pong => {
            out.push(TAG_PONG);
            proof {
                assert(out@ =~= seq![TAG_PONG]);
            }
        }
    }
    out
}

fn read_bytes<'a>(b: &'a [u8]) -> (r: Option<(Vec<u8>, &'a [u8])>)
    ensures
        match r {
            Some(p) => dec_bytes(b@) == Some((p.0@, p.1@)),
            None => dec_bytes(b@) is None,
        },
{
    if b.len() < 1 {
        return None;
    }
    let n = *slice_index_get(b, 0) as usize;
    if 1 + n <= b.len() {
        let s = slice_to_vec(slice_subrange(b, 1, 1 + n));
        let rest = slice_subrange(b, 1 + n, b.len());
        Some((s, rest))
    } else {
        None
    }
}

fn read_u16<'a>(b: &'a [u8]) -> (r: Option<(u16, &'a [u8])>)
    ensures
        match r {
            Some(p) => dec_u16(b@) == Some((p.0, p.1@)),
            None => dec_u16(b@) is None,
        },
{
    if b.len() < 2 {
        return None;
    }
    let x = u16_from_le_bytes(slice_subrange(b, 0, 2));
    Some((x, slice_subrange(b, 2, b.len())))
}

fn read_u32<'a>(b: &'a [u8]) -> (r: Option<(u32, &'a [u8])>)
    ensures
        match r {
            Some(p) => dec_u32(b@) == Some((p.0, p.1@)),
            None => dec_u32(b@) is None,
        },
{
    if b.len() < 4 {
        return None;
    }
    let x = u32_from_le_bytes(slice_subrange(b, 0, 4));
    Some((x, slice_subrange(b, 4, b.len())))
}

/// `deep_view` of a list of byte strings, elementwise.
pub proof fn lemma_names_deep_view_v(v: Vec<Vec<u8>>)
    ensures
        v.deep_view().len() == v@.len(),
        forall|i: int| 0 <= i < v@.len() ==> v.deep_view()[i] == v@[i]@,
{
    assert forall|i: int| 0 <= i < v@.len() implies v.deep_view()[i] == v@[i]@ by {
        assert(v@[i].deep_view() =~= v@[i]@);
    }
}

fn read_names<'a>(b: &'a [u8], n: u16) -> (r: Option<(Vec<Vec<u8>>, &'a [u8])>)
    ensures
        match r {
            Some(p) => dec_names(b@, n as int) == Some((p.0.deep_view(), p.1@)),
            None => dec_names(b@, n as int) is None,
        },
{
    let mut acc: Vec<Vec<u8>> = Vec::new();
    let mut cur: &[u8] = b;
    let mut k: u16 = 0;
    proof {
        lemma_names_deep_view_v(acc);
        assert(acc.deep_view() =~= Seq::<Seq<u8>>::empty());
    }
    while k < n
        invariant
            k <= n,
            match dec_names(cur@, n as int - k as int) {
                Some(p) => dec_names(b@, n as int) == Some((acc.deep_view() + p.0, p.1)),
                None => dec_names(b@, n as int) is None,
            },
        decreases n - k,
    {
        let ghost acc0 = acc;
        match read_bytes(cur) {
            None => {
                return None;
            },
            Some((s, rest)) => {
                acc.push(s);
                proof {
                    lemma_names_deep_view_v(acc0);
                    lemma_names_deep_view_v(acc);
                    assert(acc.deep_view() =~= acc0.deep_view().push(acc@[acc@.len() - 1]@));
                    if dec_names(rest@, n as int - k as int - 1) is Some {
                        let p = dec_names(rest@, n as int - k as int - 1)->Some_0;
                        assert(acc.deep_view() + p.0 =~= acc0.deep_view() + (seq![
                            acc@[acc@.len() - 1]@,
                        ] + p.0));
                    }
                }
                cur = rest;
                k = k + 1;
            },
        }
    }
    proof {
        assert(dec_names(cur@, 0) == Some((Seq::<Seq<u8>>::empty(), cur@)));
        assert(acc.deep_view() + Seq::<Seq<u8>>::empty() =~= acc.deep_view());
    }
    Some((acc, cur))
}

fn read_cells<'a>(b: &'a [u8], n: u16) -> (r: Option<(Vec<i32>, &'a [u8])>)
    ensures
        match r {
            Some(p) => dec_cells(b@, n as int) == Some((p.0@, p.1@)),
            None => dec_cells(b@, n as int) is None,
        },
{
    let mut acc: Vec<i32> = Vec::new();
    let mut cur: &[u8] = b;
    let mut k: u16 = 0;
    while k < n
        invariant
            k <= n,
            match dec_cells(cur@, n as int - k as int) {
                Some(p) => dec_cells(b@, n as int) == Some((acc@ + p.0, p.1)),
                None => dec_cells(b@, n as int) is None,
            },
        decreases n - k,
    {
        let ghost acc0 = acc;
        if cur.len() < 1 {
            return None;
        }
        let c = *slice_index_get(cur, 0) as i32;
        let rest = slice_subrange(cur, 1, cur.len());
        acc.push(c);
        proof {
            assert(rest@ =~= cur@.drop_first());
            if dec_cells(rest@, n as int - k as int - 1) is Some {
                let p = dec_cells(rest@, n as int - k as int - 1)->Some_0;
                assert(acc@ + p.0 =~= acc0@ + (seq![c] + p.0));
            }
        }
        cur = rest;
        k = k + 1;
    }
    proof {
        assert(acc@ + Seq::<i32>::empty() =~= acc@);
    }
    Some((acc, cur))
}

/// `deep_view` of a grid, elementwise.
pub proof fn lemma_grid_deep_view_v(v: Vec<Vec<i32>>)
    ensures
        v.deep_view().len() == v@.len(),
        forall|i: int| 0 <= i < v@.len() ==> v.deep_view()[i] == v@[i]@,
{
    assert forall|i: int| 0 <= i < v@.len() implies v.deep_view()[i] == v@[i]@ by {
        assert(v@[i].deep_view() =~= v@[i]@);
    }
}

fn read_rows<'a>(b: &'a [u8], n: u16) -> (r: Option<(Vec<Vec<i32>>, &'a [u8])>)
    ensures
        match r {
            Some(p) => dec_rows(b@, n as int) == Some((p.0.deep_view(), p.1@)),
            None => dec_rows(b@, n as int) is None,
        },
{
    let mut acc: Vec<Vec<i32>> = Vec::new();
    let mut cur: &[u8] = b;
    let mut k: u16 = 0;
    proof {
        lemma_grid_deep_view_v(acc);
        assert(acc.deep_view() =~= Seq::<Seq<i32>>::empty());
    }
    while k < n
        invariant
            k <= n,
            match dec_rows(cur@, n as int - k as int) {
                Some(p) => dec_rows(b@, n as int) == Some((acc.deep_view() + p.0, p.1)),
                None => dec_rows(b@, n as int) is None,
            },
        decreases n - k,
    {
        let ghost acc0 = acc;
        match read_u16(cur) {
            None => {
                return None;
            },
            Some((cols, rest)) => {
                match read_cells(rest, cols) {
                    None => {
                        return None;
                    },
                    Some((row, rest2)) => {
                        acc.push(row);
                        proof {
                            lemma_grid_deep_view_v(acc0);
                            lemma_grid_deep_view_v(acc);
                            assert(acc.deep_view() =~= acc0.deep_view().push(
                                acc@[acc@.len() - 1]@,
                            ));
                            if dec_rows(rest2@, n as int - k as int - 1) is Some {
                                let p = dec_rows(rest2@, n as int - k as int - 1)->Some_0;
                                assert(acc.deep_view() + p.0 =~= acc0.deep_view() + (seq![
                                    acc@[acc@.len() - 1]@,
                                ] + p.0));
                            }
                        }
                        cur = rest2;
                        k = k + 1;
                    },
                }
            },
        }
    }
    proof {
        assert(dec_rows(cur@, 0) == Some((Seq::<Seq<i32>>::empty(), cur@)));
        assert(acc.deep_view() + Seq::<Seq<i32>>::empty() =~= acc.deep_view());
    }
    Some((acc, cur))
}

/// Reads back the message a datagram carries.
///
/// Returns `None` on anything that is not exactly one canonical encoding:
/// an empty buffer, an unknown tag, truncated input, or trailing garbage.
/// A failed decode never panics, so a receive loop can drop the datagram
/// and carry on.
pub fn decode(b: &[u8]) -> (r: Option<Message>)
    ensures
        match r {
            Some(m) => spec_decode(b@) == Some(m@),
            None => spec_decode(b@) is None,
        },
{
    if b.len() < 1 {
        return None;
    }
    let tag = *slice_index_get(b, 0);
    let body = slice_subrange(b, 1, b.len());
    proof {
        assert(body@ =~= b@.drop_first());
    }
    if tag == TAG_OPPONENT_LIST {
        match read_u16(body) {
            None => None,
            Some((n, rest)) => match read_names(rest, n) {
                None => None,
                Some((names, rest2)) => if rest2.len() == 0 {
                    Some(Message::OpponentList(names))
                } else {
                    None
                },
            },
        }
    } else if tag == TAG_PLAYER_SHOT {
        match read_bytes(body) {
            None => None,
            Some((shooter, rest)) => match read_bytes(rest) {
                None => None,
                Some((target, rest2)) => if rest2.len() == 0 {
                    Some(Message::PlayerShot(shooter, target))
                } else {
                    None
                },
            },
        }
    } else if tag == TAG_CLIENT_JOINED {
        match read_bytes(body) {
            None => None,
            Some((name, rest)) => match read_bytes(rest) {
                None => None,
                Some((address, rest2)) => if rest2.len() == 0 {
                    Some(Message::ClientJoined(name, address))
                } else {
                    None
                },
            },
        }
    } else if tag == TAG_PLAYER_LEFT {
        match read_bytes(body) {
            None => None,
            Some((name, rest)) => if rest.len() == 0 {
                Some(Message::PlayerLeft(name))
            } else {
                None
            },
        }
    } else if tag == TAG_PLAYER_MOVED {
        match read_bytes(body) {
            None => None,
            Some((name, rest)) => match read_u32(rest) {
                None => None,
                Some((px, rest2)) => match read_u32(rest2) {
                    None => None,
                    Some((py, rest3)) => match read_u32(rest3) {
                        None => None,
                        Some((dx, rest4)) => match read_u32(rest4) {
                            None => None,
                            Some((dy, rest5)) => if rest5.len() == 0 {
                                Some(Message::PlayerMoved(name, px, py, dx as i32, dy as i32))
                            } else {
                                None
                            },
                        },
                    },
                },
            },
        }
    } else if tag == TAG_MAZE {
        match read_u16(body) {
            None => None,
            Some((n, rest)) => match read_rows(rest, n) {
                None => None,
                Some((grid, rest2)) => if rest2.len() == 0 {
                    Some(Message::Maze(grid))
                } else {
                    None
                },
            },
        }
    } else if tag == TAG_CONNECTION_LOST {
        if body.len() == 0 {
            Some(Message::ConnectionLost)
        } else {
            None
        }
    } else if tag == TAG_PING {
        match read_bytes(body) {
            None => None,
            Some((name, rest)) => if rest.len() == 0 {
                Some(Message::Ping(name))
            } else {
                None
            },
        }
    } else if tag == TAG_PONG {
        if body.len() == 0 {
            Some(Message::Pong)
        } else {
            None
        }
    } else {
        None
    }
}

} // verus!
