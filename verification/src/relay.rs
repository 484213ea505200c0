//! The relay server's dispatch logic: one datagram in, a registry change
//! and a batch of datagrams out.
//!
//! The relay owns the peer registry and the authoritative maze. The
//! network loop around it only receives bytes, calls [`Relay::handle_datagram`]
//! or [`Relay::run_sweep`], and sends whatever comes back; every decision
//! is made here, as a function of the old state, the input bytes and the
//! clock reading, and is pinned down by [`spec_relay`].

use vstd::prelude::*;
use vstd::slice::slice_to_vec;
use crate::codec::{
    bytes_wf, encode, decode, encoded_msg, spec_decode, msg_wf, row_wf, lemma_names_deep_view_v,
    lemma_grid_deep_view_v,
};
use crate::msg::{Message, MessageV};
use crate::registry::{
    Registry, RegistryV, PeerV, spec_register, spec_touch, kept_peers, evicted_names,
    bytes_eq, copy_bytes, has_name, index_of_name, lemma_evicted_names_wf,
};

verus! {

/// One datagram to put on the wire: a destination address and a payload.
pub struct Datagram {
    pub dest: Vec<u8>,
    pub payload: Vec<u8>,
}

/// The mathematical shadow of `Datagram`.
pub struct DatagramV {
    pub dest: Seq<u8>,
    pub payload: Seq<u8>,
}

impl View for Datagram {
    type V = DatagramV;

    open spec fn view(&self) -> DatagramV {
        DatagramV { dest: self.dest@, payload: self.payload@ }
    }
}

impl DeepView for Datagram {
    type V = DatagramV;

    open spec fn deep_view(&self) -> DatagramV {
        self@
    }
}

/// The names of all peers other than `except`, in registry order.
pub open spec fn roster_excluding(peers: Seq<PeerV>, except: Seq<u8>) -> Seq<Seq<u8>>
    decreases peers.len(),
{
    if peers.len() == 0 {
        Seq::empty()
    } else {
        let rest = roster_excluding(peers.drop_last(), except);
        if peers.last().name == except {
            rest
        } else {
            rest.push(peers.last().name)
        }
    }
}

/// One copy of `payload` addressed to every peer except the one named
/// `except`, in registry order.
pub open spec fn fanout(peers: Seq<PeerV>, except: Seq<u8>, payload: Seq<u8>) -> Seq<DatagramV>
    decreases peers.len(),
{
    if peers.len() == 0 {
        Seq::empty()
    } else {
        let rest = fanout(peers.drop_last(), except, payload);
        if peers.last().name == except {
            rest
        } else {
            rest.push(DatagramV { dest: peers.last().address, payload })
        }
    }
}

/// One copy of `payload` addressed to every peer, in registry order.
pub open spec fn fanout_all(peers: Seq<PeerV>, payload: Seq<u8>) -> Seq<DatagramV>
    decreases peers.len(),
{
    if peers.len() == 0 {
        Seq::empty()
    } else {
        fanout_all(peers.drop_last(), payload).push(
            DatagramV { dest: peers.last().address, payload },
        )
    }
}

/// The departure notices of a sweep: for each evicted name, in eviction
/// order, a `PlayerLeft` broadcast to every remaining peer.
pub open spec fn sweep_notices(remaining: Seq<PeerV>, names: Seq<Seq<u8>>) -> Seq<DatagramV>
    decreases names.len(),
{
    if names.len() == 0 {
        Seq::empty()
    } else {
        sweep_notices(remaining, names.drop_last()) + fanout_all(
            remaining,
            encoded_msg(MessageV::PlayerLeft(names.last())),
        )
    }
}

/// The relay's whole reaction to one datagram, as a mathematical function:
/// the registry afterwards, and the datagrams to send, in order.
///
/// A joiner is registered, answered privately with the roster of the other
/// peers and the maze, and then announced to every peer; movement is
/// relayed verbatim to every peer but its sender; a shot is broadcast
/// verbatim to every peer, the shooter included, whose own score keeps up
/// through that echo; a ping refreshes the sender's liveness and is echoed
/// to its source address; anything else — malformed bytes included — is
/// dropped and changes nothing.
pub open spec fn spec_relay(
    reg: RegistryV,
    maze: Seq<Seq<i32>>,
    input: Seq<u8>,
    src: Seq<u8>,
    now: u64,
) -> (RegistryV, Seq<DatagramV>) {
    match spec_decode(input) {
        Some(MessageV::ClientJoined(name, address)) => {
            let reg2 = spec_register(reg, name, address, now);
            let replies = seq![
                DatagramV {
                    dest: address,
                    payload: encoded_msg(
                        MessageV::OpponentList(roster_excluding(reg2.peers, name)),
                    ),
                },
                DatagramV { dest: address, payload: encoded_msg(MessageV::Maze(maze)) },
            ];
            (reg2, replies + fanout_all(reg2.peers, input))
        },
        Some(MessageV::PlayerMoved(name, px, py, dx, dy)) => (reg, fanout(reg.peers, name, input)),
        Some(MessageV::PlayerShot(shooter, target)) => (reg, fanout_all(reg.peers, input)),
        Some(MessageV::Ping(name)) => (
            spec_touch(reg, name, now),
            seq![DatagramV { dest: src, payload: input }],
        ),
        _ => (reg, Seq::empty()),
    }
}

/// The relay server's state: the peer registry, the authoritative maze,
/// and the maze's encoding, prepared once.
pub struct Relay {
    pub registry: Registry,
    pub maze: Vec<Vec<i32>>,
    pub maze_msg: Vec<u8>,
}

impl Relay {
    pub open spec fn wf(&self) -> bool {
        &&& self.registry.wf()
        &&& msg_wf(MessageV::Maze(self.maze.deep_view()))
        &&& self.maze_msg@ == encoded_msg(MessageV::Maze(self.maze.deep_view()))
    }

    /// A relay for a fresh session over the given maze, with nobody joined.
    pub fn new(maze: Vec<Vec<i32>>) -> (r: Relay)
        requires
            maze@.len() <= 0xFFFF,
            forall|i: int| 0 <= i < maze@.len() ==> row_wf(#[trigger] maze@[i]@),
        ensures
            r.wf(),
            r.registry@.peers.len() == 0,
            r.registry@.owner is None,
            r.maze.deep_view() == maze.deep_view(),
    {
        proof {
            lemma_grid_deep_view_v(maze);
            assert forall|i: int| 0 <= i < maze.deep_view().len() implies row_wf(
                #[trigger] maze.deep_view()[i],
            ) by {
                assert(maze.deep_view()[i] == maze@[i]@);
            }
        }
        let maze_msg = encode(&Message::Maze(maze_copy(&maze)));
        proof {
            assert(msg_wf(MessageV::Maze(maze.deep_view())));
        }
        Relay { registry: Registry::new(), maze, maze_msg }
    }

    /// Reacts to one received datagram exactly as [`spec_relay`] says.
    pub fn handle_datagram(&mut self, input: &[u8], src: &Vec<u8>, now: u64) -> (out: Vec<
        Datagram,
    >)
        requires
            old(self).wf(),
            old(self).registry@.peers.len() <= 0xFFFF,
        ensures
            final(self).wf(),
            final(self).maze.deep_view() == old(self).maze.deep_view(),
            (final(self).registry@, out.deep_view()) == spec_relay(
                old(self).registry@,
                old(self).maze.deep_view(),
                input@,
                src@,
                now,
            ),
    {
        let ghost reg0 = self.registry@;
        let ghost mazev = self.maze.deep_view();
        match decode(input) {
            Some(Message::ClientJoined(name, address)) => {
                let name2 = copy_bytes(&name);
                let address2 = copy_bytes(&address);
                self.registry.register(name2, address2, now);
                let ghost reg2 = self.registry@;
                let others = roster_excluding_exec(&self.registry, &name);
                proof {
                    lemma_names_deep_view_v(others);
                    lemma_roster_excluding_wf(reg2.peers, name@);
                    assert(has_name(reg2.peers, name@)) by {
                        if has_name(reg0.peers, name@) {
                            let i = index_of_name(reg0.peers, name@);
                            assert(reg2.peers[i].name == name@);
                        } else {
                            assert(reg2.peers[reg0.peers.len() as int].name == name@);
                        }
                    }
                    assert(roster_excluding(reg2.peers, name@).len() <= 0xFFFF);
                    assert(msg_wf(MessageV::OpponentList(others.deep_view())));
                }
                let reply1 = encode(&Message::OpponentList(others));
                let reply2 = copy_bytes(&self.maze_msg);
                let mut out: Vec<Datagram> = Vec::new();
                out.push(Datagram { dest: copy_bytes(&address), payload: reply1 });
                out.push(Datagram { dest: copy_bytes(&address), payload: reply2 });
                let mut rebroadcast = fanout_all_exec(&self.registry, input);
                let ghost reb0 = rebroadcast;
                out.append(&mut rebroadcast);
                proof {
                    lemma_datagrams_deep_view_v(out);
                    lemma_datagrams_deep_view_v(reb0);
                    assert(out.deep_view() =~= spec_relay(reg0, mazev, input@, src@, now).1);
                }
                out
            },
            Some(Message::PlayerMoved(name, px, py, dx, dy)) => {
                let out = fanout_exec(&self.registry, &name, input);
                proof {
                    assert(out.deep_view() =~= spec_relay(reg0, mazev, input@, src@, now).1);
                }
                out
            },
            Some(Message::PlayerShot(shooter, target)) => {
                let out = fanout_all_exec(&self.registry, input);
                proof {
                    assert(out.deep_view() =~= spec_relay(reg0, mazev, input@, src@, now).1);
                }
                out
            },
            Some(Message::Ping(name)) => {
                self.registry.touch(&name, now);
                let mut out: Vec<Datagram> = Vec::new();
                out.push(Datagram { dest: copy_bytes(src), payload: slice_to_vec(input) });
                proof {
                    assert(out.deep_view() =~= spec_relay(reg0, mazev, input@, src@, now).1);
                }
                out
            },
            _ => {
                let out: Vec<Datagram> = Vec::new();
                proof {
                    assert(out.deep_view() =~= Seq::<DatagramV>::empty());
                }
                out
            },
        }
    }

    /// Runs one liveness sweep and returns the departure broadcasts: every
    /// stale peer but the owner is evicted, and each eviction is announced
    /// with a `PlayerLeft` to all peers that remain.
    pub fn run_sweep(&mut self, timeout: u64, now: u64) -> (out: Vec<Datagram>)
        requires
            old(self).wf(),
        ensures
            final(self).wf(),
            final(self).maze.deep_view() == old(self).maze.deep_view(),
            final(self).registry@.owner == old(self).registry@.owner,
            final(self).registry@.peers == kept_peers(
                old(self).registry@.peers,
                old(self).registry@.owner,
                timeout,
                now,
            ),
            out.deep_view() == sweep_notices(
                final(self).registry@.peers,
                evicted_names(
                    old(self).registry@.peers,
                    old(self).registry@.owner,
                    timeout,
                    now,
                ),
            ),
    {
        let ghost reg0 = self.registry@;
        proof {
            lemma_evicted_names_wf(reg0.peers, reg0.owner, timeout, now);
        }
        let evicted = self.registry.sweep(timeout, now);
        let ghost names = evicted.deep_view();
        let ghost remaining = self.registry@.peers;
        let mut out: Vec<Datagram> = Vec::new();
        let mut i: usize = 0;
        proof {
            lemma_names_deep_view_v(evicted);
            assert(out.deep_view() =~= sweep_notices(remaining, names.take(0)));
        }
        while i < evicted.len()
            invariant
                i <= evicted@.len(),
                names == evicted.deep_view(),
                names.len() == evicted@.len(),
                forall|k: int| 0 <= k < evicted@.len() ==> names[k] == evicted@[k]@,
                forall|k: int| 0 <= k < names.len() ==> bytes_wf(#[trigger] names[k]),
                remaining == self.registry@.peers,
                self.wf(),
                self.maze.deep_view() == old(self).maze.deep_view(),
                self.registry@ == (RegistryV { owner: reg0.owner, peers: remaining }),
                out.deep_view() == sweep_notices(remaining, names.take(i as int)),
            decreases evicted@.len() - i,
        {
            let left_name = copy_bytes(&evicted[i]);
            proof {
                assert(names[i as int] == evicted@[i as int]@);
                assert(bytes_wf(left_name@));
            }
            let notice = encode(&Message::PlayerLeft(left_name));
            let mut batch = fanout_all_exec(&self.registry, notice.as_slice());
            let ghost before = out.deep_view();
            out.append(&mut batch);
            proof {
                assert(names.take(i as int + 1).drop_last() =~= names.take(i as int));
                assert(names.take(i as int + 1).last() == names[i as int]);
                assert(out.deep_view() =~= before + fanout_all(
                    remaining,
                    encoded_msg(MessageV::PlayerLeft(names[i as int])),
                ));
            }
            i += 1;
        }
        proof {
            assert(names.take(names.len() as int) =~= names);
        }
        out
    }
}

/// A deep copy of a maze grid.
fn maze_copy(grid: &Vec<Vec<i32>>) -> (r: Vec<Vec<i32>>)
    ensures
        r.deep_view() == grid.deep_view(),
        r@.len() == grid@.len(),
        forall|i: int| 0 <= i < grid@.len() ==> r@[i]@ == grid@[i]@,
{
    proof {
        lemma_grid_deep_view_v(*grid);
    }
    let mut out: Vec<Vec<i32>> = Vec::new();
    let mut i: usize = 0;
    while i < grid.len()
        invariant
            i <= grid@.len(),
            out@.len() == i,
            forall|k: int| 0 <= k < i ==> out@[k]@ == grid@[k]@,
        decreases grid@.len() - i,
    {
        let mut row: Vec<i32> = Vec::new();
        row.extend_from_slice(grid[i].as_slice());
        proof {
            assert(row@ =~= grid@[i as int]@);
        }
        out.push(row);
        i += 1;
    }
    proof {
        lemma_grid_deep_view_v(out);
        assert(out.deep_view() =~= grid.deep_view());
    }
    out
}

/// Every name in a roster snapshot is short enough to encode, and the
/// roster is never longer than the registry.
proof fn lemma_roster_excluding_wf(peers: Seq<PeerV>, except: Seq<u8>)
    requires
        forall|i: int|
            0 <= i < peers.len() ==> bytes_wf(#[trigger] peers[i].name) && bytes_wf(
                peers[i].address,
            ),
    ensures
        roster_excluding(peers, except).len() <= peers.len(),
        has_name(peers, except) ==> roster_excluding(peers, except).len() < peers.len(),
        forall|k: int|
            0 <= k < roster_excluding(peers, except).len() ==> bytes_wf(
                #[trigger] roster_excluding(peers, except)[k],
            ),
    decreases peers.len(),
{
    if peers.len() > 0 {
        let dl = peers.drop_last();
        lemma_roster_excluding_wf(dl, except);
        if has_name(peers, except) && peers.last().name != except {
            let i = choose|i: int| 0 <= i < peers.len() && #[trigger] peers[i].name == except;
            assert(dl[i] == peers[i]);
            assert(has_name(dl, except));
        }
    }
}

/// The roster snapshot handed to a joiner, as executable code.
fn roster_excluding_exec(reg: &Registry, except: &Vec<u8>) -> (r: Vec<Vec<u8>>)
    ensures
        r.deep_view() == roster_excluding(reg@.peers, except@),
{
    let mut out: Vec<Vec<u8>> = Vec::new();
    let mut i: usize = 0;
    proof {
        lemma_names_deep_view_v(out);
        assert(out.deep_view() =~= roster_excluding(reg@.peers.take(0), except@));
    }
    while i < reg.peers.len()
        invariant
            i <= reg.peers@.len(),
            out.deep_view() == roster_excluding(reg@.peers.take(i as int), except@),
        decreases reg.peers@.len() - i,
    {
        let ghost out0 = out;
        proof {
            assert(reg@.peers.take(i as int + 1).drop_last() =~= reg@.peers.take(i as int));
            assert(reg@.peers.take(i as int + 1).last() == reg@.peers[i as int]);
        }
        if !bytes_eq(&reg.peers[i].name, except) {
            let name = copy_bytes(&reg.peers[i].name);
            proof {
                assert(name@ =~= reg@.peers[i as int].name);
            }
            out.push(name);
            proof {
                lemma_names_deep_view_v(out0);
                lemma_names_deep_view_v(out);
                assert(out.deep_view() =~= out0.deep_view().push(reg@.peers[i as int].name));
            }
        }
        i += 1;
    }
    proof {
        assert(reg@.peers.take(reg@.peers.len() as int) =~= reg@.peers);
    }
    out
}

/// Elementwise `deep_view` of a batch of datagrams.
proof fn lemma_datagrams_deep_view_v(v: Vec<Datagram>)
    ensures
        v.deep_view().len() == v@.len(),
        forall|i: int| 0 <= i < v@.len() ==> v.deep_view()[i] == v@[i]@,
{
}

/// Relays `payload` to every registered peer but `except`, as executable
/// code.
fn fanout_exec(reg: &Registry, except: &Vec<u8>, payload: &[u8]) -> (r: Vec<Datagram>)
    ensures
        r.deep_view() == fanout(reg@.peers, except@, payload@),
{
    let mut out: Vec<Datagram> = Vec::new();
    let mut i: usize = 0;
    proof {
        lemma_datagrams_deep_view_v(out);
        assert(out.deep_view() =~= fanout(reg@.peers.take(0), except@, payload@));
    }
    while i < reg.peers.len()
        invariant
            i <= reg.peers@.len(),
            out.deep_view() == fanout(reg@.peers.take(i as int), except@, payload@),
        decreases reg.peers@.len() - i,
    {
        let ghost out0 = out;
        proof {
            assert(reg@.peers.take(i as int + 1).drop_last() =~= reg@.peers.take(i as int));
            assert(reg@.peers.take(i as int + 1).last() == reg@.peers[i as int]);
        }
        if !bytes_eq(&reg.peers[i].name, except) {
            let dest = copy_bytes(&reg.peers[i].address);
            let body = slice_to_vec(payload);
            out.push(Datagram { dest, payload: body });
            proof {
                lemma_datagrams_deep_view_v(out0);
                lemma_datagrams_deep_view_v(out);
                assert(out.deep_view() =~= out0.deep_view().push(
                    DatagramV { dest: reg@.peers[i as int].address, payload: payload@ },
                ));
            }
        }
        i += 1;
    }
    proof {
        assert(reg@.peers.take(reg@.peers.len() as int) =~= reg@.peers);
    }
    out
}

/// Relays `payload` to every registered peer, as executable code.
fn fanout_all_exec(reg: &Registry, payload: &[u8]) -> (r: Vec<Datagram>)
    ensures
        r.deep_view() == fanout_all(reg@.peers, payload@),
{
    let mut out: Vec<Datagram> = Vec::new();
    let mut i: usize = 0;
    proof {
        lemma_datagrams_deep_view_v(out);
        assert(out.deep_view() =~= fanout_all(reg@.peers.take(0), payload@));
    }
    while i < reg.peers.len()
        invariant
            i <= reg.peers@.len(),
            out.deep_view() == fanout_all(reg@.peers.take(i as int), payload@),
        decreases reg.peers@.len() - i,
    {
        let ghost out0 = out;
        proof {
            assert(reg@.peers.take(i as int + 1).drop_last() =~= reg@.peers.take(i as int));
            assert(reg@.peers.take(i as int + 1).last() == reg@.peers[i as int]);
        }
        let dest = copy_bytes(&reg.peers[i].address);
        out.push(Datagram { dest, payload: slice_to_vec(payload) });
        proof {
            lemma_datagrams_deep_view_v(out0);
            lemma_datagrams_deep_view_v(out);
            assert(out.deep_view() =~= out0.deep_view().push(
                DatagramV { dest: reg@.peers[i as int].address, payload: payload@ },
            ));
        }
        i += 1;
    }
    proof {
        assert(reg@.peers.take(reg@.peers.len() as int) =~= reg@.peers);
    }
    out
}

/// `d` is `payload` addressed to some registered peer whose name is not
/// `except`.
pub open spec fn sent_to_peer_excluding(
    peers: Seq<PeerV>,
    except: Seq<u8>,
    payload: Seq<u8>,
    d: DatagramV,
) -> bool {
    exists|j: int|
        0 <= j < peers.len() && (#[trigger] peers[j]).name != except && d == (DatagramV {
            dest: peers[j].address,
            payload,
        })
}

/// Fan-out is sound and complete: every peer other than the excluded name
/// gets exactly the payload, and every outgoing datagram is addressed to
/// such a peer — the excluded sender is never echoed to.
pub proof fn lemma_fanout_membership(peers: Seq<PeerV>, except: Seq<u8>, payload: Seq<u8>)
    ensures
        forall|i: int|
            0 <= i < peers.len() && (#[trigger] peers[i].name) != except ==> fanout(
                peers,
                except,
                payload,
            ).contains((DatagramV { dest: peers[i].address, payload })),
        forall|k: int|
            0 <= k < fanout(peers, except, payload).len() ==> sent_to_peer_excluding(
                peers,
                except,
                payload,
                #[trigger] fanout(peers, except, payload)[k],
            ),
    decreases peers.len(),
{
    if peers.len() > 0 {
        let dl = peers.drop_last();
        let last = peers.last();
        lemma_fanout_membership(dl, except, payload);
        let sub = fanout(dl, except, payload);
        let whole = fanout(peers, except, payload);
        assert forall|i: int|
            0 <= i < peers.len() && peers[i].name != except implies whole.contains(
            (DatagramV { dest: peers[i].address, payload }),
        ) by {
            if i < peers.len() - 1 {
                assert(dl[i] == peers[i]);
                assert(sub.contains((DatagramV { dest: peers[i].address, payload })));
                let w = choose|w: int|
                    0 <= w < sub.len() && sub[w] == (DatagramV {
                        dest: peers[i].address,
                        payload,
                    });
                assert(whole[w] == (DatagramV { dest: peers[i].address, payload }));
            } else {
                assert(whole[whole.len() - 1] == (DatagramV { dest: last.address, payload }));
            }
        }
        assert forall|k: int| 0 <= k < whole.len() implies sent_to_peer_excluding(
            peers,
            except,
            payload,
            whole[k],
        ) by {
            if k < sub.len() {
                assert(whole[k] == sub[k]);
                assert(sent_to_peer_excluding(dl, except, payload, sub[k]));
                let j = choose|j: int|
                    0 <= j < dl.len() && (#[trigger] dl[j]).name != except && sub[k] == (
                    DatagramV { dest: dl[j].address, payload });
                assert(peers[j] == dl[j]);
                assert(peers[j].name != except && whole[k] == (DatagramV {
                    dest: peers[j].address,
                    payload,
                }));
            } else {
                assert(whole[k] == (DatagramV { dest: last.address, payload }));
                assert(peers[peers.len() - 1].name != except);
                assert(whole[k] == (DatagramV {
                    dest: peers[peers.len() - 1].address,
                    payload,
                }));
            }
        }
    }
}

/// Fan-out to every peer is exactly one copy of the payload per
/// registered peer, in registry order.
pub proof fn lemma_fanout_all_elems(peers: Seq<PeerV>, payload: Seq<u8>)
    ensures
        fanout_all(peers, payload).len() == peers.len(),
        forall|k: int|
            0 <= k < peers.len() ==> (#[trigger] fanout_all(peers, payload)[k]) == (DatagramV {
                dest: peers[k].address,
                payload,
            }),
    decreases peers.len(),
{
    if peers.len() > 0 {
        let dl = peers.drop_last();
        lemma_fanout_all_elems(dl, payload);
        assert forall|k: int| 0 <= k < peers.len() implies (#[trigger] fanout_all(
            peers,
            payload,
        )[k]) == (DatagramV { dest: peers[k].address, payload }) by {
            if k < peers.len() - 1 {
                assert(fanout_all(peers, payload)[k] == fanout_all(dl, payload)[k]);
                assert(dl[k] == peers[k]);
            }
        }
    }
}

/// Relay fan-out: a `PlayerMoved` relayed by the server reaches every
/// other registered peer byte-for-byte, and is never echoed back to the
/// peer it names as its sender.
pub proof fn lemma_relay_fan_out(
    reg: RegistryV,
    maze: Seq<Seq<i32>>,
    input: Seq<u8>,
    src: Seq<u8>,
    now: u64,
    sender: Seq<u8>,
)
    requires
        spec_decode(input) matches Some(MessageV::PlayerMoved(name, px, py, dx, dy)) && name
            == sender,
    ensures
        spec_relay(reg, maze, input, src, now).0 == reg,
        forall|i: int|
            0 <= i < reg.peers.len() && (#[trigger] reg.peers[i].name) != sender ==> spec_relay(
                reg,
                maze,
                input,
                src,
                now,
            ).1.contains((DatagramV { dest: reg.peers[i].address, payload: input })),
        forall|k: int|
            0 <= k < spec_relay(reg, maze, input, src, now).1.len() ==> sent_to_peer_excluding(
                reg.peers,
                sender,
                input,
                #[trigger] spec_relay(reg, maze, input, src, now).1[k],
            ),
{
    lemma_fanout_membership(reg.peers, sender, input);
    assert(spec_relay(reg, maze, input, src, now).1 == fanout(reg.peers, sender, input));
}

/// Shot relay: a `PlayerShot` is broadcast verbatim to every registered
/// peer — the shooter included — exactly once each, in registry order,
/// and the registry does not change.
pub proof fn lemma_shot_broadcast(
    reg: RegistryV,
    maze: Seq<Seq<i32>>,
    input: Seq<u8>,
    src: Seq<u8>,
    now: u64,
)
    requires
        spec_decode(input) matches Some(MessageV::PlayerShot(shooter, target)),
    ensures
        spec_relay(reg, maze, input, src, now).0 == reg,
        spec_relay(reg, maze, input, src, now).1.len() == reg.peers.len(),
        forall|k: int|
            0 <= k < reg.peers.len() ==> (#[trigger] spec_relay(reg, maze, input, src, now).1[k])
                == (DatagramV { dest: reg.peers[k].address, payload: input }),
{
    lemma_fanout_all_elems(reg.peers, input);
    assert(spec_relay(reg, maze, input, src, now).1 == fanout_all(reg.peers, input));
}

/// Join handshake: the relay's reaction to a `ClientJoined` opens with
/// exactly one `OpponentList` and one `Maze` addressed to the joiner, and
/// everything after those two is the join announcement broadcast to every
/// peer in registry order — so the joiner hears of the roster and the
/// maze before any broadcast concerning itself.
pub proof fn lemma_join_handshake(
    reg: RegistryV,
    maze: Seq<Seq<i32>>,
    input: Seq<u8>,
    src: Seq<u8>,
    now: u64,
    name: Seq<u8>,
    address: Seq<u8>,
)
    requires
        spec_decode(input) == Some(MessageV::ClientJoined(name, address)),
    ensures
        spec_relay(reg, maze, input, src, now).0 == spec_register(reg, name, address, now),
        spec_relay(reg, maze, input, src, now).1.len() == 2 + spec_register(
            reg,
            name,
            address,
            now,
        ).peers.len(),
        spec_relay(reg, maze, input, src, now).1[0] == (DatagramV {
            dest: address,
            payload: encoded_msg(
                MessageV::OpponentList(
                    roster_excluding(spec_register(reg, name, address, now).peers, name),
                ),
            ),
        }),
        spec_relay(reg, maze, input, src, now).1[1] == (DatagramV {
            dest: address,
            payload: encoded_msg(MessageV::Maze(maze)),
        }),
        forall|k: int|
            2 <= k < spec_relay(reg, maze, input, src, now).1.len() ==> (#[trigger] spec_relay(
                reg,
                maze,
                input,
                src,
                now,
            ).1[k]) == (DatagramV {
                dest: spec_register(reg, name, address, now).peers[k - 2].address,
                payload: input,
            }),
{
    let reg2 = spec_register(reg, name, address, now);
    lemma_fanout_all_elems(reg2.peers, input);
    let out = spec_relay(reg, maze, input, src, now).1;
    let fo = fanout_all(reg2.peers, input);
    let replies = seq![
        DatagramV {
            dest: address,
            payload: encoded_msg(MessageV::OpponentList(roster_excluding(reg2.peers, name))),
        },
        DatagramV { dest: address, payload: encoded_msg(MessageV::Maze(maze)) },
    ];
    assert(out == replies + fo);
    assert(out[0] == replies[0]);
    assert(out[1] == replies[1]);
    assert forall|k: int| 2 <= k < out.len() implies (#[trigger] out[k]) == (DatagramV {
        dest: reg2.peers[k - 2].address,
        payload: input,
    }) by {
        assert(out[k] == fo[k - 2]);
        assert(fo[k - 2] == (DatagramV { dest: reg2.peers[k - 2].address, payload: input }));
    }
}

} // verus!
