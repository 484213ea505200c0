//! The client side of the session: the roster of participant replicas,
//! the application of each received message to it, the join handshake's
//! progress, and the datagrams a client sends.
//!
//! The receive loop around this module only moves bytes: it decodes each
//! datagram and hands the message over a channel to the simulation loop,
//! which calls [`Roster::apply`] once per message. Every decision the
//! network threads need is made here, as a function of the old state and
//! the message.

use vstd::prelude::*;
use crate::codec::{bytes_wf, encode, encoded_msg};
use crate::maze::Maze;
use crate::msg::{Direction, Message, MessageV};
use crate::player::{grid_rect, PlayerState, PlayerStateV};
use crate::registry::{bytes_eq, copy_bytes};

verus! {

/// The views of a list of participants.
pub open spec fn players_view(v: Seq<PlayerState>) -> Seq<PlayerStateV> {
    Seq::new(v.len(), |i: int| v[i]@)
}

/// The names of `names` that are not `me`, in order: the opponents a
/// roster snapshot adds.
pub open spec fn added_names(names: Seq<Seq<u8>>, me: Seq<u8>) -> Seq<Seq<u8>>
    decreases names.len(),
{
    if names.len() == 0 {
        Seq::empty()
    } else {
        let rest = added_names(names.drop_last(), me);
        if names.last() == me {
            rest
        } else {
            rest.push(names.last())
        }
    }
}

/// The opponents that survive a departure: all but those named `name`.
pub open spec fn remaining_opponents(ops: Seq<PlayerStateV>, name: Seq<u8>) -> Seq<PlayerStateV>
    decreases ops.len(),
{
    if ops.len() == 0 {
        Seq::empty()
    } else {
        let rest = remaining_opponents(ops.drop_last(), name);
        if ops.last().name == name {
            rest
        } else {
            rest.push(ops.last())
        }
    }
}

/// What a `PlayerMoved` for `name` does to one replica: a wholesale
/// overwrite of position and facing, last write wins.
pub open spec fn moved_update(
    p: PlayerStateV,
    name: Seq<u8>,
    px: u32,
    py: u32,
    dx: i32,
    dy: i32,
) -> PlayerStateV {
    if p.name == name {
        PlayerStateV {
            pos_x: px,
            pos_y: py,
            dir: Direction::spec_from_vec((dx, dy)),
            ..p
        }
    } else {
        p
    }
}

/// What a `PlayerShot` does to one participant's score: the shooter
/// earns ten, the target loses five, everyone else keeps theirs.
pub open spec fn shot_update(p: PlayerStateV, shooter: Seq<u8>, target: Seq<u8>) -> PlayerStateV {
    if p.name == shooter {
        PlayerStateV { score: (p.score + 10) as i32, ..p }
    } else if p.name == target {
        PlayerStateV { score: (p.score - 5) as i32, ..p }
    } else {
        p
    }
}

/// A newly added replica: the given name, the origin tile, score zero,
/// allowed to shoot.
pub open spec fn fresh_replica(p: PlayerStateV, name: Seq<u8>) -> bool {
    &&& p.name == name
    &&& p.pos_x == 0
    &&& p.pos_y == 0
    &&& p.score == 0
    &&& p.can_shoot
}

/// The x coordinate `e` tiles from `x` towards `d`.
pub open spec fn cell_x(x: u32, d: Direction, e: int) -> int {
    match d {
        Direction::Right => x + e,
        Direction::Left => x - e,
        Direction::Up => x as int,
        Direction::Down => x as int,
    }
}

/// The y coordinate `e` tiles from `y` towards `d`.
pub open spec fn cell_y(y: u32, d: Direction, e: int) -> int {
    match d {
        Direction::Down => y + e,
        Direction::Up => y - e,
        Direction::Right => y as int,
        Direction::Left => y as int,
    }
}

/// The tile exists and is walkable.
pub open spec fn open_cell(maze: Seq<Seq<i32>>, cx: int, cy: int) -> bool {
    0 <= cy < maze.len() && 0 <= cx < maze[cy].len() && maze[cy][cx] == 0
}

/// Every border tile is a wall, so a ray from an open tile always hits
/// one before leaving the grid.
pub open spec fn closed_border(maze: Seq<Seq<i32>>) -> bool {
    &&& forall|j: int| 0 <= j < maze[0].len() ==> (#[trigger] maze[0][j]) != 0
    &&& forall|j: int| 0 <= j < maze[0].len() ==> (#[trigger] maze[maze.len() - 1][j]) != 0
    &&& forall|i: int| 0 <= i < maze.len() ==> (#[trigger] maze[i][0]) != 0
    &&& forall|i: int| 0 <= i < maze.len() ==> (#[trigger] maze[i][maze[0].len() - 1]) != 0
}

/// The lowest opponent index at tile `(cx, cy)`, scanning from `i` on.
pub open spec fn first_opp_at(ops: Seq<PlayerStateV>, cx: int, cy: int, i: int) -> Option<int>
    decreases ops.len() - i,
{
    if i < 0 || i >= ops.len() {
        None
    } else if ops[i].pos_x == cx && ops[i].pos_y == cy {
        Some(i)
    } else {
        first_opp_at(ops, cx, cy, i + 1)
    }
}

/// The line of sight from `(x, y)` towards `d` is unobstructed for every
/// distance below `dist`: each of those tiles is open and empty.
pub open spec fn clear_until(
    maze: Seq<Seq<i32>>,
    ops: Seq<PlayerStateV>,
    x: u32,
    y: u32,
    d: Direction,
    dist: int,
) -> bool {
    forall|e: int|
        1 <= e < dist ==> open_cell(maze, cell_x(x, d, e), #[trigger] cell_y(y, d, e))
            && first_opp_at(ops, cell_x(x, d, e), cell_y(y, d, e), 0) is None
}

/// What the simulation loop must do after applying one message.
pub enum ApplyEffect {
    /// Nothing beyond the roster change.
    Quiet,
    /// The local player was hit: respawn it and announce the new position.
    RespawnAndAnnounce,
    /// The authoritative maze arrived: install it, spawn somewhere free,
    /// and announce the position.
    InstallMaze(Vec<Vec<i32>>),
    /// The connection is gone: leave the game and fall back to the menu.
    SessionOver,
}

/// The client's replica state: the local player and one replica per
/// known opponent.
pub struct Roster {
    pub player: PlayerState,
    pub opponents: Vec<PlayerState>,
}

impl Roster {
    pub open spec fn wf(&self) -> bool {
        &&& self.player.wf()
        &&& forall|i: int| 0 <= i < self.opponents@.len() ==> (#[trigger] self.opponents@[i]).wf()
    }

    pub open spec fn opponents_view(&self) -> Seq<PlayerStateV> {
        players_view(self.opponents@)
    }

    /// A roster with only the local player in it.
    pub fn new(player: PlayerState) -> (r: Roster)
        requires
            player.wf(),
        ensures
            r.wf(),
            r.player == player,
            r.opponents_view() == Seq::<PlayerStateV>::empty(),
    {
        let r = Roster { player, opponents: Vec::new() };
        proof {
            assert(r.opponents_view() =~= Seq::<PlayerStateV>::empty());
        }
        r
    }

    /// Adds one replica per listed name, skipping the local player's own
    /// name; each new replica starts at the origin tile with score zero
    /// and an arbitrary facing.
    pub fn add_opponents(&mut self, list: &Vec<Vec<u8>>)
        requires
            old(self).wf(),
        ensures
            final(self).wf(),
            final(self).player == old(self).player,
            final(self).opponents_view().len() == old(self).opponents_view().len() + added_names(
                list.deep_view(),
                old(self).player@.name,
            ).len(),
            forall|k: int|
                0 <= k < old(self).opponents_view().len() ==> final(self).opponents_view()[k]
                    == old(self).opponents_view()[k],
            forall|k: int|
                0 <= k < added_names(list.deep_view(), old(self).player@.name).len()
                    ==> #[trigger] fresh_replica(
                    final(self).opponents_view()[old(self).opponents_view().len() + k],
                    added_names(list.deep_view(), old(self).player@.name)[k],
                ),
    {
        proof {
            crate::codec::lemma_names_deep_view_v(*list);
        }
        let ghost dv = list.deep_view();
        let ghost base = self.opponents_view();
        let mut i: usize = 0;
        while i < list.len()
            invariant
                i <= list@.len(),
                dv == list.deep_view(),
                dv.len() == list@.len(),
                forall|k: int| 0 <= k < list@.len() ==> dv[k] == list@[k]@,
                self.wf(),
                self.player == old(self).player,
                base == old(self).opponents_view(),
                self.opponents_view().len() == base.len() + added_names(
                    dv.take(i as int),
                    self.player@.name,
                ).len(),
                forall|k: int|
                    0 <= k < base.len() ==> self.opponents_view()[k] == base[k],
                forall|k: int|
                    0 <= k < added_names(dv.take(i as int), self.player@.name).len()
                        ==> #[trigger] fresh_replica(
                        self.opponents_view()[base.len() + k],
                        added_names(dv.take(i as int), self.player@.name)[k],
                    ),
            decreases list@.len() - i,
        {
            let ghost before = self.opponents_view();
            proof {
                assert(dv.take(i as int + 1).drop_last() =~= dv.take(i as int));
                assert(dv.take(i as int + 1).last() == dv[i as int]);
            }
            if !bytes_eq(&list[i], &self.player.name) {
                let name = copy_bytes(&list[i]);
                let newcomer = PlayerState::new(name, (0, 0));
                self.opponents.push(newcomer);
                proof {
                    assert(self.opponents_view() =~= before.push(
                        self.opponents@[self.opponents@.len() - 1]@,
                    ));
                }
            }
            i += 1;
        }
        proof {
            assert(dv.take(dv.len() as int) =~= dv);
        }
    }

    /// Applies a relayed shot to every participant's score and reports
    /// whether the local player was the one hit.
    pub fn register_shooting(&mut self, shooter: &Vec<u8>, target: &Vec<u8>) -> (got_shot: bool)
        requires
            old(self).wf(),
            i32::MIN + 5 <= old(self).player@.score <= i32::MAX - 10,
            forall|i: int|
                0 <= i < old(self).opponents_view().len() ==> i32::MIN + 5 <= (
                #[trigger] old(self).opponents_view()[i]).score <= i32::MAX - 10,
        ensures
            final(self).wf(),
            final(self).player@ == shot_update(old(self).player@, shooter@, target@),
            final(self).opponents_view().len() == old(self).opponents_view().len(),
            forall|k: int|
                0 <= k < old(self).opponents_view().len() ==> final(self).opponents_view()[k]
                    == shot_update(#[trigger] old(self).opponents_view()[k], shooter@, target@),
            got_shot == (old(self).player@.name != shooter@ && old(self).player@.name == target@),
    {
        let ghost base = self.opponents_view();
        let n = self.opponents.len();
        let mut i: usize = 0;
        while i < n
            invariant
                i <= n,
                n == self.opponents@.len(),
                self.wf(),
                self.player == old(self).player,
                base == old(self).opponents_view(),
                self.opponents_view().len() == base.len(),
                forall|k: int|
                    0 <= k < base.len() ==> i32::MIN + 5 <= (#[trigger] base[k]).score <= i32::MAX
                        - 10,
                forall|k: int|
                    i <= k < n ==> self.opponents@[k] == old(self).opponents@[k],
                forall|k: int|
                    0 <= k < i ==> self.opponents_view()[k] == shot_update(
                        base[k],
                        shooter@,
                        target@,
                    ),
            decreases n - i,
        {
            let ghost ops0 = self.opponents@;
            proof {
                assert(self.opponents@[i as int] == old(self).opponents@[i as int]);
                assert(self.opponents@[i as int]@ == base[i as int]);
            }
            let slot = vstd::std_specs::vec::vec_index_mut(&mut self.opponents, i);
            if bytes_eq(&slot.name, shooter) {
                slot.shot_opponent();
            } else if bytes_eq(&slot.name, target) {
                slot.got_shot();
            }
            proof {
                assert(self.opponents@ =~= ops0.update(i as int, self.opponents@[i as int]));
                assert(self.opponents@[i as int]@ == shot_update(base[i as int], shooter@, target@));
                assert forall|k: int| 0 <= k < n implies (#[trigger] self.opponents@[k]).wf() by {
                    if k != i {
                        assert(self.opponents@[k] == ops0[k]);
                    }
                }
                assert forall|k: int| 0 <= k <= i implies self.opponents_view()[k] == shot_update(
                    base[k],
                    shooter@,
                    target@,
                ) by {
                    if k < i {
                        assert(self.opponents@[k] == ops0[k]);
                        assert(players_view(ops0)[k] == ops0[k]@);
                        assert(players_view(ops0)[k] == shot_update(base[k], shooter@, target@));
                    }
                }
            }
            i += 1;
        }
        if bytes_eq(&self.player.name, shooter) {
            self.player.shot_opponent();
            false
        } else if bytes_eq(&self.player.name, target) {
            self.player.got_shot();
            true
        } else {
            false
        }
    }

    /// Overwrites the position and facing of every replica named `name`,
    /// as the wholesale last-write-wins rule says.
    fn apply_move(&mut self, name: &Vec<u8>, px: u32, py: u32, dx: i32, dy: i32)
        requires
            old(self).wf(),
        ensures
            final(self).wf(),
            final(self).player == old(self).player,
            final(self).opponents_view().len() == old(self).opponents_view().len(),
            forall|k: int|
                0 <= k < old(self).opponents_view().len() ==> final(self).opponents_view()[k]
                    == moved_update(
                    #[trigger] old(self).opponents_view()[k],
                    name@,
                    px,
                    py,
                    dx,
                    dy,
                ),
    {
        let ghost base = self.opponents_view();
        let n = self.opponents.len();
        let mut i: usize = 0;
        while i < n
            invariant
                i <= n,
                n == self.opponents@.len(),
                self.wf(),
                self.player == old(self).player,
                base == old(self).opponents_view(),
                self.opponents_view().len() == base.len(),
                forall|k: int|
                    i <= k < n ==> self.opponents@[k] == old(self).opponents@[k],
                forall|k: int|
                    0 <= k < i ==> self.opponents_view()[k] == moved_update(
                        base[k],
                        name@,
                        px,
                        py,
                        dx,
                        dy,
                    ),
            decreases n - i,
        {
            let ghost ops0 = self.opponents@;
            proof {
                assert(self.opponents@[i as int] == old(self).opponents@[i as int]);
                assert(self.opponents@[i as int]@ == base[i as int]);
            }
            let slot = vstd::std_specs::vec::vec_index_mut(&mut self.opponents, i);
            if bytes_eq(&slot.name, name) {
                slot.pos_x = px;
                slot.pos_y = py;
                slot.dir = Direction::from_vec(&(dx, dy));
            }
            proof {
                assert(self.opponents@ =~= ops0.update(i as int, self.opponents@[i as int]));
                assert(self.opponents@[i as int]@ == moved_update(
                    base[i as int],
                    name@,
                    px,
                    py,
                    dx,
                    dy,
                ));
                assert forall|k: int| 0 <= k < n implies (#[trigger] self.opponents@[k]).wf() by {
                    if k != i {
                        assert(self.opponents@[k] == ops0[k]);
                    }
                }
                assert forall|k: int| 0 <= k <= i implies self.opponents_view()[k] == moved_update(
                    base[k],
                    name@,
                    px,
                    py,
                    dx,
                    dy,
                ) by {
                    if k < i {
                        assert(self.opponents@[k] == ops0[k]);
                        assert(players_view(ops0)[k] == ops0[k]@);
                        assert(players_view(ops0)[k] == moved_update(base[k], name@, px, py, dx, dy));
                    }
                }
            }
            i += 1;
        }
    }

    /// Drops every replica named `name`: the peer was evicted, and its
    /// state goes with its registry record.
    fn apply_departure(&mut self, name: &Vec<u8>)
        requires
            old(self).wf(),
        ensures
            final(self).wf(),
            final(self).player == old(self).player,
            final(self).opponents_view() == remaining_opponents(
                old(self).opponents_view(),
                name@,
            ),
    {
        let ghost pv = self.opponents_view();
        let mut kept: Vec<PlayerState> = Vec::new();
        let mut rest: Vec<PlayerState> = Vec::new();
        core::mem::swap(&mut rest, &mut self.opponents);
        let ghost total = pv.len();
        let ghost mut j: int = 0;
        proof {
            assert(players_view(kept@) =~= remaining_opponents(pv.take(0), name@));
        }
        while rest.len() > 0
            invariant
                0 <= j <= total,
                total == pv.len(),
                rest@.len() == total - j,
                forall|k: int| 0 <= k < rest@.len() ==> rest@[k] == old(self).opponents@[j + k],
                forall|k: int| 0 <= k < total ==> pv[k] == old(self).opponents@[k]@,
                forall|k: int| 0 <= k < total ==> (#[trigger] old(self).opponents@[k]).wf(),
                forall|k: int| 0 <= k < kept@.len() ==> (#[trigger] kept@[k]).wf(),
                players_view(kept@) == remaining_opponents(pv.take(j), name@),
            decreases rest@.len(),
        {
            let ghost kept0 = kept@;
            let p = rest.remove(0);
            proof {
                assert(p == old(self).opponents@[j]);
                assert(pv.take(j + 1).drop_last() =~= pv.take(j));
                assert(pv.take(j + 1).last() == pv[j]);
                assert forall|k: int| 0 <= k < rest@.len() implies rest@[k]
                    == old(self).opponents@[j + 1 + k] by {}
            }
            if !bytes_eq(&p.name, name) {
                kept.push(p);
                proof {
                    assert(players_view(kept@) =~= players_view(kept0).push(pv[j]));
                }
            }
            proof {
                j = j + 1;
            }
        }
        self.opponents = kept;
        proof {
            assert(pv.take(total as int) =~= pv);
        }
    }

    /// Applies one received message to the roster — the dispatch the
    /// simulation loop runs once per queued message — and says what else
    /// the caller must do.
    pub fn apply(&mut self, m: Message) -> (effect: ApplyEffect)
        requires
            old(self).wf(),
            m@ matches MessageV::PlayerShot(shooter, target) ==> i32::MIN + 5
                <= old(self).player@.score <= i32::MAX - 10 && (forall|i: int|
                0 <= i < old(self).opponents_view().len() ==> i32::MIN + 5 <= (
                #[trigger] old(self).opponents_view()[i]).score <= i32::MAX - 10),
        ensures
            final(self).wf(),
            m@ matches MessageV::ClientJoined(n, a) ==> {
                &&& final(self).player == old(self).player
                &&& (effect is Quiet)
                &&& (n == old(self).player@.name ==> final(self).opponents_view()
                    == old(self).opponents_view())
                &&& (n != old(self).player@.name ==> final(self).opponents_view().len()
                    == old(self).opponents_view().len() + 1 && (forall|k: int|
                    0 <= k < old(self).opponents_view().len() ==> final(self).opponents_view()[k]
                        == old(self).opponents_view()[k]) && {
                    let p = final(self).opponents_view().last();
                    &&& p.name == n
                    &&& p.pos_x == 0
                    &&& p.pos_y == 0
                    &&& p.score == 0
                })
            },
            m@ matches MessageV::OpponentList(names) ==> {
                &&& final(self).player == old(self).player
                &&& (effect is Quiet)
                &&& final(self).opponents_view().len() == old(self).opponents_view().len()
                    + added_names(names, old(self).player@.name).len()
                &&& (forall|k: int|
                    0 <= k < old(self).opponents_view().len() ==> final(self).opponents_view()[k]
                        == old(self).opponents_view()[k])
                &&& (forall|k: int|
                    0 <= k < added_names(names, old(self).player@.name).len()
                        ==> #[trigger] fresh_replica(
                        final(self).opponents_view()[old(self).opponents_view().len() + k],
                        added_names(names, old(self).player@.name)[k],
                    ))
            },
            m@ matches MessageV::PlayerMoved(n, px, py, dx, dy) ==> {
                &&& final(self).player == old(self).player
                &&& (effect is Quiet)
                &&& final(self).opponents_view().len() == old(self).opponents_view().len()
                &&& (forall|k: int|
                    0 <= k < old(self).opponents_view().len() ==> final(self).opponents_view()[k]
                        == moved_update(
                        #[trigger] old(self).opponents_view()[k],
                        n,
                        px,
                        py,
                        dx,
                        dy,
                    ))
            },
            m@ matches MessageV::PlayerShot(shooter, target) ==> {
                &&& final(self).player@ == shot_update(old(self).player@, shooter, target)
                &&& final(self).opponents_view().len() == old(self).opponents_view().len()
                &&& (forall|k: int|
                    0 <= k < old(self).opponents_view().len() ==> final(self).opponents_view()[k]
                        == shot_update(#[trigger] old(self).opponents_view()[k], shooter, target))
                &&& (effect is RespawnAndAnnounce) == (old(self).player@.name != shooter
                    && old(self).player@.name == target)
                &&& (effect is RespawnAndAnnounce || effect is Quiet)
            },
            m@ matches MessageV::PlayerLeft(n) ==> {
                &&& final(self).player == old(self).player
                &&& (effect is Quiet)
                &&& final(self).opponents_view() == remaining_opponents(
                    old(self).opponents_view(),
                    n,
                )
            },
            m@ matches MessageV::Maze(grid) ==> {
                &&& final(self).player == old(self).player
                &&& final(self).opponents_view() == old(self).opponents_view()
                &&& (effect matches ApplyEffect::InstallMaze(g) && g.deep_view() == grid)
            },
            m@ is ConnectionLost ==> final(self).player == old(self).player
                && final(self).opponents_view() == old(self).opponents_view()
                && (effect is SessionOver),
            m@ is Ping || m@ is Pong ==> final(self).player == old(self).player
                && final(self).opponents_view() == old(self).opponents_view()
                && (effect is Quiet),
    {
        match m {
            Message::ClientJoined(name, _address) => {
                if !bytes_eq(&name, &self.player.name) {
                    let ghost before = self.opponents_view();
                    let newcomer = PlayerState::new(name, (0, 0));
                    self.opponents.push(newcomer);
                    proof {
                        assert(self.opponents_view() =~= before.push(
                            self.opponents@[self.opponents@.len() - 1]@,
                        ));
                    }
                }
                ApplyEffect::Quiet
            },
            Message::OpponentList(names) => {
                self.add_opponents(&names);
                proof {
                    crate::codec::lemma_names_deep_view_v(names);
                    assert(names.deep_view() =~= (m@)->OpponentList_0);
                }
                ApplyEffect::Quiet
            },
            Message::PlayerMoved(name, px, py, dx, dy) => {
                self.apply_move(&name, px, py, dx, dy);
                ApplyEffect::Quiet
            },
            Message::PlayerShot(shooter, target) => {
                let got_shot = self.register_shooting(&shooter, &target);
                if got_shot {
                    ApplyEffect::RespawnAndAnnounce
                } else {
                    ApplyEffect::Quiet
                }
            },
            Message::PlayerLeft(name) => {
                self.apply_departure(&name);
                ApplyEffect::Quiet
            },
            Message::Maze(grid) => ApplyEffect::InstallMaze(grid),
            Message::ConnectionLost => ApplyEffect::SessionOver,
            Message::Ping(_name) => ApplyEffect::Quiet,
            Message::Pong => ApplyEffect::Quiet,
        }
    }


    /// The first opponent standing on tile `(cx, cy)`, if any.
    fn find_opponent_at(&self, cx: u32, cy: u32) -> (r: Option<usize>)
        ensures
            match r {
                Some(i) => first_opp_at(self.opponents_view(), cx as int, cy as int, 0) == Some(
                    i as int,
                ),
                None => first_opp_at(self.opponents_view(), cx as int, cy as int, 0) is None,
            },
    {
        let ghost ops = self.opponents_view();
        let n = self.opponents.len();
        let mut j: usize = 0;
        while j < n
            invariant
                j <= n,
                n == self.opponents@.len(),
                ops == self.opponents_view(),
                first_opp_at(ops, cx as int, cy as int, 0) == first_opp_at(
                    ops,
                    cx as int,
                    cy as int,
                    j as int,
                ),
            decreases n - j,
        {
            if self.opponents[j].pos_x == cx && self.opponents[j].pos_y == cy {
                proof {
                    assert(ops[j as int] == self.opponents@[j as int]@);
                }
                return Some(j);
            }
            proof {
                assert(ops[j as int] == self.opponents@[j as int]@);
            }
            j += 1;
        }
        None
    }

    /// Walks the local player's line of sight, one tile at a time, and
    /// returns the first opponent standing on it — or `None` if a wall
    /// comes first. Exactly the targeting the shoot key uses.
    pub fn closest_opponent(&self, maze: &Maze) -> (r: Option<usize>)
        requires
            grid_rect(maze@),
            closed_border(maze@),
            open_cell(maze@, self.player@.pos_x as int, self.player@.pos_y as int),
        ensures
            match r {
                Some(i) => exists|dist: int|
                    1 <= dist && #[trigger] clear_until(
                        maze@,
                        self.opponents_view(),
                        self.player@.pos_x,
                        self.player@.pos_y,
                        self.player@.dir,
                        dist,
                    ) && open_cell(
                        maze@,
                        cell_x(self.player@.pos_x, self.player@.dir, dist),
                        cell_y(self.player@.pos_y, self.player@.dir, dist),
                    ) && first_opp_at(
                        self.opponents_view(),
                        cell_x(self.player@.pos_x, self.player@.dir, dist),
                        cell_y(self.player@.pos_y, self.player@.dir, dist),
                        0,
                    ) == Some(i as int),
                None => exists|dist: int|
                    1 <= dist && #[trigger] clear_until(
                        maze@,
                        self.opponents_view(),
                        self.player@.pos_x,
                        self.player@.pos_y,
                        self.player@.dir,
                        dist,
                    ) && !open_cell(
                        maze@,
                        cell_x(self.player@.pos_x, self.player@.dir, dist),
                        cell_y(self.player@.pos_y, self.player@.dir, dist),
                    ),
            },
    {
        let x0 = self.player.pos_x;
        let y0 = self.player.pos_y;
        let dir = self.player.dir;
        let v = dir.vec();
        let ghost ops = self.opponents_view();
        let mut cx = x0;
        let mut cy = y0;
        let ghost mut e: int = 0;
        loop
            invariant
                grid_rect(maze@),
                closed_border(maze@),
                x0 == self.player@.pos_x,
                y0 == self.player@.pos_y,
                dir == self.player@.dir,
                v == dir.spec_vec(),
                ops == self.opponents_view(),
                0 <= e <= 0xFFFF,
                cx as int == cell_x(x0, dir, e),
                cy as int == cell_y(y0, dir, e),
                x0 < maze@[0].len(),
                y0 < maze@.len(),
                open_cell(maze@, cx as int, cy as int),
                clear_until(maze@, ops, x0, y0, dir, e + 1),
            decreases 0x10000 - e,
        {
            proof {
                // an open tile is never on the border, so the next tile
                // exists, and the walked axis stays strictly monotonic
                assert(maze@[cy as int].len() == maze@[0].len());
                assert(0 < cy < maze@.len() - 1) by {
                    if cy == 0 {
                        assert(maze@[0][cx as int] != 0);
                    }
                    if cy as int == maze@.len() - 1 {
                        assert(maze@[maze@.len() - 1][cx as int] != 0);
                    }
                }
                assert(0 < cx < maze@[0].len() - 1) by {
                    if cx == 0 {
                        assert(maze@[cy as int][0] != 0);
                    }
                    if cx as int == maze@[0].len() - 1 {
                        assert(maze@[cy as int][maze@[0].len() - 1] != 0);
                    }
                }
                assert(e < 0xFFFF) by {
                    match dir {
                        Direction::Right => {},
                        Direction::Left => {},
                        Direction::Down => {},
                        Direction::Up => {},
                    }
                }
            }
            let nx = if v.0 >= 0 {
                cx + (v.0 as u32)
            } else {
                cx - 1
            };
            let ny = if v.1 >= 0 {
                cy + (v.1 as u32)
            } else {
                cy - 1
            };
            proof {
                assert(nx as int == cell_x(x0, dir, e + 1));
                assert(ny as int == cell_y(y0, dir, e + 1));
                assert(ny < maze@.len() && nx < maze@[ny as int].len());
            }
            proof {
                assert(maze@[ny as int] == maze.grid@[ny as int]@);
            }
            if maze.grid[ny as usize][nx as usize] != 0 {
                proof {
                    assert(!open_cell(maze@, nx as int, ny as int));
                }
                return None;
            }
            match self.find_opponent_at(nx, ny) {
                Some(i) => {
                    return Some(i);
                },
                None => {},
            }
            proof {
                assert forall|t: int|
                    1 <= t < e + 2 implies open_cell(maze@, cell_x(x0, dir, t), #[trigger] cell_y(
                    y0,
                    dir,
                    t,
                )) && first_opp_at(ops, cell_x(x0, dir, t), cell_y(y0, dir, t), 0) is None by {
                    if t == e + 1 {
                        assert(cell_x(x0, dir, t) == nx as int && cell_y(y0, dir, t) == ny as int);
                    }
                }
                e = e + 1;
            }
            cx = nx;
            cy = ny;
        }
    }

    /// Resolves the shoot key: the shot names the local player and the
    /// closest opponent in the line of sight, and comes back exactly when
    /// such an opponent exists — a wall first means no shot event.
    pub fn shoot(&self, maze: &Maze) -> (r: Option<(Vec<u8>, Vec<u8>)>)
        requires
            grid_rect(maze@),
            closed_border(maze@),
            open_cell(maze@, self.player@.pos_x as int, self.player@.pos_y as int),
        ensures
            match r {
                Some(p) => p.0@ == self.player@.name && (exists|dist: int|
                    1 <= dist && #[trigger] clear_until(
                        maze@,
                        self.opponents_view(),
                        self.player@.pos_x,
                        self.player@.pos_y,
                        self.player@.dir,
                        dist,
                    ) && open_cell(
                        maze@,
                        cell_x(self.player@.pos_x, self.player@.dir, dist),
                        cell_y(self.player@.pos_y, self.player@.dir, dist),
                    ) && (first_opp_at(
                        self.opponents_view(),
                        cell_x(self.player@.pos_x, self.player@.dir, dist),
                        cell_y(self.player@.pos_y, self.player@.dir, dist),
                        0,
                    ) matches Some(i) && p.1@ == self.opponents_view()[i].name)),
                None => exists|dist: int|
                    1 <= dist && #[trigger] clear_until(
                        maze@,
                        self.opponents_view(),
                        self.player@.pos_x,
                        self.player@.pos_y,
                        self.player@.dir,
                        dist,
                    ) && !open_cell(
                        maze@,
                        cell_x(self.player@.pos_x, self.player@.dir, dist),
                        cell_y(self.player@.pos_y, self.player@.dir, dist),
                    ),
            },
    {
        match self.closest_opponent(maze) {
            Some(i) => {
                proof {
                    let dist = choose|dist: int|
                        1 <= dist && #[trigger] clear_until(
                            maze@,
                            self.opponents_view(),
                            self.player@.pos_x,
                            self.player@.pos_y,
                            self.player@.dir,
                            dist,
                        ) && open_cell(
                            maze@,
                            cell_x(self.player@.pos_x, self.player@.dir, dist),
                            cell_y(self.player@.pos_y, self.player@.dir, dist),
                        ) && first_opp_at(
                            self.opponents_view(),
                            cell_x(self.player@.pos_x, self.player@.dir, dist),
                            cell_y(self.player@.pos_y, self.player@.dir, dist),
                            0,
                        ) == Some(i as int);
                    lemma_first_opp_at_in_range(
                        self.opponents_view(),
                        cell_x(self.player@.pos_x, self.player@.dir, dist),
                        cell_y(self.player@.pos_y, self.player@.dir, dist),
                        0,
                    );
                    assert(self.opponents_view()[i as int].name == self.opponents@[i as int]@.name);
                }
                let shooter = copy_bytes(&self.player.name);
                let target = copy_bytes(&self.opponents[i].name);
                Some((shooter, target))
            },
            None => None,
        }
    }

    /// Moves the local player to a random free tile of the maze; reports
    /// whether a free tile was found.
    pub fn respawn(&mut self, maze: &Maze) -> (moved: bool)
        requires
            old(self).wf(),
            maze@.len() > 15,
            forall|i: int| 0 <= i < maze@.len() ==> (#[trigger] maze@[i]).len() > 32,
        ensures
            final(self).wf(),
            final(self).opponents_view() == old(self).opponents_view(),
            moved ==> final(self).player@.pos_y < maze@.len() && final(self).player@.pos_x
                < maze@[final(self).player@.pos_y as int].len()
                && maze@[final(self).player@.pos_y as int][final(self).player@.pos_x as int] == 0
                && final(self).player@ == (PlayerStateV {
                pos_x: final(self).player@.pos_x,
                pos_y: final(self).player@.pos_y,
                ..old(self).player@
            }),
            !moved ==> final(self).player == old(self).player,
    {
        match maze.get_random_location() {
            Some((x, y)) => {
                self.player.pos_x = x;
                self.player.pos_y = y;
                true
            },
            None => false,
        }
    }
}

/// A found opponent index is a valid index.
proof fn lemma_first_opp_at_in_range(ops: Seq<PlayerStateV>, cx: int, cy: int, i: int)
    ensures
        first_opp_at(ops, cx, cy, i) matches Some(j) ==> i <= j < ops.len() && ops[j].pos_x == cx
            && ops[j].pos_y == cy,
    decreases ops.len() - i,
{
    if 0 <= i < ops.len() {
        lemma_first_opp_at_in_range(ops, cx, cy, i + 1);
    }
}

/// Tracks the join handshake: the session is ready once the server's
/// roster and maze have both been observed on the channel.
pub struct Handshake {
    pub roster_seen: bool,
    pub maze_seen: bool,
}

impl Handshake {
    /// A handshake that has seen nothing yet.
    pub fn new() -> (r: Handshake)
        ensures
            !r.roster_seen,
            !r.maze_seen,
    {
        Handshake { roster_seen: false, maze_seen: false }
    }

    /// Notes one observed message: an `OpponentList` proves the roster
    /// arrived, a `Maze` proves the level arrived; nothing else counts.
    pub fn observe(&mut self, m: &Message)
        ensures
            final(self).roster_seen == (old(self).roster_seen || m@ is OpponentList),
            final(self).maze_seen == (old(self).maze_seen || m@ is Maze),
    {
        match m {
            Message::OpponentList(_) => {
                self.roster_seen = true;
            },
            Message::Maze(_) => {
                self.maze_seen = true;
            },
            _ => {},
        }
    }

    /// The handshake is complete: both responses have been observed.
    pub fn is_ready(&self) -> (r: bool)
        ensures
            r == (self.roster_seen && self.maze_seen),
    {
        self.roster_seen && self.maze_seen
    }
}

/// The datagram a joining client sends first: its name and the address
/// it will receive on.
pub fn join_datagram(name: &Vec<u8>, address: &Vec<u8>) -> (r: Vec<u8>)
    requires
        bytes_wf(name@),
        bytes_wf(address@),
    ensures
        r@ == encoded_msg(MessageV::ClientJoined(name@, address@)),
{
    encode(&Message::ClientJoined(copy_bytes(name), copy_bytes(address)))
}

/// The heartbeat datagram a client sends on a fixed interval.
pub fn ping_datagram(name: &Vec<u8>) -> (r: Vec<u8>)
    requires
        bytes_wf(name@),
    ensures
        r@ == encoded_msg(MessageV::Ping(name@)),
{
    encode(&Message::Ping(copy_bytes(name)))
}

/// The movement announcement for the local player's current position and
/// facing.
pub fn prepare_player_data_to_send(player_name: &Vec<u8>, player_data: &PlayerState) -> (r: Vec<
    u8,
>)
    requires
        bytes_wf(player_name@),
    ensures
        r@ == encoded_msg(
            MessageV::PlayerMoved(
                player_name@,
                player_data@.pos_x,
                player_data@.pos_y,
                player_data@.dir.spec_vec().0,
                player_data@.dir.spec_vec().1,
            ),
        ),
{
    let v = player_data.dir.vec();
    encode(
        &Message::PlayerMoved(
            copy_bytes(player_name),
            player_data.pos_x,
            player_data.pos_y,
            v.0,
            v.1,
        ),
    )
}

/// The shot announcement: who fired and who was hit.
pub fn prepare_shoot_data_to_send(player_name: Vec<u8>, opponent_name: Vec<u8>) -> (r: Vec<u8>)
    requires
        bytes_wf(player_name@),
        bytes_wf(opponent_name@),
    ensures
        r@ == encoded_msg(MessageV::PlayerShot(player_name@, opponent_name@)),
{
    encode(&Message::PlayerShot(player_name, opponent_name))
}

} // verus!
