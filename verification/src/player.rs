//! A participant's state and the tile-based movement rules.
//!
//! The local player's own state is authoritative: it moves optimistically
//! and is then announced on the wire. Every other participant is a
//! replica, overwritten wholesale by `PlayerMoved` messages. Movement is
//! rate-limited through a throttle so that holding a key does not flood
//! the network.

use vstd::prelude::*;
use crate::msg::Direction;
use crate::rng::rand_in_range;

verus! {

#[verifier::external_type_specification]
#[verifier::external_body]
pub struct ExThrottle(throttle::Throttle);

/// The operation budget a throttle was created with.
pub uninterp spec fn throttle_threshold(t: throttle::Throttle) -> usize;

/// Relies on `throttle::Throttle::new`: a rate limiter that admits at
/// most `threshold` operations per rolling window of `millis`
/// milliseconds.
#[verifier::external_body]
fn throttle_new(millis: u64, threshold: usize) -> (r: throttle::Throttle)
    ensures
        throttle_threshold(r) == threshold,
{
    throttle::Throttle::new(core::time::Duration::from_millis(millis), threshold)
}

/// Relies on `throttle::Throttle::accept`: whether one more operation is
/// admitted now depends on the wall clock, so nothing is promised of the
/// outcome. A throttle with a nonzero threshold keeps the call from
/// panicking on an empty internal queue.
#[verifier::external_body]
fn throttle_accept(t: &mut throttle::Throttle) -> (r: bool)
    requires
        throttle_threshold(*old(t)) >= 1,
    ensures
        throttle_threshold(*final(t)) == throttle_threshold(*old(t)),
{
    t.accept().is_ok()
}

impl Direction {
    /// The direction a random draw selects: the four variants in draw
    /// order, any larger draw falling through to `Right`.
    pub fn from_draw(x: usize) -> (r: Direction)
        ensures
            x == 0 ==> r == Direction::Up,
            x == 1 ==> r == Direction::Down,
            x == 2 ==> r == Direction::Left,
            x >= 3 ==> r == Direction::Right,
    {
        match x {
            0 => Direction::Up,
            1 => Direction::Down,
            2 => Direction::Left,
            _ => Direction::Right,
        }
    }

    /// A direction drawn at random; any of the four can come back.
    pub fn random() -> Direction {
        Direction::from_draw(rand_in_range(0, 3))
    }
}

/// One participant: name, tile position, facing, score, and the local
/// shooting/movement gates.
pub struct PlayerState {
    pub name: Vec<u8>,
    pub pos_x: u32,
    pub pos_y: u32,
    pub dir: Direction,
    pub score: i32,
    pub can_shoot: bool,
    pub moving_throttle: throttle::Throttle,
}

/// The mathematical shadow of `PlayerState`; the throttle is opaque and
/// stays out of it.
pub struct PlayerStateV {
    pub name: Seq<u8>,
    pub pos_x: u32,
    pub pos_y: u32,
    pub dir: Direction,
    pub score: i32,
    pub can_shoot: bool,
}

impl View for PlayerState {
    type V = PlayerStateV;

    open spec fn view(&self) -> PlayerStateV {
        PlayerStateV {
            name: self.name@,
            pos_x: self.pos_x,
            pos_y: self.pos_y,
            dir: self.dir,
            score: self.score,
            can_shoot: self.can_shoot,
        }
    }
}

/// The grid is non-empty, rectangular, and sized like a wire-format maze.
pub open spec fn grid_rect(maze: Seq<Seq<i32>>) -> bool {
    &&& 0 < maze.len() <= 0xFFFF
    &&& maze[0].len() <= 0xFFFF
    &&& forall|i: int| 0 <= i < maze.len() ==> (#[trigger] maze[i]).len() == maze[0].len()
}

/// The position lies on the grid.
pub open spec fn on_grid(maze: Seq<Seq<i32>>, x: u32, y: u32) -> bool {
    y < maze.len() && x < maze[y as int].len()
}

/// A step from `(x, y)` towards `d` is allowed: the neighbouring tile in
/// that direction exists and is open.
pub open spec fn can_step(maze: Seq<Seq<i32>>, x: u32, y: u32, d: Direction) -> bool {
    match d {
        Direction::Right => x + 1 < maze[y as int].len() && maze[y as int][x + 1] == 0,
        Direction::Down => y + 1 < maze.len() && maze[y as int + 1][x as int] == 0,
        Direction::Left => x >= 1 && maze[y as int][x as int - 1] == 0,
        Direction::Up => y >= 1 && maze[y as int - 1][x as int] == 0,
    }
}

impl PlayerState {
    /// The throttle can always be asked again.
    pub open spec fn wf(&self) -> bool {
        throttle_threshold(self.moving_throttle) >= 1
    }

    /// A fresh participant at the given tile: facing a random direction,
    /// score zero, allowed to shoot, movement throttled to one step per
    /// hundred milliseconds.
    pub fn new(name: Vec<u8>, pos: (u32, u32)) -> (r: PlayerState)
        ensures
            r.wf(),
            r@.name == name@,
            r@.pos_x == pos.0,
            r@.pos_y == pos.1,
            r@.score == 0,
            r@.can_shoot,
    {
        PlayerState {
            name,
            pos_x: pos.0,
            pos_y: pos.1,
            dir: Direction::random(),
            score: 0,
            can_shoot: true,
            moving_throttle: throttle_new(100, 1),
        }
    }

    /// Being hit costs five points.
    pub fn got_shot(&mut self)
        requires
            old(self)@.score >= i32::MIN + 5,
        ensures
            final(self)@ == (PlayerStateV { score: (old(self)@.score - 5) as i32, ..old(self)@ }),
            final(self).moving_throttle == old(self).moving_throttle,
    {
        self.score = self.score - 5;
    }

    /// A landed shot earns ten points.
    pub fn shot_opponent(&mut self)
        requires
            old(self)@.score <= i32::MAX - 10,
        ensures
            final(self)@ == (PlayerStateV { score: (old(self)@.score + 10) as i32, ..old(self)@ }),
            final(self).moving_throttle == old(self).moving_throttle,
    {
        self.score = self.score + 10;
    }

    /// One unthrottled step towards `d`: moves exactly when the target
    /// tile exists and is open, and reports whether it moved.
    pub fn step(&mut self, maze: &Vec<Vec<i32>>, d: Direction) -> (moved: bool)
        requires
            grid_rect(maze.deep_view()),
            on_grid(maze.deep_view(), old(self)@.pos_x, old(self)@.pos_y),
        ensures
            moved == can_step(maze.deep_view(), old(self)@.pos_x, old(self)@.pos_y, d),
            moved ==> final(self)@ == (PlayerStateV {
                pos_x: (old(self)@.pos_x + d.spec_vec().0) as u32,
                pos_y: (old(self)@.pos_y + d.spec_vec().1) as u32,
                ..old(self)@
            }),
            !moved ==> final(self)@ == old(self)@,
            final(self).moving_throttle == old(self).moving_throttle,
            on_grid(maze.deep_view(), final(self)@.pos_x, final(self)@.pos_y),
    {
        proof {
            crate::codec::lemma_grid_deep_view_v(*maze);
            assert(maze.deep_view()[self.pos_y as int] == maze@[self.pos_y as int]@);
            assert(maze.deep_view()[0] == maze@[0]@);
        }
        let width = maze[0].len();
        proof {
            assert(maze.deep_view()[self.pos_y as int].len() == width);
        }
        match d {
            Direction::Right => {
                if self.pos_x + 1 < width as u32 {
                    proof {
                        assert(maze.deep_view()[self.pos_y as int][self.pos_x as int + 1]
                            == maze@[self.pos_y as int]@[self.pos_x as int + 1]);
                    }
                    if maze[self.pos_y as usize][self.pos_x as usize + 1] == 0 {
                        self.pos_x = self.pos_x + 1;
                        return true;
                    }
                }
                false
            },
            Direction::Down => {
                if self.pos_y + 1 < maze.len() as u32 {
                    proof {
                        assert(maze.deep_view()[self.pos_y as int + 1] == maze@[self.pos_y as int
                            + 1]@);
                    }
                    if maze[self.pos_y as usize + 1][self.pos_x as usize] == 0 {
                        self.pos_y = self.pos_y + 1;
                        return true;
                    }
                }
                false
            },
            Direction::Left => {
                if self.pos_x >= 1 {
                    if maze[self.pos_y as usize][self.pos_x as usize - 1] == 0 {
                        self.pos_x = self.pos_x - 1;
                        return true;
                    }
                }
                false
            },
            Direction::Up => {
                if self.pos_y >= 1 {
                    proof {
                        assert(maze.deep_view()[self.pos_y as int - 1] == maze@[self.pos_y as int
                            - 1]@);
                    }
                    if maze[self.pos_y as usize - 1][self.pos_x as usize] == 0 {
                        self.pos_y = self.pos_y - 1;
                        return true;
                    }
                }
                false
            },
        }
    }

    /// One throttled step forwards. When it returns true the player took
    /// a legal step in its facing direction; when it returns false —
    /// because the throttle refused or a wall stood there — nothing
    /// changed.
    pub fn go_forward(&mut self, maze: &Vec<Vec<i32>>) -> (moved: bool)
        requires
            old(self).wf(),
            grid_rect(maze.deep_view()),
            on_grid(maze.deep_view(), old(self)@.pos_x, old(self)@.pos_y),
        ensures
            final(self).wf(),
            moved ==> can_step(maze.deep_view(), old(self)@.pos_x, old(self)@.pos_y, old(self)@.dir)
                && final(self)@ == (PlayerStateV {
                pos_x: (old(self)@.pos_x + old(self)@.dir.spec_vec().0) as u32,
                pos_y: (old(self)@.pos_y + old(self)@.dir.spec_vec().1) as u32,
                ..old(self)@
            }),
            !moved ==> final(self)@ == old(self)@,
            on_grid(maze.deep_view(), final(self)@.pos_x, final(self)@.pos_y),
    {
        if throttle_accept(&mut self.moving_throttle) {
            let d = self.dir;
            self.step(maze, d)
        } else {
            false
        }
    }

    /// One throttled step backwards: the same rules, in the direction
    /// opposite to the facing, which itself does not change.
    pub fn go_backward(&mut self, maze: &Vec<Vec<i32>>) -> (moved: bool)
        requires
            old(self).wf(),
            grid_rect(maze.deep_view()),
            on_grid(maze.deep_view(), old(self)@.pos_x, old(self)@.pos_y),
        ensures
            final(self).wf(),
            moved ==> can_step(
                maze.deep_view(),
                old(self)@.pos_x,
                old(self)@.pos_y,
                old(self)@.dir.spec_opposite(),
            ) && final(self)@ == (PlayerStateV {
                pos_x: (old(self)@.pos_x + old(self)@.dir.spec_opposite().spec_vec().0) as u32,
                pos_y: (old(self)@.pos_y + old(self)@.dir.spec_opposite().spec_vec().1) as u32,
                ..old(self)@
            }),
            !moved ==> final(self)@ == old(self)@,
            on_grid(maze.deep_view(), final(self)@.pos_x, final(self)@.pos_y),
    {
        if throttle_accept(&mut self.moving_throttle) {
            let d = self.dir.opposite();
            self.step(maze, d)
        } else {
            false
        }
    }

    /// A throttled quarter turn clockwise; reports whether it turned.
    pub fn turn_right(&mut self) -> (turned: bool)
        requires
            old(self).wf(),
        ensures
            final(self).wf(),
            turned ==> final(self)@ == (PlayerStateV {
                dir: old(self)@.dir.spec_rotated_right(),
                ..old(self)@
            }),
            !turned ==> final(self)@ == old(self)@,
    {
        if throttle_accept(&mut self.moving_throttle) {
            self.dir = self.dir.rotated_right();
            true
        } else {
            false
        }
    }

    /// A throttled quarter turn counter-clockwise; reports whether it
    /// turned.
    pub fn turn_left(&mut self) -> (turned: bool)
        requires
            old(self).wf(),
        ensures
            final(self).wf(),
            turned ==> final(self)@ == (PlayerStateV {
                dir: old(self)@.dir.spec_rotated_left(),
                ..old(self)@
            }),
            !turned ==> final(self)@ == old(self)@,
    {
        if throttle_accept(&mut self.moving_throttle) {
            self.dir = self.dir.rotated_left();
            true
        } else {
            false
        }
    }

    /// Which way an opponent's sprite faces from this player's point of
    /// view: `Up` looks away, `Down` looks at the player, `Left` and
    /// `Right` show a profile.
    pub fn get_opponent_direction(&self, opponent_dir: &Direction) -> (r: Direction)
        ensures
            r == spec_opponent_direction(self@.dir, *opponent_dir),
    {
        if self.dir == *opponent_dir {
            Direction::Up
        } else if self.dir.vec().0 == opponent_dir.vec().0 || self.dir.vec().1
            == opponent_dir.vec().1 {
            Direction::Down
        } else {
            match self.dir {
                Direction::Up => {
                    if *opponent_dir == Direction::Left {
                        Direction::Left
                    } else {
                        Direction::Right
                    }
                },
                Direction::Down => {
                    if *opponent_dir == Direction::Right {
                        Direction::Left
                    } else {
                        Direction::Right
                    }
                },
                Direction::Right => {
                    if *opponent_dir == Direction::Up {
                        Direction::Left
                    } else {
                        Direction::Right
                    }
                },
                Direction::Left => {
                    if *opponent_dir == Direction::Down {
                        Direction::Left
                    } else {
                        Direction::Right
                    }
                },
            }
        }
    }
}

/// The sprite facing shown for an opponent looking towards `other`, seen
/// by a player looking towards `own`: equal directions look away,
/// opposite directions look at the viewer, the rest show a profile.
pub open spec fn spec_opponent_direction(own: Direction, other: Direction) -> Direction {
    if own == other {
        Direction::Up
    } else if own.spec_vec().0 == other.spec_vec().0 || own.spec_vec().1 == other.spec_vec().1 {
        Direction::Down
    } else {
        match own {
            Direction::Up => if other == Direction::Left {
                Direction::Left
            } else {
                Direction::Right
            },
            Direction::Down => if other == Direction::Right {
                Direction::Left
            } else {
                Direction::Right
            },
            Direction::Right => if other == Direction::Up {
                Direction::Left
            } else {
                Direction::Right
            },
            Direction::Left => if other == Direction::Down {
                Direction::Left
            } else {
                Direction::Right
            },
        }
    }
}

} // verus!
