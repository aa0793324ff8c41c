//! The player: a grid position, a facing and an action, driven by key presses, and the
//! progress integrators that bring a turn or a step back to rest.
use vstd::prelude::*;
use crate::map::{GridPos, Maze, MazeView};
use crate::news::{News, spec_back, spec_dx, spec_dy, spec_turn_left, spec_turn_right};
use crate::random::{gen_index, rng_from_seed};

verus! {

/// Progress units that make one quarter turn.
pub const UNIT_TURN: u64 = 1000;
/// Progress units that make one grid step.
pub const UNIT_MOVE: u64 = 1000;

/// What the player is doing.
#[derive(Clone, Copy, Debug, PartialEq, Eq, Structural)]
pub enum InAction {
    Stop,
    TurnRight,
    TurnLeft,
    Forward,
    Backward,
}

/// The committed state of the player: where it stands, where it faces, what it does.
#[derive(Clone, Copy, Debug, PartialEq, Eq, Structural)]
pub struct Player {
    pub position: GridPos,
    pub direction: News,
    pub in_action: InAction,
}

/// A key press as the player sees it.
#[derive(Clone, Copy, Debug, PartialEq, Eq, Structural)]
pub enum KeyCode {
    Right,
    Left,
    Up,
    Down,
    Other,
}

/// What the presentation does with the visible transform on one tick.
#[derive(Clone, Copy, Debug, PartialEq, Eq, Structural)]
pub enum Tween {
    /// Nothing is animating.
    Hold,
    /// Move the transform by this many progress units; a negative amount turns right or
    /// steps backward.
    Partial(i64),
    /// Snap the transform onto the committed position and facing.
    Snap,
}

/// Marks the entity that holds the player's figure.
pub struct FigureHead;

/// Marks the first-person camera.
pub struct FppCamera;

/// Marks the third-person camera.
pub struct TppCamera;

pub open spec fn spec_is_turn(p: Player) -> bool {
    p.in_action == InAction::TurnRight || p.in_action == InAction::TurnLeft
}

pub open spec fn spec_is_move(p: Player) -> bool {
    p.in_action == InAction::Forward || p.in_action == InAction::Backward
}

/// A step toward `d`: taken, with `action`, if the cell there is open; otherwise nothing changes.
pub open spec fn spec_step(p: Player, m: MazeView, d: News, action: InAction) -> Player {
    let nx = p.position.x + spec_dx(d);
    let ny = p.position.y + spec_dy(d);
    if m.is_open(nx, ny) {
        Player { position: GridPos { x: nx as i32, y: ny as i32 }, in_action: action, ..p }
    } else {
        p
    }
}

/// The effect of one key press on a player at rest.
pub open spec fn spec_key_step(p: Player, m: MazeView, k: KeyCode) -> Player {
    match k {
        KeyCode::Right => Player { direction: spec_turn_right(p.direction), in_action: InAction::TurnRight, ..p },
        KeyCode::Left => Player { direction: spec_turn_left(p.direction), in_action: InAction::TurnLeft, ..p },
        KeyCode::Up => spec_step(p, m, p.direction, InAction::Forward),
        KeyCode::Down => spec_step(p, m, spec_back(p.direction), InAction::Backward),
        KeyCode::Other => p,
    }
}

/// The key presses of one tick, in order, each taken only while the player is at rest.
pub open spec fn spec_keys(p: Player, m: MazeView, keys: Seq<KeyCode>) -> Player
    decreases keys.len(),
{
    if keys.len() == 0 || p.in_action != InAction::Stop {
        p
    } else {
        spec_keys(spec_key_step(p, m, keys[0]), m, keys.drop_first())
    }
}

/// One tick of an animation of `unit` progress units for a player doing `active`.
pub open spec fn spec_advance(p: Player, progress: u64, delta: u64, unit: u64, active: bool, forward: bool) -> (Player, u64, Tween) {
    if !active {
        (p, progress, Tween::Hold)
    } else if progress + delta >= unit {
        (Player { in_action: InAction::Stop, ..p }, 0, Tween::Snap)
    } else {
        (p, (progress + delta) as u64, Tween::Partial((if forward { delta as int } else { -(delta as int) }) as i64))
    }
}

pub open spec fn spec_rotate(p: Player, progress: u64, delta: u64) -> (Player, u64, Tween) {
    spec_advance(p, progress, delta, UNIT_TURN, spec_is_turn(p), p.in_action == InAction::TurnLeft)
}

pub open spec fn spec_move(p: Player, progress: u64, delta: u64) -> (Player, u64, Tween) {
    spec_advance(p, progress, delta, UNIT_MOVE, spec_is_move(p), p.in_action == InAction::Forward)
}

impl Player {
    pub fn is_stop(&self) -> (r: bool)
        ensures
            r == (self.in_action == InAction::Stop),
    {
        self.in_action == InAction::Stop
    }

    pub fn is_turn(&self) -> (r: bool)
        ensures
            r == spec_is_turn(*self),
    {
        self.in_action == InAction::TurnRight || self.in_action == InAction::TurnLeft
    }

    pub fn is_move(&self) -> (r: bool)
        ensures
            r == spec_is_move(*self),
    {
        self.in_action == InAction::Forward || self.in_action == InAction::Backward
    }

    fn step(&mut self, map: &Maze, d: News, action: InAction)
        requires
            map.wf(),
        ensures
            *final(self) == spec_step(*old(self), map.view(), d, action),
    {
        let (dx, dy) = d.offset();
        let x = self.position.x as i64 + dx as i64;
        let y = self.position.y as i64 + dy as i64;
        let next = GridPos { x: x as i32, y: y as i32 };
        if -0x8000_0000 <= x && x < 0x8000_0000 && -0x8000_0000 <= y && y < 0x8000_0000 && map.is_space(next) {
            self.position = next;
            self.in_action = action;
        }
    }

    fn key_step(&mut self, map: &Maze, key: KeyCode)
        requires
            map.wf(),
        ensures
            *final(self) == spec_key_step(*old(self), map.view(), key),
    {
        match key {
            KeyCode::Right => {
                self.direction = self.direction.turn_right();
                self.in_action = InAction::TurnRight;
            },
            KeyCode::Left => {
                self.direction = self.direction.turn_left();
                self.in_action = InAction::TurnLeft;
            },
            KeyCode::Up => {
                let front = self.direction;
                self.step(map, front, InAction::Forward);
            },
            KeyCode::Down => {
                let back = self.direction.back();
                self.step(map, back, InAction::Backward);
            },
            KeyCode::Other => {},
        }
    }
}

/// Applies the key presses of one tick to the player. Nothing happens while the third-person
/// camera is active; otherwise each press, in order, acts only while the player is at rest,
/// so the first press that starts an action is the only one honoured.
pub fn catch_input_keyboard(player: &mut Player, map: &Maze, orbit_camera_active: bool, just_pressed: &Vec<KeyCode>)
    requires
        map.wf(),
    ensures
        *final(player) == (if orbit_camera_active {
            *old(player)
        } else {
            spec_keys(*old(player), map.view(), just_pressed@)
        }),
{
    if orbit_camera_active {
        return;
    }
    let ghost keys = just_pressed@;
    let n = just_pressed.len();
    let mut i: usize = 0;
    assert(keys.subrange(0, n as int) =~= keys);
    while i < n && player.is_stop()
        invariant
            0 <= i <= n,
            n == keys.len(),
            keys == just_pressed@,
            map.wf(),
            spec_keys(*old(player), map.view(), keys) == spec_keys(*player, map.view(), keys.subrange(i as int, n as int)),
        decreases n - i,
    {
        assert(keys.subrange(i as int, n as int).drop_first() =~= keys.subrange(i + 1, n as int));
        player.key_step(map, just_pressed[i]);
        i = i + 1;
    }
    assert(keys.subrange(i as int, n as int).len() == 0 || player.in_action != InAction::Stop);
}

fn advance(player: &mut Player, progress: &mut u64, delta: u64, unit: u64, active: bool, forward: bool) -> (r: Tween)
    requires
        unit <= 0x7fff_ffff,
    ensures
        (*final(player), *final(progress), r) == spec_advance(*old(player), *old(progress), delta, unit, active, forward),
{
    if !active {
        return Tween::Hold;
    }
    if *progress >= unit || delta >= unit - *progress {
        player.in_action = InAction::Stop;
        *progress = 0;
        Tween::Snap
    } else {
        *progress = *progress + delta;
        let d = delta as i64;
        Tween::Partial(if forward { d } else { -d })
    }
}

/// Advances a turn by `delta` progress units. Once a quarter turn has accumulated, the
/// player comes to rest and the progress starts again from zero.
pub fn rotate_player(player: &mut Player, progress: &mut u64, delta: u64) -> (r: Tween)
    ensures
        (*final(player), *final(progress), r) == spec_rotate(*old(player), *old(progress), delta),
{
    let active = player.is_turn();
    let forward = player.in_action == InAction::TurnLeft;
    advance(player, progress, delta, UNIT_TURN, active, forward)
}

/// Advances a step by `delta` progress units. Once a grid unit has accumulated, the player
/// comes to rest and the progress starts again from zero.
pub fn move_player(player: &mut Player, progress: &mut u64, delta: u64) -> (r: Tween)
    ensures
        (*final(player), *final(progress), r) == spec_move(*old(player), *old(progress), delta),
{
    let active = player.is_move();
    let forward = player.in_action == InAction::Forward;
    advance(player, progress, delta, UNIT_MOVE, active, forward)
}

/// A player at rest on the maze's start, facing the open side numbered `pick` (modulo
/// their count) among the open sides of the start.
pub fn spawn_facing(map: &Maze, pick: usize) -> (r: Player)
    requires
        map.wf(),
        map.view().open_sides(map.view().start.x as int, map.view().start.y as int).len() > 0,
    ensures
        ({
            let v = map.view();
            let sides = v.open_sides(v.start.x as int, v.start.y as int);
            r == (Player {
                position: v.start,
                direction: sides[pick as int % sides.len() as int],
                in_action: InAction::Stop,
            })
        }),
{
    let start = map.start();
    let sides = map.get_sides_space(start);
    let direction = sides[pick % sides.len()];
    Player { position: start, direction, in_action: InAction::Stop }
}

/// A player at rest on the maze's start, facing an open side of it drawn from a generator
/// seeded with `seed`.
pub fn spawn_entity(map: &Maze, seed: u64) -> (r: Player)
    requires
        map.wf(),
        map.view().open_sides(map.view().start.x as int, map.view().start.y as int).len() > 0,
    ensures
        ({
            let v = map.view();
            let sides = v.open_sides(v.start.x as int, v.start.y as int);
            &&& r.position == v.start
            &&& r.in_action == InAction::Stop
            &&& sides.contains(r.direction)
        }),
{
    let start = map.start();
    let sides = map.get_sides_space(start);
    let mut rng = rng_from_seed(seed);
    let pick = gen_index(&mut rng, sides.len());
    let r = spawn_facing(map, pick);
    proof {
        let v = map.view();
        let s = v.open_sides(v.start.x as int, v.start.y as int);
        let (i, n) = (pick as int, s.len() as int);
        assert(i % n == i) by (nonlinear_arith)
            requires 0 <= i < n;
        assert(s[i] == s[i % n]);
    }
    r
}

/// A forward press, with the cell ahead a wall, leaves a player at rest as it was:
/// same position, same facing, still at rest.
pub proof fn lemma_forward_into_wall(p: Player, m: MazeView)
    requires
        m.wf(),
        m.decided(),
        p.in_action == InAction::Stop,
        m.is_wall(p.position.x + spec_dx(p.direction), p.position.y + spec_dy(p.direction)),
    ensures
        spec_keys(p, m, seq![KeyCode::Up]) == p,
{
    crate::map::lemma_wall_not_open(m);
    let keys = seq![KeyCode::Up];
    assert(keys.drop_first() =~= Seq::<KeyCode>::empty());
    assert(spec_key_step(p, m, keys[0]) == p);
    assert(spec_keys(p, m, keys) == spec_keys(p, m, keys.drop_first()));
}

/// Animation ticks over a run of elapsed progress amounts.
pub open spec fn spec_rotate_many(p: Player, progress: u64, deltas: Seq<u64>) -> (Player, u64)
    decreases deltas.len(),
{
    if deltas.len() == 0 {
        (p, progress)
    } else {
        let (next, next_progress, _) = spec_rotate(p, progress, deltas[0]);
        spec_rotate_many(next, next_progress, deltas.drop_first())
    }
}

pub open spec fn total(deltas: Seq<u64>) -> int
    decreases deltas.len(),
{
    if deltas.len() == 0 {
        0
    } else {
        deltas[0] + total(deltas.drop_first())
    }
}

proof fn lemma_rotate_at_rest(p: Player, progress: u64, deltas: Seq<u64>)
    requires
        p.in_action == InAction::Stop,
    ensures
        spec_rotate_many(p, progress, deltas) == (p, progress),
    decreases deltas.len(),
{
    if deltas.len() > 0 {
        lemma_rotate_at_rest(p, progress, deltas.drop_first());
    }
}

proof fn lemma_rotate_settles(p: Player, progress: u64, deltas: Seq<u64>)
    requires
        spec_is_turn(p),
        progress < UNIT_TURN,
        progress + total(deltas) >= UNIT_TURN,
    ensures
        spec_rotate_many(p, progress, deltas) == (Player { in_action: InAction::Stop, ..p }, 0u64),
    decreases deltas.len(),
{
    if deltas.len() == 0 {
    } else {
        let d = deltas[0];
        let rest = deltas.drop_first();
        lemma_total_nonneg(rest);
        if progress + d >= UNIT_TURN {
            lemma_rotate_at_rest(Player { in_action: InAction::Stop, ..p }, 0, rest);
        } else {
            lemma_rotate_settles(p, (progress + d) as u64, rest);
        }
    }
}

proof fn lemma_rotate_pending(p: Player, progress: u64, deltas: Seq<u64>)
    requires
        spec_is_turn(p),
        progress + total(deltas) < UNIT_TURN,
    ensures
        spec_rotate_many(p, progress, deltas) == (p, (progress + total(deltas)) as u64),
    decreases deltas.len(),
{
    if deltas.len() > 0 {
        lemma_total_nonneg(deltas.drop_first());
        lemma_rotate_pending(p, (progress + deltas[0]) as u64, deltas.drop_first());
    }
}

proof fn lemma_total_nonneg(deltas: Seq<u64>)
    ensures
        total(deltas) >= 0,
    decreases deltas.len(),
{
    if deltas.len() > 0 {
        lemma_total_nonneg(deltas.drop_first());
    }
}

/// A right-turn press commits the new facing at once and starts turning. Ticks whose
/// elapsed progress, starting from zero, adds up to less than a quarter turn leave the
/// player turning with that much progress; once it adds up to a quarter turn or more,
/// however it was split into ticks, the player is at rest with no progress left over and
/// the new facing kept.
pub proof fn lemma_turn_right_then_settle(p: Player, m: MazeView, deltas: Seq<u64>)
    requires
        p.in_action == InAction::Stop,
    ensures
        ({
            let after_key = spec_keys(p, m, seq![KeyCode::Right]);
            let (settled, left_over) = spec_rotate_many(after_key, 0, deltas);
            &&& after_key.direction == spec_turn_right(p.direction)
            &&& after_key.in_action == InAction::TurnRight
            &&& after_key.position == p.position
            &&& settled.direction == spec_turn_right(p.direction)
            &&& settled.position == p.position
            &&& (total(deltas) < UNIT_TURN ==> settled.in_action == InAction::TurnRight && left_over == total(deltas))
            &&& (total(deltas) >= UNIT_TURN ==> settled.in_action == InAction::Stop && left_over == 0)
        }),
{
    let turned = Player { direction: spec_turn_right(p.direction), in_action: InAction::TurnRight, ..p };
    let keys = seq![KeyCode::Right];
    assert(keys.drop_first() =~= Seq::<KeyCode>::empty());
    assert(spec_key_step(p, m, keys[0]) == turned);
    assert(spec_keys(p, m, keys) == spec_keys(turned, m, keys.drop_first()));
    lemma_total_nonneg(deltas);
    if total(deltas) < UNIT_TURN {
        lemma_rotate_pending(turned, 0, deltas);
    } else {
        lemma_rotate_settles(turned, 0, deltas);
    }
}

} // verus!
