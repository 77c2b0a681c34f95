//! Tanks: their ammunition, their colour at the start of a round, and what
//! the pressed keys make them do.
use vstd::prelude::*;

verus! {

/// The bullets a tank holds at the start of a round.
pub const TANK_BULLET_COUNT: usize = 5;

/// What the game rules read of a tank: who it is and how many bullets it
/// still holds.
#[derive(PartialEq, Eq, Structural, Clone, Copy, Debug)]
pub struct Tank {
    pub tank_id: usize,
    pub bullets_remaining: usize,
}

/// The colour a tank is painted.
#[derive(PartialEq, Eq, Structural, Clone, Copy, Debug)]
pub enum TankColor {
    /// The first player's tank.
    Player1,
    /// The second player's tank.
    Player2,
    /// A tank that was hit.
    Dead,
}

/// Which way a tank turns.
#[derive(PartialEq, Eq, Structural, Clone, Copy, Debug)]
pub enum Turn {
    /// Turning right: the heading angle decreases.
    Clockwise,
    /// Turning left: the heading angle increases.
    CounterClockwise,
    /// No turn.
    Straight,
}

/// Which way a tank drives.
#[derive(PartialEq, Eq, Structural, Clone, Copy, Debug)]
pub enum Drive {
    Forward,
    Backward,
    Stop,
}

/// What a tank tries to do this frame: the turn is applied first, then the
/// drive along the new heading.
#[derive(PartialEq, Eq, Structural, Clone, Copy, Debug)]
pub struct TankCommand {
    pub turn: Turn,
    pub drive: Drive,
}

/// The tank after a shot is asked for, and whether a bullet leaves it.
pub open spec fn shot(t: Tank) -> (Tank, bool) {
    if t.bullets_remaining == 0 {
        (t, false)
    } else {
        (Tank { tank_id: t.tank_id, bullets_remaining: (t.bullets_remaining - 1) as usize }, true)
    }
}

/// The tanks after a bullet of tank `owner` expires: every tank with that
/// number gets a bullet back.
pub open spec fn bullet_returned(tanks: Seq<Tank>, owner: usize) -> Seq<Tank> {
    Seq::new(
        tanks.len(),
        |k: int|
            if tanks[k].tank_id == owner {
                Tank { tank_id: tanks[k].tank_id, bullets_remaining: (tanks[k].bullets_remaining + 1) as usize }
            } else {
                tanks[k]
            },
    )
}

/// The colour of a tank at the start of a round.
pub open spec fn round_color(tank_id: usize) -> TankColor {
    if tank_id == 1 {
        TankColor::Player1
    } else {
        TankColor::Player2
    }
}

/// The command given by the keys held down: a turn when exactly one of the
/// turn keys is held, a drive when exactly one of the drive keys is held.
pub open spec fn command_for(forward: bool, backward: bool, right: bool, left: bool) -> TankCommand {
    TankCommand {
        turn: if right && !left {
            Turn::Clockwise
        } else if left && !right {
            Turn::CounterClockwise
        } else {
            Turn::Straight
        },
        drive: if forward && !backward {
            Drive::Forward
        } else if backward && !forward {
            Drive::Backward
        } else {
            Drive::Stop
        },
    }
}

impl Tank {
    /// A tank as it enters the game, with a full load of bullets.
    pub fn new(tank_id: usize) -> (tank: Tank)
        ensures
            tank.tank_id == tank_id,
            tank.bullets_remaining == TANK_BULLET_COUNT,
    {
        Tank { tank_id, bullets_remaining: TANK_BULLET_COUNT }
    }
}

/// A shot is asked for: a tank with bullets left fires one (the caller
/// spawns it), a tank without fires nothing.
pub fn shoot_bullet(tank: &mut Tank) -> (fired: bool)
    ensures
        (*final(tank), fired) == shot(*old(tank)),
{
    if tank.bullets_remaining == 0 {
        return false;
    }
    tank.bullets_remaining = tank.bullets_remaining - 1;
    true
}

/// A bullet of tank `owner` expired: each tank with that number gets the
/// bullet back.
pub fn return_bullet(tanks: &mut Vec<Tank>, owner: usize)
    requires
        forall|k: int|
            0 <= k < old(tanks)@.len() && #[trigger] old(tanks)@[k].tank_id == owner
                ==> old(tanks)@[k].bullets_remaining < usize::MAX,
    ensures
        final(tanks)@ == bullet_returned(old(tanks)@, owner),
        final(tanks)@.len() == old(tanks)@.len(),
        forall|k: int|
            0 <= k < old(tanks)@.len() && old(tanks)@[k].tank_id != owner ==> #[trigger] final(tanks)@[k]
                == old(tanks)@[k],
        forall|k: int|
            0 <= k < old(tanks)@.len() && old(tanks)@[k].tank_id == owner ==> {
                &&& #[trigger] final(tanks)@[k].tank_id == owner
                &&& final(tanks)@[k].bullets_remaining == old(tanks)@[k].bullets_remaining + 1
            },
{
    let ghost start = tanks@;
    let mut k: usize = 0;
    while k < tanks.len()
        invariant
            k <= tanks@.len(),
            tanks@.len() == start.len(),
            forall|x: int|
                0 <= x < start.len() && #[trigger] start[x].tank_id == owner ==> start[x].bullets_remaining < usize::MAX,
            forall|x: int| 0 <= x < k ==> #[trigger] tanks@[x] == bullet_returned(start, owner)[x],
            forall|x: int| k <= x < start.len() ==> #[trigger] tanks@[x] == start[x],
        decreases start.len() - k,
    {
        if tanks[k].tank_id == owner {
            let refilled = Tank { tank_id: tanks[k].tank_id, bullets_remaining: tanks[k].bullets_remaining + 1 };
            tanks.set(k, refilled);
        }
        k = k + 1;
    }
    assert(tanks@ =~= bullet_returned(start, owner));
    proof {
        lemma_bullet_returned_to_owner_only(start, owner);
    }
}

/// Readies a tank for a fresh round: a full load of bullets and its
/// player's colour. Only tanks 1 and 2 have a colour.
pub fn reset_for_round(tank: &mut Tank) -> (color: TankColor)
    requires
        old(tank).tank_id == 1 || old(tank).tank_id == 2,
    ensures
        final(tank).tank_id == old(tank).tank_id,
        final(tank).bullets_remaining == TANK_BULLET_COUNT,
        color == round_color(old(tank).tank_id),
{
    tank.bullets_remaining = TANK_BULLET_COUNT;
    if tank.tank_id == 1 {
        TankColor::Player1
    } else {
        TankColor::Player2
    }
}

/// What a tank does with the keys held down.
pub fn tank_command(forward: bool, backward: bool, right: bool, left: bool) -> (command: TankCommand)
    ensures
        command == command_for(forward, backward, right, left),
        command.turn == (if right && !left {
            Turn::Clockwise
        } else if left && !right {
            Turn::CounterClockwise
        } else {
            Turn::Straight
        }),
        command.drive == (if forward && !backward {
            Drive::Forward
        } else if backward && !forward {
            Drive::Backward
        } else {
            Drive::Stop
        }),
{
    let turn = if right && !left {
        Turn::Clockwise
    } else if left && !right {
        Turn::CounterClockwise
    } else {
        Turn::Straight
    };
    let drive = if forward && !backward {
        Drive::Forward
    } else if backward && !forward {
        Drive::Backward
    } else {
        Drive::Stop
    };
    TankCommand { turn, drive }
}

/// A bullet belongs to tank `id`.
pub open spec fn owned_by(id: usize) -> spec_fn(usize) -> bool {
    |owner: usize| owner == id
}

/// The number of bullets of tank `id` still flying, given the owners of the
/// bullets in flight.
pub open spec fn in_flight(live: Seq<usize>, id: usize) -> nat {
    live.filter(owned_by(id)).len()
}

/// A shot that fires and the expiry of that bullet give the tank back as it
/// was.
pub proof fn lemma_shot_then_returned(t: Tank)
    requires
        t.bullets_remaining > 0,
    ensures
        shot(t).1,
        bullet_returned(seq![shot(t).0], t.tank_id) == seq![t],
{
    assert(bullet_returned(seq![shot(t).0], t.tank_id) =~= seq![t]);
}

/// A tank never holds more bullets than it started the round with: the
/// bullets it holds and its bullets in flight always add up to a full load,
/// through shots (a fired bullet joins those in flight) and expiries (an
/// expired bullet leaves them and returns to the tank).
pub proof fn lemma_ammo_conserved(t: Tank, live: Seq<usize>, expired: int)
    requires
        t.bullets_remaining + in_flight(live, t.tank_id) == TANK_BULLET_COUNT,
    ensures
        t.bullets_remaining <= TANK_BULLET_COUNT,
        ({
            let (t2, fired) = shot(t);
            let live2 = if fired {
                live.push(t.tank_id)
            } else {
                live
            };
            t2.bullets_remaining + in_flight(live2, t.tank_id) == TANK_BULLET_COUNT
        }),
        0 <= expired < live.len() && live[expired] == t.tank_id ==> ({
            let t2 = bullet_returned(seq![t], live[expired])[0];
            let live2 = live.remove(expired);
            t2.bullets_remaining + in_flight(live2, t.tank_id) == TANK_BULLET_COUNT
        }),
{
    let f = owned_by(t.tank_id);
    let (t2, fired) = shot(t);
    if fired {
        live.lemma_filter_push(t.tank_id, f);
    }
    if 0 <= expired < live.len() && live[expired] == t.tank_id {
        let a = live.subrange(0, expired);
        let x = seq![live[expired]];
        let b = live.subrange(expired + 1, live.len() as int);
        assert(live =~= a + x + b);
        assert(live.remove(expired) =~= a + b);
        Seq::filter_distributes_over_add(a, x, f);
        Seq::filter_distributes_over_add(a + x, b, f);
        Seq::filter_distributes_over_add(a, b, f);
        assert(x.filter(f) =~= x) by {
            reveal_with_fuel(Seq::filter, 2);
        }
    }
}

/// The turn depends on the turn keys alone and the drive on the drive keys
/// alone: the right key held without the left turns clockwise, the left
/// without the right counter-clockwise, both or neither goes straight;
/// forward without backward drives forward, backward without forward drives
/// backward, both or neither stops. So a tank turns in place, and drives
/// without turning.
pub proof fn lemma_keys_command(forward: bool, backward: bool, right: bool, left: bool)
    ensures
        command_for(forward, backward, right, left).turn == command_for(false, false, right, left).turn,
        command_for(forward, backward, right, left).drive == command_for(forward, backward, false, false).drive,
        (right && !left) <==> command_for(forward, backward, right, left).turn == Turn::Clockwise,
        (left && !right) <==> command_for(forward, backward, right, left).turn == Turn::CounterClockwise,
        (right == left) <==> command_for(forward, backward, right, left).turn == Turn::Straight,
        (forward && !backward) <==> command_for(forward, backward, right, left).drive == Drive::Forward,
        (backward && !forward) <==> command_for(forward, backward, right, left).drive == Drive::Backward,
        (forward == backward) <==> command_for(forward, backward, right, left).drive == Drive::Stop,
{
}

/// An expired bullet goes back only to the tanks numbered as its owner: the
/// list keeps its length and order, every other tank is left as it was, and
/// each tank with the owner's number holds exactly one bullet more.
pub proof fn lemma_bullet_returned_to_owner_only(tanks: Seq<Tank>, owner: usize)
    requires
        forall|k: int|
            0 <= k < tanks.len() && #[trigger] tanks[k].tank_id == owner ==> tanks[k].bullets_remaining < usize::MAX,
    ensures
        bullet_returned(tanks, owner).len() == tanks.len(),
        forall|k: int|
            0 <= k < tanks.len() && tanks[k].tank_id != owner ==> #[trigger] bullet_returned(tanks, owner)[k]
                == tanks[k],
        forall|k: int|
            0 <= k < tanks.len() && tanks[k].tank_id == owner ==> {
                &&& #[trigger] bullet_returned(tanks, owner)[k].tank_id == owner
                &&& bullet_returned(tanks, owner)[k].bullets_remaining == tanks[k].bullets_remaining + 1
            },
{
}

} // verus!
