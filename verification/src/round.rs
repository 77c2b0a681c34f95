//! The end of a round: a hit tank dies, the round is marked for restart and
//! the restart clock starts; once it runs out a fresh round is called.
use vstd::prelude::*;

verus! {

/// What one frame's end-of-round step decides.
pub struct RoundEnd {
    /// The round is waiting for its restart.
    pub restart: bool,
    /// `dead[t]`: tank `t` is painted as dead this frame.
    pub dead: Vec<bool>,
    /// The restart clock starts over.
    pub restart_timer: bool,
}

/// Some tank was hit.
pub open spec fn any_hit(hits: Seq<bool>) -> bool {
    exists|t: int| 0 <= t < hits.len() && #[trigger] hits[t]
}

/// The round was already waiting for a restart at the end-of-round step: it waited
/// before and no fresh round has started since.
pub open spec fn still_restarting(restart: bool, fresh_round: bool) -> bool {
    restart && !fresh_round
}

/// A fresh round is called when the round waits for a restart and the
/// restart clock has run out.
pub fn fresh_round_due(restart: bool, timer_finished: bool) -> (due: bool)
    ensures
        due == (restart && timer_finished),
{
    restart && timer_finished
}

/// One frame's end-of-round step. A fresh round clears the restart mark; a round
/// that still waits for its restart changes nothing. Otherwise every tank
/// touched by a bullet (`hits[t]`) dies, and a death marks the round for
/// restart and starts the restart clock over.
pub fn round_end_step(restart: bool, fresh_round: bool, hits: &Vec<bool>) -> (outcome: RoundEnd)
    ensures
        outcome.dead@.len() == hits@.len(),
        outcome.restart == ((restart && !fresh_round) || any_hit(hits@)),
        outcome.restart_timer == (!(restart && !fresh_round) && any_hit(hits@)),
        fresh_round ==> outcome.restart == any_hit(hits@),
        still_restarting(restart, fresh_round) ==> {
            &&& outcome.restart
            &&& !outcome.restart_timer
            &&& forall|t: int| 0 <= t < hits@.len() ==> !#[trigger] outcome.dead@[t]
        },
        !still_restarting(restart, fresh_round) ==> {
            &&& outcome.restart == any_hit(hits@)
            &&& outcome.restart_timer == any_hit(hits@)
            &&& forall|t: int| 0 <= t < hits@.len() ==> #[trigger] outcome.dead@[t] == hits@[t]
        },
{
    let mut restart = restart;
    if fresh_round {
        restart = false;
    }
    let mut dead: Vec<bool> = Vec::new();
    if restart {
        let mut t: usize = 0;
        while t < hits.len()
            invariant
                t <= hits@.len(),
                dead@.len() == t,
                forall|x: int| 0 <= x < t ==> !#[trigger] dead@[x],
            decreases hits@.len() - t,
        {
            dead.push(false);
            t = t + 1;
        }
        return RoundEnd { restart: true, dead, restart_timer: false };
    }
    let mut restart_timer = false;
    let mut t: usize = 0;
    while t < hits.len()
        invariant
            t <= hits@.len(),
            dead@.len() == t,
            forall|x: int| 0 <= x < t ==> #[trigger] dead@[x] == hits@[x],
            restart == restart_timer,
            restart == exists|x: int| 0 <= x < t && #[trigger] hits@[x],
        decreases hits@.len() - t,
    {
        if hits[t] {
            dead.push(true);
            restart = true;
            restart_timer = true;
        } else {
            dead.push(false);
        }
        t = t + 1;
    }
    RoundEnd { restart, dead, restart_timer }
}

/// The restart mark after a frame: it stays set only while no fresh round
/// has started, a fresh round always clears it, and a round without the
/// mark is marked only by a hit. A frame with a fresh round and no hit
/// therefore leaves the round unmarked, and one without the mark and
/// without a hit too.
pub proof fn lemma_restart_mark(restart: bool, fresh_round: bool, hits: Seq<bool>)
    ensures
        !still_restarting(restart, true),
        still_restarting(restart, false) == restart,
        !still_restarting(false, fresh_round),
        (forall|t: int| 0 <= t < hits.len() ==> !#[trigger] hits[t]) ==> !any_hit(hits),
        any_hit(hits) <==> exists|t: int| 0 <= t < hits.len() && #[trigger] hits[t],
{
}

} // verus!
