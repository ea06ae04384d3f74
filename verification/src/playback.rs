//! Playing a solution turn by turn: pause and resume, single steps, and undo. The
//! decisions only; the animation of each turn is left to the front end, which makes
//! the turn a decision returns.

use vstd::prelude::*;
use crate::cube_core::{undo, Move};

verus! {

/// What the user asks of the playback.
pub enum PlaybackEvent {
    /// Pause, or resume playing.
    TogglePlay,
    /// Allow one more turn while paused.
    Step,
    /// Take back the last turn made.
    Undo,
}

/// The state of the playback: the turns still to play, the turns made, whether it is
/// paused, and how many single steps are allowed while paused.
pub struct Playback {
    pub queue: Vec<Move>,
    pub history: Vec<Move>,
    pub paused: bool,
    pub step_budget: u32,
}

/// The playback as values: turns to play, turns made, paused, single steps allowed.
pub open spec fn pb_view(pb: Playback) -> (Seq<Move>, Seq<Move>, bool, u32) {
    (pb.queue@, pb.history@, pb.paused, pb.step_budget)
}

/// What an event does to the playback `s`, and the turn to make at once (the inverse
/// of the last turn, for an undo that has one to take back). Resuming clears the
/// single steps; a single step pauses; an undo puts the last turn back at the head
/// of the queue, so that playing on makes it again.
pub open spec fn after_event(s: (Seq<Move>, Seq<Move>, bool, u32), ev: PlaybackEvent)
    -> ((Seq<Move>, Seq<Move>, bool, u32), Option<Move>)
{
    match ev {
        PlaybackEvent::TogglePlay => ((s.0, s.1, !s.2, if s.2 { 0u32 } else { s.3 }), None),
        PlaybackEvent::Step => ((s.0, s.1, true, (s.3 + 1) as u32), None),
        PlaybackEvent::Undo => if s.1.len() == 0 {
            (s, None)
        } else {
            ((seq![s.1.last()] + s.0, s.1.drop_last(), s.2, s.3), Some(undo(s.1.last())))
        },
    }
}

/// The next turn may start: one is queued, and the playback runs or a single step is
/// allowed.
pub open spec fn ready(s: (Seq<Move>, Seq<Move>, bool, u32)) -> bool {
    s.0.len() > 0 && (!s.2 || s.3 > 0)
}

/// Starting the next turn: when ready, the head of the queue is made and recorded,
/// using up a single step when paused; otherwise nothing happens.
pub open spec fn after_next(s: (Seq<Move>, Seq<Move>, bool, u32)) -> ((Seq<Move>, Seq<Move>, bool, u32), Option<Move>) {
    if ready(s) {
        ((s.0.drop_first(), s.1.push(s.0[0]), s.2, if s.2 { (s.3 - 1) as u32 } else { s.3 }), Some(s.0[0]))
    } else {
        (s, None)
    }
}

/// Apply an event to the playback; returns the turn to make at once, if any.
pub fn playback_event(pb: &mut Playback, ev: PlaybackEvent) -> (undo_turn: Option<Move>)
    requires
        old(pb).step_budget < u32::MAX,
    ensures
        (pb_view(*final(pb)), undo_turn) == after_event(pb_view(*old(pb)), ev),
        ev is TogglePlay ==> final(pb).paused == !old(pb).paused
            && (!final(pb).paused ==> final(pb).step_budget == 0)
            && final(pb).queue@ == old(pb).queue@ && final(pb).history@ == old(pb).history@,
        ev is Step ==> final(pb).step_budget == old(pb).step_budget + 1 && final(pb).paused,
        ev is Undo && old(pb).history@.len() == 0 ==> undo_turn is None && pb_view(*final(pb)) == pb_view(*old(pb)),
        ev is Undo && old(pb).history@.len() > 0 ==> undo_turn == Some(undo(old(pb).history@.last()))
            && final(pb).history@ == old(pb).history@.drop_last()
            && final(pb).queue@ == seq![old(pb).history@.last()] + old(pb).queue@,
{
    match ev {
        PlaybackEvent::TogglePlay => {
            pb.paused = !pb.paused;
            if !pb.paused {
                pb.step_budget = 0;
            }
            None
        },
        PlaybackEvent::Step => {
            pb.step_budget = pb.step_budget + 1;
            pb.paused = true;
            None
        },
        PlaybackEvent::Undo => {
            match pb.history.pop() {
                None => None,
                Some(m) => {
                    let ghost q0 = pb.queue@;
                    pb.queue.insert(0, m);
                    proof {
                        assert(pb.queue@ =~= seq![m] + q0);
                    }
                    Some(m.inverse())
                },
            }
        },
    }
}

/// Start the next turn when one may start: returns it, after taking it from the queue
/// and recording it as made.
pub fn next_turn(pb: &mut Playback) -> (m: Option<Move>)
    ensures
        (pb_view(*final(pb)), m) == after_next(pb_view(*old(pb))),
        old(pb).queue@.len() == 0 || (old(pb).paused && old(pb).step_budget == 0) ==> m is None
            && final(pb).queue@ == old(pb).queue@ && final(pb).history@ == old(pb).history@
            && final(pb).paused == old(pb).paused && final(pb).step_budget == old(pb).step_budget,
        m matches Some(t) ==> old(pb).queue@.len() > 0 && t == old(pb).queue@[0]
            && final(pb).paused == old(pb).paused,
{
    if pb.queue.len() == 0 || (pb.paused && pb.step_budget == 0) {
        return None;
    }
    let mv = pb.queue.remove(0);
    if pb.paused {
        pb.step_budget = pb.step_budget - 1;
    }
    pb.history.push(mv);
    proof {
        assert(pb.queue@ =~= old(pb).queue@.drop_first());
    }
    Some(mv)
}

/// Polling for the next turn when none may start (nothing queued, or paused with no
/// single step allowed) changes nothing: no turn is made, the queue and the turns
/// made stay, a paused playback stays paused until the user resumes or steps. When a
/// turn may start, one is made: the head of the queue, recorded last among the turns
/// made, using up one single step when paused. Polling never pauses or resumes, and
/// never loses or invents a turn: the turns made followed by the turns queued stay
/// the same sequence.
pub proof fn lemma_poll(s: (Seq<Move>, Seq<Move>, bool, u32))
    ensures
        s.0.len() == 0 || (s.2 && s.3 == 0) ==> after_next(s) == (s, None::<Move>),
        s.0.len() > 0 && (!s.2 || s.3 > 0) ==> after_next(s).1 == Some(s.0[0])
            && after_next(s).0.1.last() == s.0[0],
        after_next(s).0.2 == s.2,
        after_next(s).1 is Some && s.2 ==> after_next(s).0.3 == s.3 - 1,
        after_next(s).1 is Some && !s.2 ==> after_next(s).0.3 == s.3,
        after_next(s).0.1 + after_next(s).0.0 == s.1 + s.0,
{
    if s.0.len() > 0 && (!s.2 || s.3 > 0) {
        assert(s.1.push(s.0[0]) + s.0.drop_first() =~= s.1 + s.0);
    }
}

/// Undo never loses or invents a turn either: the turns made followed by the turns
/// queued stay the same sequence, and the pause state and single steps are kept.
pub proof fn lemma_undo_keeps_turns(s: (Seq<Move>, Seq<Move>, bool, u32))
    ensures
        after_event(s, PlaybackEvent::Undo).0.1 + after_event(s, PlaybackEvent::Undo).0.0 == s.1 + s.0,
        after_event(s, PlaybackEvent::Undo).0.2 == s.2,
        after_event(s, PlaybackEvent::Undo).0.3 == s.3,
{
    if s.1.len() > 0 {
        assert(s.1.drop_last() + (seq![s.1.last()] + s.0) =~= s.1 + s.0);
    }
}

/// Undo and redo are symmetric: taking back the last turn of a running playback and
/// then starting the next turn makes that same turn again, leaving the playback as it
/// was; the turn taken back is undone by the inverse that the undo returns.
pub proof fn lemma_undo_then_play(s: (Seq<Move>, Seq<Move>, bool, u32))
    requires
        s.1.len() > 0,
        !s.2,
    ensures
        after_event(s, PlaybackEvent::Undo).1 == Some(undo(s.1.last())),
        after_next(after_event(s, PlaybackEvent::Undo).0).1 == Some(s.1.last()),
        after_next(after_event(s, PlaybackEvent::Undo).0).0 == s,
{
    let u = after_event(s, PlaybackEvent::Undo).0;
    assert(u.0[0] == s.1.last());
    assert(u.0.drop_first() =~= s.0);
    assert(u.1.push(u.0[0]) =~= s.1);
}

/// The same symmetry while paused: taking back the last turn, allowing one single
/// step and starting the next turn makes that same turn again and leaves the playback
/// as it was.
pub proof fn lemma_undo_then_step(s: (Seq<Move>, Seq<Move>, bool, u32))
    requires
        s.1.len() > 0,
        s.2,
        s.3 < u32::MAX,
    ensures
        after_next(after_event(after_event(s, PlaybackEvent::Undo).0, PlaybackEvent::Step).0).1 == Some(s.1.last()),
        after_next(after_event(after_event(s, PlaybackEvent::Undo).0, PlaybackEvent::Step).0).0 == s,
{
    let u = after_event(after_event(s, PlaybackEvent::Undo).0, PlaybackEvent::Step).0;
    assert(u.0[0] == s.1.last());
    assert(u.0.drop_first() =~= s.0);
    assert(u.1.push(u.0[0]) =~= s.1);
}

} // verus!
