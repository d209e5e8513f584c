//! The loop that draws, waits for a key and refreshes.

use vstd::prelude::*;

use crate::span::Span;

verus! {

/// A key that was pressed.
#[derive(Clone, Copy, PartialEq, Eq, Structural, Debug)]
pub enum Key {
    Char(char),
    Esc,
    Other,
}

/// What has just been done, and what came of it.
#[derive(Clone, Copy, PartialEq, Eq, Structural, Debug)]
pub enum LoopEvent {
    /// The state was refreshed and the clock of the ticks set back.
    Refreshed,
    /// The screen was drawn, so long after the last tick.
    Drawn(Span),
    /// The wait is over, with a key or without.
    Waited(Option<Key>),
    /// The clock was read, so long after the last tick.
    Measured(Span),
}

/// What to do next.
#[derive(Clone, Copy, PartialEq, Eq, Structural, Debug)]
pub enum LoopAction {
    /// Draw the screen.
    Draw,
    /// Wait for a key, so long at most.
    Wait(Span),
    /// Read the time since the last tick.
    Measure,
    /// Refresh the state and set the clock of the ticks back.
    Refresh,
    /// Leave the loop.
    Quit,
}

/// The time between two refreshes.
pub open spec fn tick() -> Span {
    Span { secs: 1, nanos: 0 }
}

/// Whether a key ends the program.
pub open spec fn ends(key: Key) -> bool {
    key == Key::Char('q') || key == Key::Esc
}

/// Whether a step of the loop follows an event: draw after a refresh, wait for the rest of
/// the tick after drawing, leave for a key that ends the program and read the clock else,
/// and refresh once the tick is over.
pub open spec fn follows(event: LoopEvent, action: LoopAction) -> bool {
    match event {
        LoopEvent::Refreshed => action == LoopAction::Draw,
        LoopEvent::Drawn(since) => {
            &&& action is Wait
            &&& action->Wait_0.wf()
            &&& action->Wait_0.in_nanos() == (if since.in_nanos() < tick().in_nanos() {
                tick().in_nanos() - since.in_nanos()
            } else {
                0
            })
        },
        LoopEvent::Waited(Some(key)) => action == (if ends(key) {
            LoopAction::Quit
        } else {
            LoopAction::Measure
        }),
        LoopEvent::Waited(None) => action == LoopAction::Measure,
        LoopEvent::Measured(since) => action == (if since.in_nanos() >= tick().in_nanos() {
            LoopAction::Refresh
        } else {
            LoopAction::Draw
        }),
    }
}

/// Whether the time in an event is well formed.
pub open spec fn event_wf(event: LoopEvent) -> bool {
    match event {
        LoopEvent::Drawn(since) => since.wf(),
        LoopEvent::Measured(since) => since.wf(),
        _ => true,
    }
}

/// Decides what to do next.
pub fn next_action(event: LoopEvent) -> (res: LoopAction)
    requires
        event_wf(event),
    ensures
        follows(event, res),
{
    let rate = Span { secs: 1, nanos: 0 };
    match event {
        LoopEvent::Refreshed => LoopAction::Draw,
        LoopEvent::Drawn(since) => LoopAction::Wait(rate.saturating_sub(since)),
        LoopEvent::Waited(Some(Key::Char(c))) => if c == 'q' {
            LoopAction::Quit
        } else {
            LoopAction::Measure
        },
        LoopEvent::Waited(Some(Key::Esc)) => LoopAction::Quit,
        LoopEvent::Waited(Some(Key::Other)) => LoopAction::Measure,
        LoopEvent::Waited(None) => LoopAction::Measure,
        LoopEvent::Measured(since) => if since.reaches(rate) {
            LoopAction::Refresh
        } else {
            LoopAction::Draw
        },
    }
}

/// An event has one action only that follows it.
pub proof fn lemma_follows_unique(event: LoopEvent, a: LoopAction, b: LoopAction)
    requires
        follows(event, a),
        follows(event, b),
    ensures
        a == b,
{
    if let LoopEvent::Drawn(since) = event {
        let x = a->Wait_0;
        let y = b->Wait_0;
        assert(x.secs == y.secs && x.nanos == y.nanos);
    }
}

/// The wait never reaches past the tick, and a tick that is over is not waited for.
pub proof fn lemma_wait_ends_with_tick(since: Span, action: LoopAction)
    requires
        since.wf(),
        follows(LoopEvent::Drawn(since), action),
    ensures
        action is Wait,
        since.in_nanos() <= tick().in_nanos() ==> since.in_nanos() + action->Wait_0.in_nanos()
            == tick().in_nanos(),
        since.in_nanos() >= tick().in_nanos() ==> action->Wait_0.in_nanos() == 0,
{
}

/// The loop is left for a key that ends the program, and for nothing else.
pub proof fn lemma_quits_for_a_key_alone(event: LoopEvent, action: LoopAction)
    requires
        follows(event, action),
    ensures
        action == LoopAction::Quit <==> (event matches LoopEvent::Waited(Some(key)) && ends(key)),
{
}

/// The state is refreshed once the tick is over, and not before.
pub proof fn lemma_refreshes_after_a_tick(event: LoopEvent, action: LoopAction)
    requires
        follows(event, action),
    ensures
        action == LoopAction::Refresh <==> (event matches LoopEvent::Measured(since)
            && since.in_nanos() >= tick().in_nanos()),
{
}

/// The steps of the loop, one after another: draw what was refreshed, wait for what is left
/// of a second, leave for `q` or Esc alone, and else refresh once a second has passed and
/// draw again.
pub proof fn lemma_loop(event: LoopEvent, action: LoopAction)
    requires
        event_wf(event),
        follows(event, action),
    ensures
        event is Refreshed ==> action == LoopAction::Draw,
        event matches LoopEvent::Drawn(since) ==> {
            &&& action is Wait
            &&& since.in_nanos() <= 1_000_000_000 ==> action->Wait_0.in_nanos() == 1_000_000_000
                - since.in_nanos()
            &&& since.in_nanos() > 1_000_000_000 ==> action->Wait_0.in_nanos() == 0
        },
        event matches LoopEvent::Waited(Some(Key::Char(c))) ==> action == (if c == 'q' {
            LoopAction::Quit
        } else {
            LoopAction::Measure
        }),
        event == LoopEvent::Waited(Some(Key::Esc)) ==> action == LoopAction::Quit,
        event == LoopEvent::Waited(Some(Key::Other)) ==> action == LoopAction::Measure,
        event == LoopEvent::Waited(None) ==> action == LoopAction::Measure,
        event matches LoopEvent::Measured(since) ==> action == (if since.secs >= 1 {
            LoopAction::Refresh
        } else {
            LoopAction::Draw
        }),
{
}

} // verus!
