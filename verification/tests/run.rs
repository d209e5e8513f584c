//! The loop.

use linux_tui_monitor::run::{next_action, Key, LoopAction, LoopEvent};
use linux_tui_monitor::span::Span;

fn span(secs: u64, nanos: u32) -> Span {
    Span { secs, nanos }
}

#[test]
fn a_refresh_is_drawn() {
    assert_eq!(next_action(LoopEvent::Refreshed), LoopAction::Draw);
}

#[test]
fn the_wait_is_for_the_rest_of_the_tick() {
    let cases = [
        (span(0, 0), span(1, 0)),
        (span(0, 300_000_000), span(0, 700_000_000)),
        (span(0, 999_999_999), span(0, 1)),
        (span(1, 0), span(0, 0)),
        (span(1, 1), span(0, 0)),
        (span(u64::MAX, 0), span(0, 0)),
    ];
    for (since, wait) in cases {
        assert_eq!(next_action(LoopEvent::Drawn(since)), LoopAction::Wait(wait));
    }
}

#[test]
fn q_and_escape_end_the_program() {
    for key in [Key::Char('q'), Key::Esc] {
        assert_eq!(next_action(LoopEvent::Waited(Some(key))), LoopAction::Quit);
    }
    for key in [Key::Char('Q'), Key::Char('x'), Key::Other] {
        assert_eq!(next_action(LoopEvent::Waited(Some(key))), LoopAction::Measure);
    }
    assert_eq!(next_action(LoopEvent::Waited(None)), LoopAction::Measure);
}

#[test]
fn the_state_is_refreshed_once_the_tick_is_over() {
    assert_eq!(next_action(LoopEvent::Measured(span(0, 999_999_999))), LoopAction::Draw);
    assert_eq!(next_action(LoopEvent::Measured(span(1, 0))), LoopAction::Refresh);
    assert_eq!(next_action(LoopEvent::Measured(span(7, 5))), LoopAction::Refresh);
}

#[test]
fn spans_are_subtracted_and_compared() {
    assert_eq!(span(5, 1).saturating_sub(span(2, 3)), span(2, 999_999_998));
    assert_eq!(span(5, 3).saturating_sub(span(2, 1)), span(3, 2));
    assert_eq!(span(2, 1).saturating_sub(span(2, 3)), span(0, 0));
    assert!(span(2, 3).reaches(span(2, 3)));
    assert!(!span(2, 2).reaches(span(2, 3)));
    assert!(span(3, 0).reaches(span(2, 3)));
}
