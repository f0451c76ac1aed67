use msw_core::watch::{is_interesting, step, FileEvent, WatchInput, WatchState, WatchStep};

#[test]
fn only_changes_are_interesting() {
    assert!(is_interesting(FileEvent::Create));
    assert!(is_interesting(FileEvent::Modify));
    assert!(is_interesting(FileEvent::Remove));
    assert!(is_interesting(FileEvent::Any));
    assert!(!is_interesting(FileEvent::Access));
    assert!(!is_interesting(FileEvent::Other));
    assert!(!is_interesting(FileEvent::Failed));
}

#[test]
fn a_burst_of_events_rebuilds_once() {
    let (s, a) = step(WatchState::Waiting, WatchInput::Event(FileEvent::Access));
    assert_eq!((s, a), (WatchState::Waiting, WatchStep::Wait));
    let (s, a) = step(s, WatchInput::Event(FileEvent::Create));
    assert_eq!((s, a), (WatchState::Settling, WatchStep::WaitBriefly));
    let (s, a) = step(s, WatchInput::Event(FileEvent::Modify));
    assert_eq!((s, a), (WatchState::Settling, WatchStep::WaitBriefly));
    let (s, a) = step(s, WatchInput::Quiet);
    assert_eq!((s, a), (WatchState::Waiting, WatchStep::Rebuild));
    let (_, a) = step(s, WatchInput::Closed);
    assert_eq!(a, WatchStep::Stop);
}

#[test]
fn closing_mid_burst_still_rebuilds() {
    let (s, _) = step(WatchState::Waiting, WatchInput::Event(FileEvent::Remove));
    assert_eq!(step(s, WatchInput::Closed), (WatchState::Waiting, WatchStep::Rebuild));
}
