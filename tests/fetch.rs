use transcript::fetch::{first_fetch_action, next_fetch_action, FetchAction, TranscriptError};

#[test]
fn fetch_starts_with_first_preference() {
    assert_eq!(first_fetch_action(3), FetchAction::Request(0));
    assert_eq!(first_fetch_action(0), FetchAction::GiveUp);
}

#[test]
fn fetch_accepts_first_non_empty_listing() {
    assert_eq!(next_fetch_action(3, 0, Some(2)), FetchAction::Accept(0));
    assert_eq!(next_fetch_action(3, 2, Some(1)), FetchAction::Accept(2));
}

#[test]
fn fetch_moves_on_after_failure_or_empty_listing() {
    assert_eq!(next_fetch_action(3, 0, None), FetchAction::Request(1));
    assert_eq!(next_fetch_action(3, 1, Some(0)), FetchAction::Request(2));
}

#[test]
fn fetch_gives_up_after_last_preference() {
    assert_eq!(next_fetch_action(3, 2, None), FetchAction::GiveUp);
    assert_eq!(next_fetch_action(1, 0, Some(0)), FetchAction::GiveUp);
}

#[test]
fn fetch_walk_over_preferences() {
    let outcomes = [None, Some(0), Some(4)];
    let mut action = first_fetch_action(outcomes.len());
    let mut asked = Vec::new();
    while let FetchAction::Request(i) = action {
        asked.push(i);
        action = next_fetch_action(outcomes.len(), i, outcomes[i]);
    }
    assert_eq!(asked, vec![0, 1, 2]);
    assert_eq!(action, FetchAction::Accept(2));
    assert_ne!(TranscriptError::NoCaptionsAvailable, TranscriptError::DecodeError);
}
