use channel_store::channel::ChannelState;
use channel_store::channel::state_from_str;
use channel_store::channel::state_to_string;

#[test]
fn test_state_spellings_are_stable() {
    assert_eq!(state_to_string(ChannelState::Opened), "Opened");
    assert_eq!(state_to_string(ChannelState::PendingOpen), "PendingOpen");
    assert_eq!(state_to_string(ChannelState::PendingClose), "PendingClose");
    assert_eq!(state_to_string(ChannelState::Closed), "Closed");
}

#[test]
fn test_state_spelling_round_trip() {
    for state in [
        ChannelState::Opened,
        ChannelState::PendingOpen,
        ChannelState::PendingClose,
        ChannelState::Closed,
    ] {
        assert_eq!(state_from_str(&state_to_string(state)), Some(state));
    }
}

#[test]
fn test_unknown_state_spelling_does_not_parse() {
    assert_eq!(state_from_str(&"opened".to_string()), None);
    assert_eq!(state_from_str(&"".to_string()), None);
    assert_eq!(state_from_str(&"Opened ".to_string()), None);
}
