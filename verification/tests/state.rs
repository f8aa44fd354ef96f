use xelis_stats::state::ChannelState;

#[test]
fn a_new_state_knows_nothing() {
    let state = ChannelState::default();
    assert_eq!(state.category_id(), None);
    assert_eq!(state.channel_id("Price:"), None);
    assert!(state.entries().is_empty());
}

#[test]
fn a_recorded_channel_is_read_back() {
    let mut state = ChannelState::default();
    state.set_channel_id("Price:", 7);
    state.set_channel_id("Mcap:", 8);
    state.set_channel_id("Price:", 9);
    assert_eq!(state.channel_id("Price:"), Some(9));
    assert_eq!(state.channel_id("Mcap:"), Some(8));
    assert_eq!(state.channel_id("Network:"), None);
    assert_eq!(state.entries().len(), 2);
}

#[test]
fn zero_is_no_id() {
    let mut state = ChannelState::default();
    state.set_channel_id("Price:", 0);
    assert_eq!(state.channel_id("Price:"), None);
}

#[test]
fn a_state_is_rebuilt_from_its_entries() {
    let mut state = ChannelState::default();
    state.set_category_id(5);
    state.set_channel_id("Price:", 7);
    state.set_channel_id("Mcap:", 8);
    let copy = ChannelState::from_entries(state.category_id(), state.entries());
    assert_eq!(copy.category_id(), Some(5));
    assert_eq!(copy.entries(), state.entries());
}

#[test]
fn the_order_of_entries_does_not_matter() {
    let a = ("Price:".to_string(), 7);
    let b = ("Mcap:".to_string(), 8);
    for entries in [vec![a.clone(), b.clone()], vec![b, a]] {
        let state = ChannelState::from_entries(None, &entries);
        assert_eq!(state.channel_id("Price:"), Some(7));
        assert_eq!(state.channel_id("Mcap:"), Some(8));
    }
}

#[test]
fn a_later_entry_replaces_an_earlier_one() {
    let entries = vec![("Price:".to_string(), 7), ("Price:".to_string(), 8)];
    let state = ChannelState::from_entries(None, &entries);
    assert_eq!(state.channel_id("Price:"), Some(8));
    assert_eq!(state.entries().len(), 1);
}
