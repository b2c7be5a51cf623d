use channel_store::channel::Channel;
use channel_store::channel::ChannelState;
use channel_store::store::SqliteStorage;

fn channel(
    funding_txid: &str,
    short_channel_id: &str,
    state: ChannelState,
    spendable_msat: u64,
    receivable_msat: u64,
) -> Channel {
    Channel {
        funding_txid: funding_txid.to_string(),
        short_channel_id: short_channel_id.to_string(),
        state,
        spendable_msat,
        receivable_msat,
        closed_at: None,
    }
}

#[test]
fn test_simple_sync_channels() {
    let mut storage = SqliteStorage::new();

    let channels = vec![
        Channel {
            funding_txid: "123".to_string(),
            short_channel_id: "10x11x12".to_string(),
            state: ChannelState::Opened,
            spendable_msat: 100,
            receivable_msat: 1000,
            closed_at: None,
        },
        Channel {
            funding_txid: "456".to_string(),
            short_channel_id: "13x14x15".to_string(),
            state: ChannelState::Opened,
            spendable_msat: 200,
            receivable_msat: 2000,
            closed_at: None,
        },
    ];

    storage.update_channels(&channels).unwrap();
    let queried_channels = storage.list_channels().unwrap();
    assert_eq!(channels, queried_channels);

    storage.update_channels(&channels).unwrap();
    let queried_channels = storage.list_channels().unwrap();
    assert_eq!(channels, queried_channels);
}

#[test]
fn test_sync_closed_channels() {
    let mut storage = SqliteStorage::new();

    let channels = vec![
        Channel {
            funding_txid: "123".to_string(),
            short_channel_id: "10x11x12".to_string(),
            state: ChannelState::Opened,
            spendable_msat: 100,
            receivable_msat: 1000,
            closed_at: None,
        },
        Channel {
            funding_txid: "456".to_string(),
            short_channel_id: "13x14x15".to_string(),
            state: ChannelState::Closed,
            spendable_msat: 200,
            receivable_msat: 2000,
            closed_at: None,
        },
    ];

    storage.update_channels(&channels).unwrap();
    let queried_channels = storage.list_channels().unwrap();
    assert_eq!(2, queried_channels.len());
    assert_eq!(channels[0], queried_channels[0]);
    assert!(queried_channels[1].closed_at.is_some());

    storage.update_channels(&channels).unwrap();
    let queried_channels = storage.list_channels().unwrap();
    assert_eq!(channels[0], queried_channels[0]);

    // test all channels were closed
    storage.update_channels(&Vec::new()).unwrap();
    let queried_channels = storage.list_channels().unwrap();
    let expected = vec![
        Channel {
            funding_txid: "123".to_string(),
            short_channel_id: "10x11x12".to_string(),
            state: ChannelState::Closed,
            spendable_msat: 100,
            receivable_msat: 1000,
            closed_at: None,
        },
        Channel {
            funding_txid: "456".to_string(),
            short_channel_id: "13x14x15".to_string(),
            state: ChannelState::Closed,
            spendable_msat: 200,
            receivable_msat: 2000,
            closed_at: None,
        },
    ];
    assert_eq!(expected.len(), queried_channels.len());
    assert!(queried_channels[0].closed_at.is_some());
    assert!(queried_channels[1].closed_at.is_some());

    // test dedup channels in db
    storage.update_channels(&channels).unwrap();
    let queried_channels = storage.list_channels().unwrap();
    assert_eq!(channels.len(), queried_channels.len());
}

#[test]
fn test_sync_scenario_close_and_reopen() {
    let mut storage = SqliteStorage::new();
    let channels = vec![
        channel("123", "10x11x12", ChannelState::Opened, 100, 1000),
        channel("456", "13x14x15", ChannelState::Opened, 200, 2000),
    ];

    // first sync: both rows stored unchanged, no closure timestamp
    storage.update_channels(&channels).unwrap();
    let listed = storage.list_channels().unwrap();
    assert_eq!(channels, listed);
    assert_eq!(listed[0].closed_at, None);
    assert_eq!(listed[1].closed_at, None);

    // re-sync of the same snapshot: nothing changes
    storage.update_channels(&channels).unwrap();
    assert_eq!(channels, storage.list_channels().unwrap());

    // empty snapshot: every stored row is closed and timestamped
    storage.update_channels(&Vec::new()).unwrap();
    let closed = storage.list_channels().unwrap();
    assert_eq!(2, closed.len());
    assert_eq!(closed[0].state, ChannelState::Closed);
    assert_eq!(closed[1].state, ChannelState::Closed);
    let stamp_first = closed[0].closed_at;
    let stamp_second = closed[1].closed_at;
    assert!(stamp_first.is_some());
    assert!(stamp_second.is_some());

    // syncing the original channels again refreshes the state but must not
    // touch the first-closure timestamps; the row count stays two
    storage.update_channels(&channels).unwrap();
    let reopened = storage.list_channels().unwrap();
    assert_eq!(2, reopened.len());
    assert_eq!(reopened[0].state, ChannelState::Opened);
    assert_eq!(reopened[1].state, ChannelState::Opened);
    assert_eq!(reopened[0].closed_at, stamp_first);
    assert_eq!(reopened[1].closed_at, stamp_second);
}

#[test]
fn test_first_closure_timestamp_is_write_once() {
    let mut storage = SqliteStorage::new();
    storage
        .update_channels(&[channel("123", "10x11x12", ChannelState::Opened, 100, 1000)])
        .unwrap();
    assert_eq!(storage.list_channels().unwrap()[0].closed_at, None);

    // the channel starts closing: first closure, timestamp written
    storage
        .update_channels(&[channel("123", "10x11x12", ChannelState::PendingClose, 50, 500)])
        .unwrap();
    let rows = storage.list_channels().unwrap();
    assert_eq!(rows[0].state, ChannelState::PendingClose);
    assert_eq!(rows[0].spendable_msat, 50);
    assert_eq!(rows[0].receivable_msat, 500);
    let stamp = rows[0].closed_at;
    assert!(stamp.is_some());

    // a later closing sync refreshes the fields but keeps the timestamp
    storage
        .update_channels(&[channel("123", "20x21x22", ChannelState::Closed, 0, 0)])
        .unwrap();
    let rows = storage.list_channels().unwrap();
    assert_eq!(rows[0].state, ChannelState::Closed);
    assert_eq!(rows[0].short_channel_id, "20x21x22");
    assert_eq!(rows[0].spendable_msat, 0);
    assert_eq!(rows[0].closed_at, stamp);
}

#[test]
fn test_still_open_row_is_left_untouched() {
    // a stored row that has never closed and stays open is not refreshed:
    // fields are fresh only at creation and at first closure
    let mut storage = SqliteStorage::new();
    storage
        .update_channels(&[channel("123", "10x11x12", ChannelState::Opened, 100, 1000)])
        .unwrap();
    storage
        .update_channels(&[channel("123", "99x99x99", ChannelState::PendingOpen, 555, 666)])
        .unwrap();
    let rows = storage.list_channels().unwrap();
    assert_eq!(1, rows.len());
    assert_eq!(rows[0].short_channel_id, "10x11x12");
    assert_eq!(rows[0].state, ChannelState::Opened);
    assert_eq!(rows[0].spendable_msat, 100);
    assert_eq!(rows[0].receivable_msat, 1000);
    assert_eq!(rows[0].closed_at, None);
}

#[test]
fn test_channel_arriving_closed_is_timestamped_at_insert() {
    let mut storage = SqliteStorage::new();
    storage
        .update_channels(&[channel("789", "16x17x18", ChannelState::Closed, 0, 0)])
        .unwrap();
    let rows = storage.list_channels().unwrap();
    assert_eq!(1, rows.len());
    assert_eq!(rows[0].state, ChannelState::Closed);
    assert!(rows[0].closed_at.is_some());
}

#[test]
fn test_list_length_counts_distinct_funding_txids() {
    let mut storage = SqliteStorage::new();
    let first = vec![
        channel("a1", "1x1x1", ChannelState::Opened, 1, 10),
        channel("b2", "2x2x2", ChannelState::Opened, 2, 20),
    ];
    let second = vec![
        channel("b2", "2x2x2", ChannelState::Opened, 2, 20),
        channel("c3", "3x3x3", ChannelState::Opened, 3, 30),
    ];
    storage.update_channels(&first).unwrap();
    storage.update_channels(&first).unwrap();
    storage.update_channels(&second).unwrap();
    storage.update_channels(&second).unwrap();
    // three distinct funding transactions were ever observed
    assert_eq!(3, storage.list_channels().unwrap().len());
}

#[test]
fn test_insert_or_update_channel_single() {
    let mut storage = SqliteStorage::new();
    storage
        .insert_or_update_channel(channel("123", "10x11x12", ChannelState::Opened, 100, 1000))
        .unwrap();
    storage
        .insert_or_update_channel(channel("123", "10x11x12", ChannelState::Closed, 100, 1000))
        .unwrap();
    let rows = storage.list_channels().unwrap();
    assert_eq!(1, rows.len());
    assert_eq!(rows[0].state, ChannelState::Closed);
    assert!(rows[0].closed_at.is_some());
    // a single upsert performs no sweep: other rows stay open
    storage
        .insert_or_update_channel(channel("456", "13x14x15", ChannelState::Opened, 200, 2000))
        .unwrap();
    let rows = storage.list_channels().unwrap();
    assert_eq!(2, rows.len());
    assert_eq!(rows[1].state, ChannelState::Opened);
    assert_eq!(rows[1].closed_at, None);
}
