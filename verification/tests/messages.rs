use dog_bot_template::messages::{MessageRecord, MsgRepo};

#[test]
fn test_record_message() {
    let mut db = MsgRepo::new();
    let message_id = 1u64;
    let user_id = 123u64;
    let guild_id = 456u64;
    let channel_id = 789u64;
    let timestamp = chrono::Utc::now().timestamp();
    db.record(message_id, user_id, guild_id, channel_id, timestamp);
    let channels = vec![channel_id];
    let user_stats = db.get_user_stats(guild_id, Some(&channels), None, None);
    assert_eq!(user_stats.len(), 1);
    assert_eq!(user_stats[0].0, user_id);
    assert_eq!(user_stats[0].1, 1);
    let channel_stats = db.get_channel_stats(guild_id, None, None);
    assert_eq!(channel_stats.len(), 1);
    assert_eq!(channel_stats[0].0, channel_id);
    assert_eq!(channel_stats[0].1, 1);
}

#[test]
fn duplicate_record_is_a_noop() {
    let mut db = MsgRepo::new();
    db.record(42, 1, 2, 3, 100);
    db.record(42, 1, 2, 3, 100);
    db.record(42, 9, 9, 9, 999);
    let stats = db.get_channel_stats(2, None, None);
    assert_eq!(stats, vec![(3, 1)]);
    let all = db.get_user_messages(1, 2);
    assert_eq!(all.len(), 1);
}

#[test]
fn window_includes_from_excludes_to() {
    let mut db = MsgRepo::new();
    db.record(1, 1, 2, 3, 5);
    db.record(2, 1, 2, 3, 20);
    let stats = db.get_channel_stats(2, Some(5), Some(20));
    assert_eq!(stats, vec![(3, 1)]);
    let none = db.get_channel_stats(2, Some(6), Some(20));
    assert!(none.is_empty());
}

#[test]
fn user_stats_scenario_half_open_window() {
    let mut db = MsgRepo::new();
    let user = 77u64;
    let guild = 5u64;
    let channel = 11u64;
    db.record(1, user, guild, channel, 0);
    db.record(2, user, guild, channel, 10);
    let stats = db.get_user_stats(guild, None, Some(5), Some(20));
    assert_eq!(stats, vec![(user, 1)]);
}

#[test]
fn channel_stats_sorted_by_count_descending() {
    let mut db = MsgRepo::new();
    let guild = 1u64;
    db.record(1, 10, guild, 100, 0);
    db.record(2, 10, guild, 200, 1);
    db.record(3, 10, guild, 200, 2);
    db.record(4, 10, guild, 300, 3);
    db.record(5, 10, guild, 300, 4);
    db.record(6, 10, guild, 300, 5);
    let stats = db.get_channel_stats(guild, None, None);
    assert_eq!(stats, vec![(300, 3), (200, 2), (100, 1)]);
}

#[test]
fn stats_respect_guild_and_channel_scope() {
    let mut db = MsgRepo::new();
    db.record(1, 8, 1, 50, 0);
    db.record(2, 8, 2, 50, 0);
    db.record(3, 8, 1, 60, 0);
    let scope = vec![50u64];
    let stats = db.get_user_stats(1, Some(&scope), None, None);
    assert_eq!(stats, vec![(8, 1)]);
    let unscoped = db.get_user_stats(1, None, None, None);
    assert_eq!(unscoped, vec![(8, 2)]);
}

#[test]
fn user_messages_newest_first() {
    let mut db = MsgRepo::new();
    db.record(1, 4, 9, 3, 100);
    db.record(2, 4, 9, 3, 300);
    db.record(3, 4, 9, 4, 200);
    db.record(4, 5, 9, 3, 400);
    db.record(5, 4, 8, 3, 500);
    let msgs = db.get_user_messages(4, 9);
    assert_eq!(msgs.len(), 3);
    assert_eq!(
        msgs,
        vec![
            MessageRecord { message_id: 2, user_id: 4, guild_id: 9, channel_id: 3, timestamp: 300 },
            MessageRecord { message_id: 3, user_id: 4, guild_id: 9, channel_id: 4, timestamp: 200 },
            MessageRecord { message_id: 1, user_id: 4, guild_id: 9, channel_id: 3, timestamp: 100 },
        ]
    );
}

#[test]
fn nuke_deletes_everything() {
    let mut db = MsgRepo::new();
    db.record(1, 1, 1, 1, 1);
    db.record(2, 2, 1, 1, 2);
    db.nuke();
    assert!(db.get_channel_stats(1, None, None).is_empty());
    assert!(db.get_user_messages(1, 1).is_empty());
}

#[test]
fn empty_ledger_yields_empty_answers() {
    let db = MsgRepo::new();
    assert!(db.get_channel_stats(1, None, None).is_empty());
    assert!(db.get_user_stats(1, None, Some(0), Some(10)).is_empty());
    assert!(db.get_user_messages(1, 1).is_empty());
}
