use whosaid::database::Database;
use whosaid::entities::{Channel, Guild, Message, RemoteMessage, User};
use whosaid::error::DatabaseError;
use whosaid::game::Game;
use whosaid::scrapper::{run_cycle, RemoteChannelSnapshot, RemoteGuildSnapshot, Scrapper};
use whosaid::sync::sync_channel;

fn user(id: u64, name: &str, bot: bool) -> User {
    User { id, name: name.to_string(), discriminator: None, global_name: None, bot }
}

fn channel(id: u64, guild_id: u64) -> Channel {
    Channel { id, name: format!("channel-{}", id), guild_id, last_message_id: None, backfill_done: false }
}

fn remote(id: u64, channel_id: u64, author_id: u64, content: &str) -> RemoteMessage {
    RemoteMessage { id, channel_id, author_id, content: content.to_string(), timestamp: id as i64 }
}

/// Guild 1 owned by user 100, members 100 (human) and 200 (bot), one
/// channel 10 holding 25 remote messages with ids 1..=25.
fn seeded_store() -> (Database, Vec<RemoteMessage>, Vec<u64>) {
    let mut db = Database::new();
    db.save_user(&user(100, "alice", false)).unwrap();
    db.save_user(&user(200, "botty", true)).unwrap();
    db.save_guild(&Guild { id: 1, name: "g".to_string(), owner_id: 100 }).unwrap();
    db.save_channels(&vec![channel(10, 1)]).unwrap();
    let mut history = Vec::new();
    for id in 1..=25u64 {
        // twelve messages by 100 are at least five characters long
        if id <= 12 {
            history.push(remote(id, 10, 100, "hello world"));
        } else if id <= 20 {
            history.push(remote(id, 10, 200, "beep boop noise"));
        } else {
            history.push(remote(id, 10, 100, "hi"));
        }
    }
    (db, history, vec![100, 200])
}

#[test]
fn empty_store_point_lookups_fail() {
    let db = Database::new();
    assert_eq!(db.get_channel(7), Err(DatabaseError::NotFound));
    assert_eq!(db._get_message(7), Err(DatabaseError::NotFound));
}

#[test]
fn guild_needs_stored_owner() {
    let mut db = Database::new();
    let g = Guild { id: 1, name: "g".to_string(), owner_id: 100 };
    assert_eq!(db.save_guild(&g), Err(DatabaseError::PersistenceFailure));
    db.save_user(&user(100, "alice", false)).unwrap();
    assert_eq!(db.save_guild(&g), Ok(()));
    assert_eq!(db.get_guilds().len(), 1);
}

#[test]
fn message_needs_stored_channel() {
    let mut db = Database::new();
    let m = Message { id: 1, channel_id: 10, author_id: None, content: "x".to_string(), timestamp: 0 };
    assert_eq!(db.save_messages(&vec![m]), Err(DatabaseError::PersistenceFailure));
}

#[test]
fn emoji_upsert_overwrites_value() {
    let (mut db, _, _) = seeded_store();
    assert_eq!(db.save_user_emoji(100, 1, ":wave:"), Ok(()));
    assert_eq!(db.save_user_emoji(100, 1, ":sun:"), Ok(()));
    assert_eq!(db.save_user_emoji(999, 1, ":x:"), Err(DatabaseError::PersistenceFailure));
}

#[test]
fn backfill_completes_in_expected_fetches() {
    // 25 remote messages, page size 10: ceil(25/10) + 1 = 4 fetches, and
    // the backfill flag is set exactly once.
    let (mut db, history, members) = seeded_store();
    let report = sync_channel(&mut db, 10, &history, &members, 10).unwrap();
    assert_eq!(report.backfill_fetches, 4);
    assert!(report.marked_backfilled);
    assert!(db.get_channel(10).unwrap().backfill_done);
}

#[test]
fn catchup_reaches_remote_newest() {
    let (mut db, history, members) = seeded_store();
    sync_channel(&mut db, 10, &history, &members, 10).unwrap();
    let newest = db.get_channel_last_message(10).unwrap();
    assert_eq!(newest.id, 25);
    let oldest = db.get_channel_first_message(10).unwrap();
    assert_eq!(oldest.id, 1);
}

#[test]
fn resync_is_idempotent() {
    let (mut db, history, members) = seeded_store();
    sync_channel(&mut db, 10, &history, &members, 10).unwrap();
    let before: Vec<u64> = (1..=25).map(|id| db._get_message(id).unwrap().id).collect();
    let second = sync_channel(&mut db, 10, &history, &members, 10).unwrap();
    assert!(!second.marked_backfilled);
    let after: Vec<u64> = (1..=25).map(|id| db._get_message(id).unwrap().id).collect();
    assert_eq!(before, after);
}

#[test]
fn catchup_picks_up_new_messages() {
    let (mut db, mut history, members) = seeded_store();
    sync_channel(&mut db, 10, &history, &members, 10).unwrap();
    history.push(remote(26, 10, 100, "late arrival"));
    let report = sync_channel(&mut db, 10, &history, &members, 10).unwrap();
    assert!(!report.marked_backfilled);
    assert_eq!(db.get_channel_last_message(10).unwrap().id, 26);
}

#[test]
fn sync_unknown_channel_is_not_found() {
    let mut db = Database::new();
    let r = sync_channel(&mut db, 99, &Vec::new(), &Vec::new(), 10);
    assert!(matches!(r, Err(DatabaseError::NotFound)));
}

#[test]
fn ranking_excludes_bots_and_orders_by_count() {
    let (mut db, history, members) = seeded_store();
    sync_channel(&mut db, 10, &history, &members, 10).unwrap();
    // user 100 authored 14 stored messages, user 200 (a bot) 8
    let top = db.get_most_active_users_with_emoji(1, 5);
    assert_eq!(top.len(), 1);
    assert_eq!(top[0].id, 100);
    assert_eq!(top[0].name, "alice");
}

#[test]
fn ranking_breaks_ties_by_ascending_id() {
    let mut db = Database::new();
    db.save_user(&user(100, "alice", false)).unwrap();
    db.save_user(&user(50, "zoe", false)).unwrap();
    db.save_guild(&Guild { id: 1, name: "g".to_string(), owner_id: 100 }).unwrap();
    db.save_channels(&vec![channel(10, 1)]).unwrap();
    let history = vec![remote(1, 10, 100, "aaaaaa"), remote(2, 10, 50, "bbbbbb")];
    sync_channel(&mut db, 10, &history, &vec![100, 50], 10).unwrap();
    let top = db.get_most_active_users_with_emoji(1, 5);
    assert_eq!(top.len(), 2);
    assert_eq!(top[0].id, 50);
    assert_eq!(top[1].id, 100);
}

#[test]
fn sampling_respects_all_predicates() {
    let (mut db, history, members) = seeded_store();
    sync_channel(&mut db, 10, &history, &members, 10).unwrap();
    // only user 100's twelve long messages qualify
    let quotes = db.get_random_messages(1, 50, 5, &vec![100], 7);
    assert_eq!(quotes.len(), 12);
    for q in &quotes {
        assert_eq!(q.author_id, Some(100));
        assert!(q.content.chars().count() >= 5);
        assert!(q.id <= 12);
    }
    let mut ids: Vec<u64> = quotes.iter().map(|q| q.id).collect();
    ids.sort();
    ids.dedup();
    assert_eq!(ids.len(), 12);
}

#[test]
fn sampling_returns_requested_count_when_enough_qualify() {
    // the end-to-end scenario: 25 remote messages, page size 10,
    // minimum length 5, twelve long quotes by author 100; asking for
    // five returns exactly five distinct quotes, all by 100
    let (mut db, history, members) = seeded_store();
    sync_channel(&mut db, 10, &history, &members, 10).unwrap();
    let quotes = db.get_random_messages(1, 5, 5, &vec![100], 42);
    assert_eq!(quotes.len(), 5);
    let mut ids: Vec<u64> = Vec::new();
    for q in &quotes {
        assert_eq!(q.author_id, Some(100));
        assert!(q.content.chars().count() >= 5);
        assert!(!ids.contains(&q.id));
        ids.push(q.id);
    }
}

#[test]
fn sampling_empty_when_none_qualify() {
    let (mut db, history, members) = seeded_store();
    sync_channel(&mut db, 10, &history, &members, 10).unwrap();
    assert_eq!(db.get_random_messages(1, 5, 100, &vec![100], 1).len(), 0);
    assert_eq!(db.get_random_messages(2, 5, 1, &vec![100], 1).len(), 0);
}

#[test]
fn single_flight_permits_one_cycle() {
    let mut s = Scrapper::new();
    assert!(s.try_begin());
    assert!(!s.try_begin());
    s.finish();
    assert!(s.try_begin());
}

#[test]
fn game_round_composes_ranking_and_sampling() {
    let (mut db, history, members) = seeded_store();
    sync_channel(&mut db, 10, &history, &members, 10).unwrap();
    let game = Game::new(&db, 1, 5, 5, 3, 9).unwrap();
    assert_eq!(game.users().len(), 1);
    assert_eq!(game.users()[0].id, 100);
    assert_eq!(game.messages().len(), 5);
    for q in game.messages() {
        assert_eq!(q.author_id, Some(100));
    }
}

#[test]
fn game_rejects_malformed_parameters() {
    let db = Database::new();
    assert!(matches!(Game::new(&db, 1, 0, 5, 3, 9), Err(DatabaseError::InvalidInput)));
    assert!(matches!(Game::new(&db, 1, 5, 5, 0, 9), Err(DatabaseError::InvalidInput)));
    // an empty store degrades to an empty round, not an error
    let game = Game::new(&db, 1, 5, 5, 3, 9).unwrap();
    assert_eq!(game.users().len(), 0);
    assert_eq!(game.messages().len(), 0);
}

#[test]
fn departed_author_is_nulled() {
    let mut db = Database::new();
    db.save_user(&user(100, "alice", false)).unwrap();
    db.save_guild(&Guild { id: 1, name: "g".to_string(), owner_id: 100 }).unwrap();
    db.save_channels(&vec![channel(10, 1)]).unwrap();
    // author 300 is not in the member list at scrape time
    let history = vec![remote(1, 10, 300, "orphaned words")];
    sync_channel(&mut db, 10, &history, &vec![100], 10).unwrap();
    assert_eq!(db._get_message(1).unwrap().author_id, None);
}

#[test]
fn full_cycle_upserts_entities_and_syncs_channels() {
    let alice = user(100, "alice", false);
    let remote = RemoteGuildSnapshot {
        guild: Guild { id: 1, name: "g".to_string(), owner_id: 100 },
        owner: alice.clone(),
        members: vec![alice, user(50, "zoe", false)],
        channels: vec![
            RemoteChannelSnapshot {
                channel: channel(10, 1),
                history: vec![remote(1, 10, 100, "first words"), remote(2, 10, 50, "second words")],
            },
            RemoteChannelSnapshot {
                channel: channel(11, 1),
                history: vec![remote(3, 11, 100, "third words")],
            },
        ],
    };
    let mut db = Database::new();
    let results = run_cycle(&mut db, &remote, 10).unwrap();
    assert_eq!(results.len(), 2);
    assert!(results.iter().all(|r| r.is_ok()));
    assert_eq!(db.get_guilds().len(), 1);
    assert!(db.get_channel(10).unwrap().backfill_done);
    assert!(db.get_channel(11).unwrap().backfill_done);
    for id in 1..=3u64 {
        assert!(db._get_message(id).is_ok());
    }
    // a second cycle with unchanged history stores nothing new
    let again = run_cycle(&mut db, &remote, 10).unwrap();
    assert!(again.iter().all(|r| r.is_ok()));
    assert_eq!(again[0].as_ref().unwrap().backfill_fetches, 0);
}

#[test]
fn snapshot_channel_cannot_arrive_pre_backfilled() {
    let (mut db, _, _) = seeded_store();
    let mut pre_marked = channel(77, 1);
    pre_marked.backfill_done = true;
    db.save_channels(&vec![pre_marked]).unwrap();
    // the insert normalized the flag to false
    assert!(!db.get_channel(77).unwrap().backfill_done);
}

#[test]
fn scrap_trigger_skips_while_running() {
    let alice = user(100, "alice", false);
    let remote = RemoteGuildSnapshot {
        guild: Guild { id: 1, name: "g".to_string(), owner_id: 100 },
        owner: alice.clone(),
        members: vec![alice],
        channels: vec![RemoteChannelSnapshot {
            channel: channel(10, 1),
            history: vec![remote(1, 10, 100, "only words")],
        }],
    };
    let mut db = Database::new();
    let mut s = Scrapper::new();
    // a trigger that arrives while a cycle holds the permit is a no-op
    assert!(s.try_begin());
    assert!(!s.scrap(&mut db, &remote, 10));
    assert!(db.get_channel(10).is_err());
    s.finish();
    assert!(s.scrap(&mut db, &remote, 10));
    assert!(db._get_message(1).is_ok());
}
