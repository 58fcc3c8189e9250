use dog_bot_template::error::BotError;
use dog_bot_template::flush::FlushRepo;

fn sample_insert(repo: &mut FlushRepo, message_id: u64, notification_id: u64, created_at: i64) -> Result<(), BotError> {
    repo.insert_at(
        message_id,
        notification_id,
        500,
        600,
        700,
        800,
        3,
        Some("spam".to_string()),
        created_at,
    )
}

#[test]
fn lookup_by_either_identifier() {
    let mut repo = FlushRepo::new();
    sample_insert(&mut repo, 1, 2, 100).unwrap();
    let by_message = repo.get(1).expect("found by message id");
    assert_eq!(by_message.message_id, 1);
    assert_eq!(by_message.notification_id, 2);
    assert_eq!(by_message.flusher_id, 500);
    assert_eq!(by_message.toilet_id, 600);
    assert_eq!(by_message.author_id, 700);
    assert_eq!(by_message.channel_id, 800);
    assert_eq!(by_message.threshold_count, 3);
    assert_eq!(by_message.created_at, 100);
    assert_eq!(by_message.reason.as_deref(), Some("spam"));
    let by_notice = repo.get(2).expect("found by notification id");
    assert_eq!(by_notice.message_id, 1);
}

#[test]
fn remove_by_one_identifier_hides_the_other() {
    let mut repo = FlushRepo::new();
    sample_insert(&mut repo, 1, 2, 100).unwrap();
    repo.remove(1);
    assert!(repo.get(2).is_none());
    assert!(repo.get(1).is_none());
}

#[test]
fn duplicate_message_id_is_a_conflict() {
    let mut repo = FlushRepo::new();
    sample_insert(&mut repo, 1, 2, 100).unwrap();
    let second = sample_insert(&mut repo, 1, 9, 999);
    assert!(matches!(second, Err(BotError::ConstraintViolation)));
    // the original record is untouched
    let kept = repo.get(1).expect("original still present");
    assert_eq!(kept.notification_id, 2);
    assert_eq!(kept.created_at, 100);
    assert!(repo.get(9).is_none());
}

#[test]
fn duplicate_notification_id_is_a_conflict() {
    let mut repo = FlushRepo::new();
    sample_insert(&mut repo, 1, 2, 100).unwrap();
    let second = sample_insert(&mut repo, 8, 2, 999);
    assert!(matches!(second, Err(BotError::ConstraintViolation)));
    assert!(repo.get(8).is_none());
}

#[test]
fn has_is_keyed_on_message_id() {
    let mut repo = FlushRepo::new();
    sample_insert(&mut repo, 1, 2, 100).unwrap();
    assert!(repo.has(1));
    assert!(!repo.has(2));
    assert!(!repo.has(3));
}

#[test]
fn remove_of_absent_id_is_a_noop() {
    let mut repo = FlushRepo::new();
    sample_insert(&mut repo, 1, 2, 100).unwrap();
    repo.remove(77);
    assert!(repo.get(1).is_some());
}

#[test]
fn prune_removes_exactly_the_older_records() {
    let mut repo = FlushRepo::new();
    sample_insert(&mut repo, 1, 2, 100).unwrap();
    sample_insert(&mut repo, 3, 4, 149).unwrap();
    sample_insert(&mut repo, 5, 6, 150).unwrap();
    sample_insert(&mut repo, 7, 8, 200).unwrap();
    repo.prune_before(150);
    assert!(repo.get(1).is_none());
    assert!(repo.get(3).is_none());
    let kept = repo.get(5).expect("record at the cutoff persists");
    assert_eq!(kept.notification_id, 6);
    assert_eq!(kept.created_at, 150);
    assert!(repo.get(7).is_some());
}

#[test]
fn insert_stamps_the_present_and_clean_sweeps_by_age() {
    let mut repo = FlushRepo::new();
    let before = chrono::Utc::now().timestamp();
    repo.insert(1, 2, 500, 600, 700, 800, 3, None).unwrap();
    let after = chrono::Utc::now().timestamp();
    let fresh = repo.get(1).expect("fresh record present");
    assert!(before <= fresh.created_at && fresh.created_at <= after);
    assert_eq!(fresh.reason, None);
    // a record from the distant past falls to an hour-long retention sweep
    sample_insert(&mut repo, 3, 4, 0).unwrap();
    repo.clean(3600);
    assert!(repo.get(3).is_none());
    assert!(repo.get(1).is_some());
}
