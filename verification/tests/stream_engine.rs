use telegram_bot::{
    NewUpdatesStream, PollOutcome, StreamStep, TelegramError, Update, UpdatesStream,
};

fn fresh() -> UpdatesStream {
    <UpdatesStream as NewUpdatesStream>::new()
}

fn upd(id: i64) -> Update {
    Update { id }
}

#[test]
fn first_pull_issues_poll_at_offset_one() {
    let mut s = fresh();
    match s.step(PollOutcome::Pending) {
        StreamStep::Issue(req, bound) => {
            assert_eq!(req.offset, Some(1));
            assert_eq!(req.limit, Some(100));
            assert_eq!(req.timeout, Some(5));
            assert_eq!(bound, 6000);
        }
        _ => panic!("expected a poll to be issued"),
    }
}

#[test]
fn batch_is_delivered_in_order_and_offset_advances() {
    let mut s = fresh();
    match s.step(PollOutcome::Pending) {
        StreamStep::Issue(_, _) => {}
        _ => panic!("expected a poll"),
    }
    match s.step(PollOutcome::Finished(Some(vec![upd(5), upd(6), upd(7)]))) {
        StreamStep::Ready(u) => assert_eq!(u.id, 5),
        _ => panic!("expected the first update"),
    }
    match s.step(PollOutcome::Pending) {
        StreamStep::Ready(u) => assert_eq!(u.id, 6),
        _ => panic!("expected the second update"),
    }
    match s.step(PollOutcome::Pending) {
        StreamStep::Ready(u) => assert_eq!(u.id, 7),
        _ => panic!("expected the third update"),
    }
    match s.step(PollOutcome::Pending) {
        StreamStep::Issue(req, _) => assert_eq!(req.offset, Some(8)),
        _ => panic!("expected the next poll at offset 8"),
    }
}

#[test]
fn over_delivered_batch_is_still_delivered_whole() {
    let mut s = fresh();
    s.limit(1);
    match s.step(PollOutcome::Pending) {
        StreamStep::Issue(req, _) => assert_eq!(req.limit, Some(1)),
        _ => panic!("expected a poll"),
    }
    match s.step(PollOutcome::Finished(Some(vec![upd(9), upd(10)]))) {
        StreamStep::Ready(u) => assert_eq!(u.id, 9),
        _ => panic!("expected the first update"),
    }
    match s.step(PollOutcome::Pending) {
        StreamStep::Ready(u) => assert_eq!(u.id, 10),
        _ => panic!("expected the second update"),
    }
    match s.step(PollOutcome::Pending) {
        StreamStep::Issue(req, _) => assert_eq!(req.offset, Some(11)),
        _ => panic!("expected the next poll at offset 11"),
    }
}

#[test]
fn failed_poll_surfaces_once_and_backs_off() {
    let mut s = fresh();
    match s.step(PollOutcome::Pending) {
        StreamStep::Issue(_, _) => {}
        _ => panic!("expected a poll"),
    }
    let err = TelegramError::Raw {
        cause: telegram_bot::RawTelegramError::Telegram {
            description: "Unauthorized".to_string(),
            parameters: None,
        },
    };
    match s.step(PollOutcome::Failed(err)) {
        StreamStep::Failed(e, delay) => {
            assert_eq!(delay, 500);
            match e {
                TelegramError::Raw {
                    cause: telegram_bot::RawTelegramError::Telegram { description, .. },
                } => assert_eq!(description, "Unauthorized"),
                _ => panic!("expected the remote error back"),
            }
        }
        _ => panic!("expected the error to surface"),
    }
    // While the backoff is in flight, no poll fires.
    match s.step(PollOutcome::Pending) {
        StreamStep::Wait => {}
        _ => panic!("expected the engine to wait out the backoff"),
    }
    // Once the backoff elapses, polling resumes at the same offset.
    match s.step(PollOutcome::Finished(None)) {
        StreamStep::Issue(req, _) => assert_eq!(req.offset, Some(1)),
        _ => panic!("expected polling to resume"),
    }
}

#[test]
fn empty_round_polls_again_without_surfacing() {
    let mut s = fresh();
    match s.step(PollOutcome::Pending) {
        StreamStep::Issue(_, _) => {}
        _ => panic!("expected a poll"),
    }
    match s.step(PollOutcome::Finished(Some(vec![]))) {
        StreamStep::Issue(req, _) => assert_eq!(req.offset, Some(1)),
        _ => panic!("expected an immediate new poll"),
    }
}

#[test]
fn duplicate_ids_are_delivered_as_received() {
    let mut s = fresh();
    match s.step(PollOutcome::Pending) {
        StreamStep::Issue(_, _) => {}
        _ => panic!("expected a poll"),
    }
    match s.step(PollOutcome::Finished(Some(vec![upd(4), upd(4)]))) {
        StreamStep::Ready(u) => assert_eq!(u.id, 4),
        _ => panic!("expected the first update"),
    }
    match s.step(PollOutcome::Pending) {
        StreamStep::Ready(u) => assert_eq!(u.id, 4),
        _ => panic!("expected the duplicate delivered too"),
    }
    match s.step(PollOutcome::Pending) {
        StreamStep::Issue(req, _) => assert_eq!(req.offset, Some(5)),
        _ => panic!("expected the next poll at offset 5"),
    }
}

#[test]
fn configuration_reaches_the_next_poll() {
    let mut s = fresh();
    s.timeout(10);
    s.error_delay(250);
    s.limit(7);
    match s.step(PollOutcome::Pending) {
        StreamStep::Issue(req, bound) => {
            assert_eq!(req.timeout, Some(10));
            assert_eq!(req.limit, Some(7));
            assert_eq!(bound, 11000);
        }
        _ => panic!("expected a poll"),
    }
    let err = TelegramError::Io {
        description: "connection reset".to_string(),
    };
    match s.step(PollOutcome::Failed(err)) {
        StreamStep::Failed(_, delay) => assert_eq!(delay, 250),
        _ => panic!("expected the error to surface"),
    }
}
