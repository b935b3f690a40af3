use telegram_bot::{
    Api, Connector, GetUpdates, HttpRequest, HttpResponse, RawTelegramError, TelegramError,
    Update, resolve_race,
};

/// A scripted transport: answers every round trip with a fixed body
/// and reports a fixed duration.
struct Scripted {
    body: Option<Vec<u8>>,
    elapsed_ms: u64,
}

impl Connector for Scripted {
    fn request(&self, token: &str, req: HttpRequest) -> Result<HttpResponse, TelegramError> {
        assert!(req.url(token).starts_with("https://api.telegram.org/bot"));
        Ok(HttpResponse {
            body: self.body.clone(),
        })
    }

    fn request_timed(
        &self,
        token: &str,
        req: HttpRequest,
        _wait_ms: u64,
    ) -> (Result<HttpResponse, TelegramError>, u64) {
        (self.request(token, req), self.elapsed_ms)
    }
}

/// A transport that always fails.
struct Unreachable;

impl Connector for Unreachable {
    fn request(&self, _token: &str, _req: HttpRequest) -> Result<HttpResponse, TelegramError> {
        Err(TelegramError::Io {
            description: "unreachable host".to_string(),
        })
    }

    fn request_timed(
        &self,
        token: &str,
        req: HttpRequest,
        _wait_ms: u64,
    ) -> (Result<HttpResponse, TelegramError>, u64) {
        (self.request(token, req), 1)
    }
}

#[test]
fn send_decodes_the_poll_response() {
    let api = Api::create(
        "token".to_string(),
        Scripted {
            body: Some(b"{\"ok\":true,\"result\":[{\"update_id\":5},{\"update_id\":6}]}".to_vec()),
            elapsed_ms: 1,
        },
    );
    let got = api.send(GetUpdates::new().offset(1).limit(100).timeout(5));
    assert_eq!(got, Ok(vec![Update { id: 5 }, Update { id: 6 }]));
}

#[test]
fn send_surfaces_remote_failure() {
    let api = Api::create(
        "token".to_string(),
        Scripted {
            body: Some(b"{\"ok\":false,\"description\":\"Unauthorized\"}".to_vec()),
            elapsed_ms: 1,
        },
    );
    let got = api.send(GetUpdates::new().offset(1));
    assert_eq!(
        got,
        Err(TelegramError::Raw {
            cause: RawTelegramError::Telegram {
                description: "Unauthorized".to_string(),
                parameters: None,
            }
        })
    );
}

#[test]
fn send_surfaces_transport_failure() {
    let api = Api::create("token".to_string(), Unreachable);
    let got = api.send(GetUpdates::new().offset(1));
    assert_eq!(
        got,
        Err(TelegramError::Io {
            description: "unreachable host".to_string()
        })
    );
}

#[test]
fn send_timeout_resolves_to_none_when_late() {
    let api = Api::create(
        "token".to_string(),
        Scripted {
            body: Some(b"{\"ok\":true,\"result\":[]}".to_vec()),
            elapsed_ms: 50,
        },
    );
    let got = api.send_timeout(GetUpdates::new().offset(1), 0);
    assert_eq!(got, Ok(None));
}

#[test]
fn send_timeout_resolves_to_the_value_when_in_time() {
    let api = Api::create(
        "token".to_string(),
        Scripted {
            body: Some(b"{\"ok\":true,\"result\":[{\"update_id\":3}]}".to_vec()),
            elapsed_ms: 40,
        },
    );
    let got = api.send_timeout(GetUpdates::new().offset(1), 40);
    assert_eq!(got, Ok(Some(vec![Update { id: 3 }])));
}

#[test]
fn spawn_discards_the_outcome() {
    let api = Api::create("token".to_string(), Unreachable);
    api.spawn(GetUpdates::new().offset(1));
}

#[test]
fn race_arbiter_matches_its_rules() {
    assert_eq!(resolve_race::<i64>(0, 50, Ok(9)), Ok(None));
    assert_eq!(resolve_race::<i64>(100, 50, Ok(9)), Ok(Some(9)));
    assert_eq!(resolve_race::<i64>(50, 50, Ok(9)), Ok(Some(9)));
    assert_eq!(
        resolve_race::<i64>(100, 50, Err(TelegramError::Io { description: "x".to_string() })),
        Err(TelegramError::Io { description: "x".to_string() })
    );
    assert_eq!(
        resolve_race::<i64>(10, 50, Err(TelegramError::Io { description: "x".to_string() })),
        Ok(None)
    );
}

#[test]
fn stream_from_api_starts_fresh() {
    let api = Api::create("token".to_string(), Unreachable);
    let mut s = api.stream();
    match s.step(telegram_bot::PollOutcome::Pending) {
        telegram_bot::StreamStep::Issue(req, _) => assert_eq!(req.offset, Some(1)),
        _ => panic!("expected a poll"),
    }
}
