use telegram_bot::{
    GetUpdates, HttpRequest, HttpResponse, JsonIdResponse, JsonTrueToUnitResponse, Method,
    RawTelegramError, Request, RequestType, ResponseParameters, ResponseType, Update,
};

fn ok_body(result: &str) -> HttpResponse {
    HttpResponse {
        body: Some(format!("{{\"ok\":true,\"result\":{}}}", result).into_bytes()),
    }
}

fn err_body(raw: &str) -> HttpResponse {
    HttpResponse {
        body: Some(raw.as_bytes().to_vec()),
    }
}

#[test]
fn get_updates_serializes_to_canonical_body() {
    let g = GetUpdates::new().offset(8).timeout(5).limit(100);
    let req = g.serialize().expect("serialization succeeds");
    assert_eq!(req.body(), &b"{\"offset\":8,\"limit\":100,\"timeout\":5}".to_vec());
    assert_eq!(req.url("TOKEN"), "https://api.telegram.org/botTOKEN/getUpdates");
    assert_eq!(req.method(), Method::Post);
}

#[test]
fn get_updates_skips_absent_fields() {
    let g = GetUpdates::new().timeout(25);
    let req = g.serialize().expect("serialization succeeds");
    assert_eq!(req.body(), &b"{\"timeout\":25}".to_vec());
    let empty = GetUpdates::new();
    let req = empty.serialize().expect("serialization succeeds");
    assert_eq!(req.body(), &b"{}".to_vec());
}

#[test]
fn bodyless_request_is_fetched() {
    let req = HttpRequest::new("getMe", Vec::new());
    assert_eq!(req.method(), Method::Get);
    assert_eq!(req.into_body(), Vec::<u8>::new());
}

#[test]
fn update_batch_round_trips() {
    let r = <JsonIdResponse<Vec<Update>> as ResponseType>::deserialize(ok_body(
        "[{\"update_id\":5},{\"update_id\":6},{\"update_id\":7}]",
    ));
    assert_eq!(r, Ok(vec![Update { id: 5 }, Update { id: 6 }, Update { id: 7 }]));
}

#[test]
fn empty_update_batch_decodes() {
    let r = <JsonIdResponse<Vec<Update>> as ResponseType>::deserialize(ok_body("[]"));
    assert_eq!(r, Ok(Vec::new()));
}

#[test]
fn id_echo_round_trips() {
    let r = <JsonIdResponse<i64> as ResponseType>::deserialize(ok_body("42"));
    assert_eq!(r, Ok(42));
    let r = <JsonIdResponse<i64> as ResponseType>::deserialize(ok_body("-7"));
    assert_eq!(r, Ok(-7));
    let r = <JsonIdResponse<i64> as ResponseType>::deserialize(ok_body("9223372036854775807"));
    assert_eq!(r, Ok(i64::MAX));
    let r = <JsonIdResponse<i64> as ResponseType>::deserialize(ok_body("-9223372036854775808"));
    assert_eq!(r, Ok(i64::MIN));
}

#[test]
fn true_only_success_maps_to_unit() {
    let r = <JsonTrueToUnitResponse as ResponseType>::deserialize(ok_body("true"));
    assert_eq!(r, Ok(()));
}

#[test]
fn absent_body_is_an_empty_body_failure() {
    let r = <JsonIdResponse<i64> as ResponseType>::deserialize(HttpResponse { body: None });
    assert_eq!(r, Err(RawTelegramError::EmptyBody));
}

#[test]
fn unparseable_bodies_fail_as_json() {
    for raw in [
        "garbage",
        "{\"ok\":true}",
        "{\"ok\":true,\"result\":007}",
        "{\"ok\":true,\"result\":-0}",
        "{\"ok\":true,\"result\":[{\"update_id\":}]}",
        "{\"ok\":true,\"result\":9223372036854775808}",
    ] {
        let r = <JsonIdResponse<i64> as ResponseType>::deserialize(err_body(raw));
        assert_eq!(r, Err(RawTelegramError::Json), "for body {raw}");
    }
}

#[test]
fn remote_failure_is_reported_with_description() {
    let r = <JsonIdResponse<i64> as ResponseType>::deserialize(err_body(
        "{\"ok\":false,\"description\":\"Unauthorized\"}",
    ));
    assert_eq!(
        r,
        Err(RawTelegramError::Telegram {
            description: "Unauthorized".to_string(),
            parameters: None,
        })
    );
}

#[test]
fn remote_failure_parameters_decode() {
    let r = <JsonIdResponse<i64> as ResponseType>::deserialize(err_body(
        "{\"ok\":false,\"description\":\"Flood\",\"parameters\":{\"retry_after\":14}}",
    ));
    assert_eq!(
        r,
        Err(RawTelegramError::Telegram {
            description: "Flood".to_string(),
            parameters: Some(ResponseParameters {
                migrate_to_chat_id: None,
                retry_after: Some(14),
            }),
        })
    );
    let r = <JsonIdResponse<i64> as ResponseType>::deserialize(err_body(
        "{\"ok\":false,\"description\":\"Moved\",\"parameters\":{\"migrate_to_chat_id\":-100123,\"retry_after\":3}}",
    ));
    assert_eq!(
        r,
        Err(RawTelegramError::Telegram {
            description: "Moved".to_string(),
            parameters: Some(ResponseParameters {
                migrate_to_chat_id: Some(-100123),
                retry_after: Some(3),
            }),
        })
    );
}

#[test]
fn malformed_parameters_fail_as_json() {
    let r = <JsonIdResponse<i64> as ResponseType>::deserialize(err_body(
        "{\"ok\":false,\"description\":\"Flood\",\"parameters\":{\"retry_after\":007}}",
    ));
    assert_eq!(r, Err(RawTelegramError::Json));
}

#[test]
fn detached_request_replays_its_capture() {
    let captured = HttpRequest::new("sendMessage", b"{\"chat_id\":1}".to_vec());
    let replayed = telegram_bot::DetachedRequestType::serialize((), &Ok(captured))
        .expect("a captured request is replayed");
    assert_eq!(replayed.body(), &b"{\"chat_id\":1}".to_vec());
    assert_eq!(replayed.url("T"), "https://api.telegram.org/botT/sendMessage");

    let failed = telegram_bot::DetachedRequestType::serialize(
        (),
        &Err(RawTelegramError::EmptyBody),
    );
    assert_eq!(failed, Err(RawTelegramError::Detached("Empty Body".to_string())));
}

#[test]
fn json_request_type_builds_the_wire_request() {
    let g = GetUpdates::new().offset(3);
    let req = telegram_bot::JsonRequestType::<GetUpdates>::serialize("getUpdates", &g)
        .expect("serialization succeeds");
    assert_eq!(req.body(), &b"{\"offset\":3}".to_vec());
}
