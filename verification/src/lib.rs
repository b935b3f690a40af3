//! Client core for a long-polling messaging-bot HTTP API.
//!
//! The crate covers the update-delivery and request-dispatch pipeline:
//! a long-poll stream engine that turns repeated fetch calls into an
//! ordered sequence of events with offset tracking and error backoff,
//! and a request dispatcher that serializes typed requests, hands them
//! to a pluggable transport, and maps wire responses back into typed
//! values or a unified error taxonomy.

pub mod api;
pub mod errors;
pub mod http;
pub mod requests;
pub mod stream;
pub mod wire;

pub use api::Api;
pub use api::Connector;
pub use api::resolve_race;
pub use errors::RawTelegramError;
pub use errors::ResponseParameters;
pub use errors::TelegramError;
pub use http::HttpRequest;
pub use http::HttpResponse;
pub use http::Method;
pub use requests::DetachedRequestType;
pub use requests::GetUpdates;
pub use requests::JsonBody;
pub use requests::JsonIdResponse;
pub use requests::JsonPayload;
pub use requests::JsonRequestType;
pub use requests::JsonResponse;
pub use requests::JsonTrueToUnitResponse;
pub use requests::Request;
pub use requests::RequestType;
pub use requests::ResponseType;
pub use requests::True;
pub use requests::Update;
pub use stream::NewUpdatesStream;
pub use stream::PollOutcome;
pub use stream::StreamStep;
pub use stream::UpdatesStream;
