//! Typed requests, typed responses, and the update event type.
//!
//! A request serializes itself to a wire request; its paired response
//! mapping turns a wire response into a typed value or a wire-level
//! error. `Update` is one event from the remote feed: the stream
//! engine orders and de-duplicates by its identifier alone, so that is
//! what it carries.

use vstd::prelude::*;

use crate::errors::ascii_to_string;
use crate::errors::RawTelegramError;
use crate::http::HttpRequest;
use crate::http::HttpResponse;
use crate::wire;

verus! {

/// One event from the remote feed, reduced to what the delivery
/// pipeline reads: its strictly-increasing identifier.
#[derive(Clone, Copy, Debug, PartialEq, Eq, Structural)]
pub struct Update {
    pub id: i64,
}

/// The long-poll fetch request: ask for updates past `offset`, at most
/// `limit` of them, holding the connection up to `timeout` seconds.
#[derive(Clone, Copy, Debug, PartialEq, Eq)]
pub struct GetUpdates {
    pub offset: Option<i64>,
    pub limit: Option<i64>,
    pub timeout: Option<i64>,
}

impl GetUpdates {
    pub fn new() -> (r: Self)
        ensures
            r.offset is None,
            r.limit is None,
            r.timeout is None,
    {
        GetUpdates { offset: None, limit: None, timeout: None }
    }

    pub fn offset(self, offset: i64) -> (r: Self)
        ensures
            r == (GetUpdates { offset: Some(offset), ..self }),
    {
        GetUpdates { offset: Some(offset), ..self }
    }

    pub fn limit(self, limit: i64) -> (r: Self)
        ensures
            r == (GetUpdates { limit: Some(limit), ..self }),
    {
        GetUpdates { limit: Some(limit), ..self }
    }

    pub fn timeout(self, timeout: i64) -> (r: Self)
        ensures
            r == (GetUpdates { timeout: Some(timeout), ..self }),
    {
        GetUpdates { timeout: Some(timeout), ..self }
    }
}

/// The remote service's bare `true` payload.
#[derive(Clone, Copy, Debug, PartialEq, Eq, Structural)]
pub struct True;

/// A value the library can write as canonical wire bytes.
pub trait JsonBody {
    /// The canonical wire bytes of this value.
    spec fn json_spec(&self) -> Seq<u8>;

    fn to_json(&self) -> (r: Vec<u8>)
        ensures
            r@ == self.json_spec(),
    ;
}

impl JsonBody for GetUpdates {
    open spec fn json_spec(&self) -> Seq<u8> {
        wire::get_updates_wire(*self)
    }

    fn to_json(&self) -> (r: Vec<u8>) {
        wire::encode_get_updates(self)
    }
}

/// A payload the library can read back from canonical wire bytes: a
/// decoder accepts exactly the wire forms, and returns the encoded
/// value.
pub trait JsonPayload: Sized {
    /// The canonical wire bytes of this value.
    spec fn payload_wire(&self) -> Seq<u8>;

    fn decode_payload(bytes: &Vec<u8>) -> (r: Option<Self>)
        ensures
            r matches Some(v) ==> bytes@ == v.payload_wire(),
            forall|v: Self| bytes@ == #[trigger] v.payload_wire() ==> r is Some,
    ;
}

impl JsonPayload for i64 {
    open spec fn payload_wire(&self) -> Seq<u8> {
        wire::int_wire(*self as int)
    }

    fn decode_payload(bytes: &Vec<u8>) -> (r: Option<i64>) {
        let n = bytes.len();
        proof {
            assert(bytes@.subrange(0, n as int) =~= bytes@);
        }
        let pr = wire::parse_i64_range(bytes, 0, n);
        match pr {
            Some((v, e)) => {
                if e == n {
                    Some(v)
                } else {
                    proof {
                        assert forall|v2: i64|
                            bytes@ == #[trigger] wire::int_wire(v2 as int) implies false by {
                            assert(pr == Some((v2, n)));
                        }
                    }
                    None
                }
            },
            None => {
                proof {
                    assert forall|v2: i64|
                        bytes@ == #[trigger] wire::int_wire(v2 as int) implies false by {
                        assert(pr == Some((v2, n)));
                    }
                }
                None
            },
        }
    }
}

impl JsonPayload for True {
    open spec fn payload_wire(&self) -> Seq<u8> {
        wire::true_lit()
    }

    fn decode_payload(bytes: &Vec<u8>) -> (r: Option<True>) {
        if bytes.len() == 4 && bytes[0] == 116 && bytes[1] == 114 && bytes[2] == 117 && bytes[3]
            == 101 {
            proof {
                assert(bytes@ =~= wire::true_lit());
            }
            Some(True)
        } else {
            proof {
                assert forall|v: True| bytes@ == #[trigger] v.payload_wire() implies false by {
                    assert(bytes@[0] == 116);
                    assert(bytes@[1] == 114);
                    assert(bytes@[2] == 117);
                    assert(bytes@[3] == 101);
                }
            }
            None
        }
    }
}

impl JsonPayload for Vec<Update> {
    open spec fn payload_wire(&self) -> Seq<u8> {
        wire::updates_wire(wire::ids_of(self@))
    }

    fn decode_payload(bytes: &Vec<u8>) -> (r: Option<Vec<Update>>) {
        let d = wire::decode_updates(bytes);
        proof {
            assert forall|v: Vec<Update>|
                bytes@ == #[trigger] v.payload_wire() implies d is Some by {
                assert(d matches Some(us) && wire::ids_of(us@) == wire::ids_of(v@));
            }
        }
        d
    }
}

/// A response mapping: how a decoded raw payload becomes the typed
/// value handed to the caller.
pub trait JsonResponse {
    type Raw: JsonPayload;

    type Type;

    /// What the mapping turns a raw payload into.
    spec fn map_spec(raw: Self::Raw) -> Self::Type;

    fn map(raw: Self::Raw) -> (r: Self::Type)
        ensures
            r == Self::map_spec(raw),
    ;
}

/// The response mapping that hands the decoded payload through.
pub struct JsonIdResponse<Type> {
    phantom: core::marker::PhantomData<Type>,
}

impl<Type: JsonPayload> JsonResponse for JsonIdResponse<Type> {
    type Raw = Type;

    type Type = Type;

    open spec fn map_spec(raw: Type) -> Type {
        raw
    }

    fn map(raw: Type) -> (r: Type) {
        raw
    }
}

/// The response mapping for calls whose whole answer is `true`.
pub struct JsonTrueToUnitResponse;

impl JsonResponse for JsonTrueToUnitResponse {
    type Raw = True;

    type Type = ();

    open spec fn map_spec(raw: True) -> () {
        ()
    }

    fn map(raw: True) -> (r: ()) {
        ()
    }
}

/// A typed value recoverable from a wire response.
pub trait ResponseType {
    type Type;

    /// The exact relation between a response body and the outcome
    /// `deserialize` hands back for it.
    spec fn response_spec(body: Option<Seq<u8>>, r: &Result<Self::Type, RawTelegramError>) -> bool;

    fn deserialize(resp: HttpResponse) -> (r: Result<Self::Type, RawTelegramError>)
        ensures
            Self::response_spec(
                match resp.body {
                    Some(b) => Some(b@),
                    None => None,
                },
                &r,
            ),
    ;
}

impl<R: JsonResponse> ResponseType for R {
    type Type = R::Type;

    /// An absent body is an empty-body failure. Otherwise: the success
    /// envelope of any payload yields the mapped payload; a failure
    /// envelope yields the reported failure, with its parameters
    /// decoded where they are canonical; anything else — including a
    /// payload or parameters object the library cannot read back — is
    /// a parse failure.
    open spec fn response_spec(
        body: Option<Seq<u8>>,
        r: &Result<R::Type, RawTelegramError>,
    ) -> bool {
        match body {
            None => *r == Err::<R::Type, RawTelegramError>(RawTelegramError::EmptyBody),
            Some(b) => {
                &&& (forall|raw: R::Raw|
                    b == #[trigger] wire::success_wire(raw.payload_wire()) ==> (*r matches Ok(t)
                        && exists|raw2: R::Raw|
                        #[trigger] raw2.payload_wire() == raw.payload_wire() && t == R::map_spec(
                            raw2,
                        )))
                &&& (*r matches Ok(t) ==> exists|raw: R::Raw|
                    b == wire::success_wire(#[trigger] raw.payload_wire()) && t == R::map_spec(
                        raw,
                    ))
                &&& (forall|d: Seq<u8>|
                    wire::plain_text(d) && b == wire::error_wire(d, None) ==> (*r matches Err(e)
                        && e matches RawTelegramError::Telegram { description, parameters }
                        && description@ == wire::ascii_chars(d) && parameters is None))
                &&& (forall|d: Seq<u8>, praw: Seq<u8>|
                    wire::plain_text(d) && b == wire::error_wire(d, Some(praw)) ==> {
                        &&& (forall|p: crate::errors::ResponseParameters|
                            praw == #[trigger] wire::params_wire(p) ==> (*r matches Err(e) && e
                                matches RawTelegramError::Telegram { description, parameters }
                                && description@ == wire::ascii_chars(d) && parameters == Some(
                                p,
                            )))
                        &&& (!(exists|p: crate::errors::ResponseParameters|
                            praw == #[trigger] wire::params_wire(p)) ==> *r == Err::<
                            R::Type,
                            RawTelegramError,
                        >(RawTelegramError::Json))
                    })
                &&& (*r == Err::<R::Type, RawTelegramError>(RawTelegramError::Json) ==> {
                    &&& !(exists|raw: R::Raw|
                        b == #[trigger] wire::success_wire(raw.payload_wire()))
                    &&& !(exists|d: Seq<u8>|
                        wire::plain_text(d) && b == #[trigger] wire::error_wire(d, None))
                    &&& !(exists|d: Seq<u8>, p: crate::errors::ResponseParameters|
                        wire::plain_text(d) && b == #[trigger] wire::error_wire(
                            d,
                            Some(wire::params_wire(p)),
                        ))
                })
                &&& (*r matches Err(e) ==> e matches RawTelegramError::Telegram {
                    description,
                    parameters,
                } ==> exists|d: Seq<u8>, pm: Option<Seq<u8>>|
                    {
                        &&& wire::plain_text(d)
                        &&& b == #[trigger] wire::error_wire(d, pm)
                        &&& description@ == wire::ascii_chars(d)
                        &&& (match pm {
                            None => parameters is None,
                            Some(praw) => exists|p: crate::errors::ResponseParameters|
                                praw == #[trigger] wire::params_wire(p) && parameters == Some(p),
                        })
                    })
                &&& !(*r matches Err(RawTelegramError::EmptyBody))
                &&& !(*r matches Err(RawTelegramError::Detached(_)))
            },
        }
    }

    /// Decode the envelope: an absent body fails as empty, a success
    /// envelope decodes its payload and maps it, a failure envelope
    /// becomes the reported remote failure, and anything else fails as
    /// unparseable.
    #[verifier::rlimit(100)]
    fn deserialize(resp: HttpResponse) -> (r: Result<R::Type, RawTelegramError>) {
        let body = match resp.body {
            None => {
                return Err(RawTelegramError::EmptyBody);
            },
            Some(body) => body,
        };
        let parsed = wire::parse_envelope(&body);
        match parsed {
            None => {
                proof {
                    assert forall|raw: R::Raw|
                        body@ == wire::success_wire(#[trigger] raw.payload_wire()) implies false by {
                        assert(parsed matches Some(env) && env matches wire::Envelope::Success {
                            payload,
                        } && payload@ == raw.payload_wire());
                    }
                    assert forall|d: Seq<u8>, pm: Option<Seq<u8>>|
                        wire::plain_text(d) && body@ == wire::error_wire(d, pm) implies false by {
                        assert(parsed matches Some(env) && env matches wire::Envelope::Failure {
                            description,
                            parameters,
                        });
                    }
                }
                Err(RawTelegramError::Json)
            },
            Some(wire::Envelope::Success { payload }) => {
                let decoded = <R::Raw as JsonPayload>::decode_payload(&payload);
                match decoded {
                    Some(raw) => {
                        proof {
                            assert forall|raw2: R::Raw|
                                body@ == wire::success_wire(
                                    #[trigger] raw2.payload_wire(),
                                ) implies raw.payload_wire() == raw2.payload_wire() by {
                                wire::lemma_success_wire_injective(
                                    payload@,
                                    raw2.payload_wire(),
                                );
                            }
                            assert forall|d: Seq<u8>, pm: Option<Seq<u8>>|
                                wire::plain_text(d) && body@ == wire::error_wire(
                                    d,
                                    pm,
                                ) implies false by {
                                wire::lemma_forms_distinct(payload@, d, pm);
                            }
                        }
                        Ok(R::map(raw))
                    },
                    None => {
                        proof {
                            assert forall|raw2: R::Raw|
                                body@ == wire::success_wire(
                                    #[trigger] raw2.payload_wire(),
                                ) implies false by {
                                wire::lemma_success_wire_injective(
                                    payload@,
                                    raw2.payload_wire(),
                                );
                                assert(decoded is Some);
                            }
                            assert forall|d: Seq<u8>, pm: Option<Seq<u8>>|
                                wire::plain_text(d) && body@ == wire::error_wire(
                                    d,
                                    pm,
                                ) implies false by {
                                wire::lemma_forms_distinct(payload@, d, pm);
                            }
                        }
                        Err(RawTelegramError::Json)
                    },
                }
            },
            Some(wire::Envelope::Failure { description, parameters }) => {
                let ghost db = description@;
                let ghost pmb: Option<Seq<u8>> = match parameters {
                    Some(ref q) => Some(q@),
                    None => None,
                };
                proof {
                    assert(wire::plain_text(db));
                    assert(body@ == wire::error_wire(db, pmb));
                    assert forall|raw2: R::Raw|
                        body@ == wire::success_wire(#[trigger] raw2.payload_wire()) implies false by {
                        wire::lemma_forms_distinct(raw2.payload_wire(), db, pmb);
                    }
                    assert forall|i: int| 0 <= i < db.len() implies db[i] < 128 by {
                        assert(wire::plain_byte(db[i]));
                    }
                }
                let desc = ascii_to_string(description);
                proof {
                    assert(desc@ == wire::ascii_chars(db));
                }
                match parameters {
                    None => {
                        proof {
                            assert forall|d: Seq<u8>, pm: Option<Seq<u8>>|
                                wire::plain_text(d) && body@ == wire::error_wire(
                                    d,
                                    pm,
                                ) implies d == db && pm is None by {
                                wire::lemma_error_wire_injective(db, pmb, d, pm);
                            }
                        }
                        Err(
                            RawTelegramError::Telegram {
                                description: desc,
                                parameters: None,
                            },
                        )
                    },
                    Some(praw) => {
                        let decoded = wire::decode_params(&praw);
                        proof {
                            assert forall|d: Seq<u8>, pm: Option<Seq<u8>>|
                                wire::plain_text(d) && body@ == wire::error_wire(
                                    d,
                                    pm,
                                ) implies d == db && pm == Some(praw@) by {
                                wire::lemma_error_wire_injective(db, pmb, d, pm);
                            }
                        }
                        match decoded {
                            Some(p) => {
                                proof {
                                    assert forall|p2: crate::errors::ResponseParameters|
                                        praw@ == #[trigger] wire::params_wire(
                                            p2,
                                        ) implies p2 == p by {
                                        assert(decoded == Some(p2));
                                    }
                                }
                                Err(
                                    RawTelegramError::Telegram {
                                        description: desc,
                                        parameters: Some(p),
                                    },
                                )
                            },
                            None => {
                                proof {
                                    assert forall|p2: crate::errors::ResponseParameters|
                                        praw@ == #[trigger] wire::params_wire(
                                            p2,
                                        ) implies false by {
                                        assert(decoded == Some(p2));
                                    }
                                }
                                Err(RawTelegramError::Json)
                            },
                        }
                    },
                }
            },
        }
    }
}

/// A serialization strategy: how a request value becomes a wire
/// request, given its options.
pub trait RequestType {
    type Options;

    type Request;

    /// The wire form this strategy produces: the URL suffix and body
    /// on success, or the description of a replayed earlier failure.
    spec fn serialize_spec(options: &Self::Options, request: &Self::Request) -> Result<
        (Seq<char>, Seq<u8>),
        Seq<char>,
    >;

    fn serialize(options: Self::Options, request: &Self::Request) -> (r: Result<
        HttpRequest,
        RawTelegramError,
    >)
        ensures
            match Self::serialize_spec(&options, request) {
                Ok(pb) => r matches Ok(req) && req.path_spec() == pb.0 && req.body_spec() == pb.1,
                Err(m) => r matches Err(e) && e matches RawTelegramError::Detached(s) && s@ == m,
            },
    ;
}

/// The serialization strategy for requests with a canonical JSON body.
pub struct JsonRequestType<Request> {
    phantom: core::marker::PhantomData<Request>,
}

impl<R: JsonBody> RequestType for JsonRequestType<R> {
    type Options = &'static str;

    type Request = R;

    open spec fn serialize_spec(options: &&'static str, request: &R) -> Result<
        (Seq<char>, Seq<u8>),
        Seq<char>,
    > {
        Ok((options@, request.json_spec()))
    }

    fn serialize(options: &'static str, request: &R) -> (r: Result<
        HttpRequest,
        RawTelegramError,
    >) {
        Ok(HttpRequest::new(options, request.to_json()))
    }
}

/// The serialization strategy that replays a request — or the failure
/// — captured earlier in a pipeline.
pub struct DetachedRequestType;

impl RequestType for DetachedRequestType {
    type Options = ();

    type Request = Result<HttpRequest, RawTelegramError>;

    open spec fn serialize_spec(options: &(), request: &Result<
        HttpRequest,
        RawTelegramError,
    >) -> Result<(Seq<char>, Seq<u8>), Seq<char>> {
        match request {
            Ok(req) => Ok((req.path_spec(), req.body_spec())),
            Err(err) => Err(err.describe_spec()),
        }
    }

    fn serialize(options: (), request: &Result<HttpRequest, RawTelegramError>) -> (r: Result<
        HttpRequest,
        RawTelegramError,
    >) {
        match request {
            Ok(req) => Ok(req.duplicate()),
            Err(err) => Err(RawTelegramError::Detached(err.description_text())),
        }
    }
}

/// A typed request: it produces its wire form and names the response
/// mapping paired with it.
pub trait Request {
    type Response: ResponseType;

    /// The wire form of this request: URL suffix and body, or the
    /// description of a replayed earlier failure.
    spec fn wire_spec(&self) -> Result<(Seq<char>, Seq<u8>), Seq<char>>;

    fn serialize(&self) -> (r: Result<HttpRequest, RawTelegramError>)
        ensures
            match self.wire_spec() {
                Ok(pb) => r matches Ok(req) && req.path_spec() == pb.0 && req.body_spec() == pb.1,
                Err(m) => r matches Err(e) && e matches RawTelegramError::Detached(s) && s@ == m,
            },
    ;
}

impl Request for GetUpdates {
    type Response = JsonIdResponse<Vec<Update>>;

    open spec fn wire_spec(&self) -> Result<(Seq<char>, Seq<u8>), Seq<char>> {
        Ok(("getUpdates"@, wire::get_updates_wire(*self)))
    }

    fn serialize(&self) -> (r: Result<HttpRequest, RawTelegramError>) {
        <JsonRequestType<GetUpdates> as RequestType>::serialize("getUpdates", self)
    }
}

/// In a response-mapping contract, the success envelope of a
/// payload's wire form yields a mapped payload with that wire form.
pub proof fn lemma_success_value<R: JsonResponse>(
    raw: R::Raw,
    b: Seq<u8>,
    r: Result<R::Type, RawTelegramError>,
)
    requires
        b == wire::success_wire(raw.payload_wire()),
        <R as ResponseType>::response_spec(Some(b), &r),
    ensures
        r matches Ok(t) && exists|raw2: R::Raw|
            #[trigger] raw2.payload_wire() == raw.payload_wire() && t == R::map_spec(raw2),
{
}

/// A typed value the dispatcher may hand back: some response body
/// yields it under the response mapping's contract.
pub open spec fn ok_justified<R: ResponseType>(t: R::Type) -> bool {
    exists|body: Option<Seq<u8>>|
        #[trigger] R::response_spec(body, &Ok::<R::Type, RawTelegramError>(t))
}

/// A typed outcome that satisfies the response relation for a given
/// body is justified: the witness the dispatcher hands on after a
/// transport round trip.
pub proof fn lemma_outcome_justified<R: ResponseType>(body: Option<Seq<u8>>, t: R::Type)
    requires
        R::response_spec(body, &Ok::<R::Type, RawTelegramError>(t)),
    ensures
        ok_justified::<R>(t),
{
}

/// Round trip for an identifier echo: a response body that is exactly
/// the success envelope of an integer's wire form deserializes, under
/// the pass-through mapping, to that integer and nothing else.
pub proof fn lemma_id_echo_round_trip(n: i64, r: Result<i64, RawTelegramError>)
    requires
        <JsonIdResponse<i64> as ResponseType>::response_spec(
            Some(wire::success_wire(wire::int_wire(n as int))),
            &r,
        ),
    ensures
        r == Ok::<i64, RawTelegramError>(n),
{
    let b = wire::success_wire(wire::int_wire(n as int));
    assert(n.payload_wire() == wire::int_wire(n as int));
    lemma_success_value::<JsonIdResponse<i64>>(n, b, r);
    assert forall|raw2: i64|
        #[trigger] raw2.payload_wire() == n.payload_wire() implies raw2 == n by {
        wire::lemma_int_wire_injective(raw2 as int, n as int);
    }
    assert(r is Ok);
    assert(r->Ok_0 == n);
}

/// Round trip for a bare-`true` answer: a response body that is
/// exactly the success envelope of `true` deserializes, under the
/// unit mapping, to the unit value and nothing else.
pub proof fn lemma_true_round_trip(r: Result<(), RawTelegramError>)
    requires
        <JsonTrueToUnitResponse as ResponseType>::response_spec(
            Some(wire::success_wire(wire::true_lit())),
            &r,
        ),
    ensures
        r == Ok::<(), RawTelegramError>(()),
{
    assert(True.payload_wire() == wire::true_lit());
    assert(r matches Ok(t));
}

} // verus!
