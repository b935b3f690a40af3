//! Wire-level request and response values: the boundary objects
//! between the dispatcher and the transport connector.

use vstd::prelude::*;
use vstd::string::StringExecFns;

verus! {

/// Base of every request URL sent to the remote service.
pub const TELEGRAM_URL: &'static str = "https://api.telegram.org/";

/// The HTTP method a connector must use for a wire request.
#[derive(Clone, Copy, Debug, PartialEq, Eq, Structural)]
pub enum Method {
    Get,
    Post,
}

/// A fully resolved wire request: the method-specific URL suffix and
/// the body bytes, ready to hand to a transport connector.
#[derive(Clone, Debug, PartialEq, Eq)]
pub struct HttpRequest {
    url: &'static str,
    body: Vec<u8>,
}

/// The full URL for a wire request: base, credential, then the
/// request-specific suffix.
pub open spec fn url_wire(path: Seq<char>, token: Seq<char>) -> Seq<char> {
    TELEGRAM_URL@ + "bot"@ + token + "/"@ + path
}

impl HttpRequest {
    /// The request-specific URL suffix.
    pub closed spec fn path_spec(&self) -> Seq<char> {
        self.url@
    }

    /// The body bytes.
    pub closed spec fn body_spec(&self) -> Seq<u8> {
        self.body@
    }

    pub fn new(url: &'static str, body: Vec<u8>) -> (r: Self)
        ensures
            r.path_spec() == url@,
            r.body_spec() == body@,
    {
        HttpRequest { url, body }
    }

    pub fn into_body(self) -> (r: Vec<u8>)
        ensures
            r@ == self.body_spec(),
    {
        self.body
    }

    pub fn body(&self) -> (r: &Vec<u8>)
        ensures
            r@ == self.body_spec(),
    {
        &self.body
    }

    /// An explicit copy, byte for byte.
    pub fn duplicate(&self) -> (r: Self)
        ensures
            r.path_spec() == self.path_spec(),
            r.body_spec() == self.body_spec(),
    {
        let body = crate::wire::slice_range(&self.body, 0, self.body.len());
        proof {
            assert(body@ =~= self.body@);
        }
        HttpRequest { url: self.url, body }
    }

    /// The method a connector must choose: a request without a body is
    /// fetched, one with a body is posted as JSON.
    pub fn method(&self) -> (m: Method)
        ensures
            m == (if self.body_spec().len() == 0 {
                Method::Get
            } else {
                Method::Post
            }),
    {
        if self.body.len() == 0 {
            Method::Get
        } else {
            Method::Post
        }
    }

    /// The full URL, built from the base template, the caller's
    /// credential, and the request-specific suffix.
    pub fn url(&self, token: &str) -> (r: String)
        ensures
            r@ == url_wire(self.path_spec(), token@),
    {
        let mut s = String::from_str(TELEGRAM_URL);
        s.append("bot");
        s.append(token);
        s.append("/");
        s.append(self.url);
        s
    }
}

/// A wire response: the raw body bytes, or nothing where the transport
/// produced no usable body.
#[derive(Clone, Debug, PartialEq, Eq)]
pub struct HttpResponse {
    pub body: Option<Vec<u8>>,
}

} // verus!
