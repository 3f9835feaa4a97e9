//! Setting up and executing HTTP requests.
//!
//! A request is configured from plain values (method, URL text, an
//! optional timeout) and sent through the blocking HTTP client; an URL
//! that does not parse is a configuration error, a failure to connect
//! or to read the response is a connection error, and a response is
//! reduced to its status code and its body text.

use vstd::prelude::*;

use crate::text::bytes_to_string;

verus! {

#[verifier::external_type_specification]
#[verifier::external_body]
pub struct ExUrl(reqwest::Url);

#[verifier::external_type_specification]
#[verifier::external_body]
pub struct ExClient(reqwest::blocking::Client);

#[verifier::external_type_specification]
#[verifier::external_body]
pub struct ExRequestBuilder(reqwest::blocking::RequestBuilder);

/// Whether a string parses as a URL: a function of the string alone.
pub uninterp spec fn url_ok(s: Seq<char>) -> bool;

/// Relies on `reqwest::Url::parse`: whether a string is a well-formed
/// URL depends on the string alone; the error is carried as text.
#[verifier::external_body]
fn parse_url(url: &str) -> (r: Result<reqwest::Url, String>)
    ensures
        r is Ok <==> url_ok(url@),
{
    match reqwest::Url::parse(url) {
        Ok(u) => Ok(u),
        Err(e) => Err(e.to_string()),
    }
}

/// Relies on `reqwest::blocking::Client::new`: builds a client with
/// default configuration.
#[verifier::external_body]
fn client_new() -> reqwest::blocking::Client {
    reqwest::blocking::Client::new()
}

/// Relies on `reqwest::blocking::Client::request`: starts building a
/// request for the given method and URL.
#[verifier::external_body]
fn client_request(
    client: &reqwest::blocking::Client,
    method: &RequestMethod,
    url: reqwest::Url,
) -> reqwest::blocking::RequestBuilder {
    let m = match method {
        RequestMethod::GET => reqwest::Method::GET,
        RequestMethod::POST => reqwest::Method::POST,
    };
    client.request(m, url)
}

/// Relies on `reqwest::blocking::RequestBuilder::timeout`: bounds how
/// long the request may take end to end.
#[verifier::external_body]
fn builder_timeout(
    builder: reqwest::blocking::RequestBuilder,
    timeout: &std::time::Duration,
) -> reqwest::blocking::RequestBuilder {
    builder.timeout(*timeout)
}

/// Relies on `reqwest::blocking::RequestBuilder::send`, and on the
/// response's `status` and `bytes`: performs the request and reads the
/// response down to its status number and body bytes. Whether it
/// succeeds depends on the network, so nothing is promised of the
/// outcome; either error is carried as text.
#[verifier::external_body]
fn builder_execute(builder: reqwest::blocking::RequestBuilder) -> (r: Result<
    (u16, Vec<u8>),
    String,
>) {
    let resp = match builder.send() {
        Ok(resp) => resp,
        Err(e) => return Err(e.to_string()),
    };
    let status = resp.status().as_u16();
    match resp.bytes() {
        Ok(b) => Ok((status, b.to_vec())),
        Err(e) => Err(e.to_string()),
    }
}

/// The HTTP methods the library speaks.
#[derive(Clone, Copy)]
pub enum RequestMethod {
    GET,
    POST,
}

/// Why a request failed: the connection (or the transfer) failed, or
/// the request was misconfigured (its URL does not parse).
#[derive(Debug)]
pub enum RequestError {
    ConnectionFailed(String),
    InvalidConfiguration(String),
}

impl RequestError {
    /// The error as one line of text.
    pub fn message(&self) -> (r: String)
        ensures
            self matches RequestError::ConnectionFailed(m) ==> r@ == "connection error: "@ + m@,
            self matches RequestError::InvalidConfiguration(m) ==> r@ == "invalid request: "@
                + m@,
    {
        match self {
            RequestError::ConnectionFailed(m) => {
                let mut s = "connection error: ".to_owned();
                s.append(m.as_str());
                s
            },
            RequestError::InvalidConfiguration(m) => {
                let mut s = "invalid request: ".to_owned();
                s.append(m.as_str());
                s
            },
        }
    }
}

pub type RequestResult = Result<Response, RequestError>;

/// An HTTP response, reduced to its status code and its body text.
pub struct Response {
    status: u16,
    payload: String,
}

impl Response {
    /// The status code of the response.
    pub closed spec fn status_spec(&self) -> u16 {
        self.status
    }

    /// The body text of the response.
    pub closed spec fn payload_spec(&self) -> Seq<char> {
        self.payload@
    }

    /// The body of the response as text.
    pub fn text(&self) -> (r: String)
        ensures
            r@ == self.payload_spec(),
    {
        self.payload.clone()
    }

    /// The status code of the response.
    pub fn status_code(&self) -> (r: u16)
        ensures
            r == self.status_spec(),
    {
        self.status
    }
}

/// Provides support for setting up and executing HTTP requests.
pub struct Request {
    timeout: Option<std::time::Duration>,
}

impl Request {
    /// The configured timeout, if one was set.
    pub closed spec fn timeout_spec(&self) -> Option<std::time::Duration> {
        self.timeout
    }

    /// A request with no timeout configured.
    pub fn new() -> (r: Request)
        ensures
            r.timeout_spec() is None,
    {
        Request { timeout: None }
    }

    /// The request with an end-to-end timeout configured.
    pub fn with_timeout(self, duration: std::time::Duration) -> (r: Request)
        ensures
            r.timeout_spec() matches Some(d) && d == duration,
    {
        let mut r = self;
        r.timeout = Some(duration);
        r
    }

    /// Sends one request and reduces the response to its status code
    /// and body text.
    ///
    /// The result is a configuration error exactly when the URL does
    /// not parse; whether an URL that parses yields a response or a
    /// connection error depends on the network.
    pub fn send(&self, method: RequestMethod, url: &str) -> (r: RequestResult)
        ensures
            (r matches Err(RequestError::InvalidConfiguration(_))) <==> !url_ok(url@),
    {
        let parsed = match parse_url(url) {
            Ok(u) => u,
            Err(e) => {
                return Err(RequestError::InvalidConfiguration(e));
            },
        };
        let client = client_new();
        let builder = client_request(&client, &method, parsed);
        let builder = match &self.timeout {
            Some(d) => builder_timeout(builder, d),
            None => builder,
        };
        let (status, body) = match builder_execute(builder) {
            Ok(p) => p,
            Err(e) => {
                return Err(RequestError::ConnectionFailed(e));
            },
        };
        let payload = bytes_to_string(&body);
        Ok(Response { status, payload })
    }
}

} // verus!