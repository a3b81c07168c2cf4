//! The mutable output of a dispatch: status, headers, body, and the
//! `finished` flag that gates further handler execution.

use vstd::prelude::*;

use crate::headers::HeaderMap;
use crate::headers::HttpBasicHeader;
use crate::headers::HttpContentType;

verus! {

/// The identifying string the `Server` header carries on every fresh
/// response.
pub open spec fn server_id() -> Seq<char> {
    "RUST-HTTP-9000"@
}

/// The abstract state of a response.
#[verifier::ext_equal]
pub struct ResponseModel {
    pub finished: bool,
    pub status: u16,
    pub headers: Map<Seq<char>, Seq<char>>,
    pub body: Seq<char>,
}

/// The state of a freshly constructed response: open, status 200, empty
/// body, and only the default `Server` and `Content-Type` headers.
pub open spec fn default_model() -> ResponseModel {
    ResponseModel {
        finished: false,
        status: 200,
        headers: Map::empty().insert("Server"@, server_id()).insert(
            "Content-Type"@,
            "application/json"@,
        ),
        body: Seq::empty(),
    }
}

/// The state `m` moves to when a terminal responder writes `payload` with
/// content type `ct`: the body and the `Content-Type` header are replaced
/// and the response is finished; the status is untouched.
pub open spec fn finished_with(m: ResponseModel, ct: HttpContentType, payload: Seq<char>) -> ResponseModel {
    ResponseModel {
        finished: true,
        headers: m.headers.insert("Content-Type"@, ct.name_spec()),
        body: payload,
        ..m
    }
}

/// The mutable response a handler chain works on.
pub struct Response {
    is_finished: bool,
    status: u16,
    headers: HeaderMap,
    body: String,
}

impl View for Response {
    type V = ResponseModel;

    closed spec fn view(&self) -> ResponseModel {
        ResponseModel {
            finished: self.is_finished,
            status: self.status,
            headers: self.headers@,
            body: self.body@,
        }
    }
}

impl Response {
    /// A fresh, open response with the default headers.
    pub fn new() -> (r: Response)
        ensures
            r@ == default_model(),
    {
        let mut headers = HeaderMap::new();
        headers.insert(HttpBasicHeader::Server.as_str().to_owned(), "RUST-HTTP-9000".to_owned());
        headers.insert(
            HttpBasicHeader::ContentType.as_str().to_owned(),
            HttpContentType::Json.as_str().to_owned(),
        );
        Response { is_finished: false, status: 200, headers, body: String::new() }
    }

    /// Sets the status line; the finished flag does not gate this, only
    /// handler execution.
    pub fn set_status(&mut self, status: u16)
        ensures
            final(self)@ == (ResponseModel { status, ..old(self)@ }),
    {
        self.status = status;
    }

    /// Terminal responder: writes a JSON body and finishes the response.
    pub fn json(&mut self, payload: String)
        ensures
            final(self)@ == finished_with(old(self)@, HttpContentType::Json, payload@),
    {
        self.headers.insert(
            HttpBasicHeader::ContentType.as_str().to_owned(),
            HttpContentType::Json.as_str().to_owned(),
        );
        self.body = payload;
        self.is_finished = true;
    }

    /// Terminal responder: writes a plain-text body and finishes the
    /// response.
    pub fn text(&mut self, payload: String)
        ensures
            final(self)@ == finished_with(old(self)@, HttpContentType::PlainText, payload@),
    {
        self.headers.insert(
            HttpBasicHeader::ContentType.as_str().to_owned(),
            HttpContentType::PlainText.as_str().to_owned(),
        );
        self.body = payload;
        self.is_finished = true;
    }

    /// Terminal responder: writes an HTML body and finishes the response.
    pub fn html(&mut self, payload: String)
        ensures
            final(self)@ == finished_with(old(self)@, HttpContentType::Html, payload@),
    {
        self.headers.insert(
            HttpBasicHeader::ContentType.as_str().to_owned(),
            HttpContentType::Html.as_str().to_owned(),
        );
        self.body = payload;
        self.is_finished = true;
    }

    /// Whether a terminal responder has run.
    pub fn is_finished(&self) -> (r: bool)
        ensures
            r == self@.finished,
    {
        self.is_finished
    }

    /// The status code.
    pub fn status(&self) -> (r: u16)
        ensures
            r == self@.status,
    {
        self.status
    }

    /// The headers set so far.
    pub fn headers(&self) -> (r: &HeaderMap)
        ensures
            r@ == self@.headers,
    {
        &self.headers
    }

    /// The body written so far.
    pub fn body(&self) -> (r: &String)
        ensures
            r@ == self@.body,
    {
        &self.body
    }
}

impl Default for Response {
    /// Same as `Response::new`.
    fn default() -> (r: Response)
        ensures
            r@ == default_model(),
    {
        Response::new()
    }
}

} // verus!
