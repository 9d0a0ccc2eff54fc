//! Wire-protocol codecs for a small HTTP framework: a JSON value model with
//! its parser and serializer, a form-data decoder, and resumable readers for
//! HTTP requests and responses.
pub mod error;
pub mod text;
pub mod json_model;
pub mod json;
pub mod json_laws;
pub mod form;
pub mod headers;
pub mod request;
pub mod response;
pub mod router;
pub mod client;

pub use client::{ClientTarget, HttpClient};
pub use error::{BacktraceError, ErrorCategory, ErrorKind};
pub use form::urldecode;
pub use json::{Json, JsonType};
pub use request::{HttpRequest, HttpRequestReader, RequestReaderState};
pub use response::{
    FileOutcome, HttpResponse, HttpResponseReader, HttpResponseStatusCode, ResponseReaderState,
};
pub use router::Router;
