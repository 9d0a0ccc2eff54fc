use vstd::prelude::*;
use vstd::utf8::encode_utf8;
use crate::error::{BacktraceError, ErrorKind};
use crate::headers::{
    lower_of, to_lowercase, header_value, headers_text, write_headers, names_distinct,
    lemma_put_header_distinct, put_header, pairs_view, put_pair, trimmed,
    decimal_value, parse_decimal, decimal_string, lemma_header_index, find_header,
};
use crate::json::Json;
use crate::request::{HttpRequest, spec_accepts_gzip};
use crate::json_model::{digits_text, ser};
use crate::request::{
    content_length_name, content_length_key, content_length_of, Step, find_byte, lemma_find_byte,
    text_of, strip_cr, find_byte_in, take_line, strip_cr_in, text_from, trimmed_text,
};
use crate::text::{chars_of, string_from, concat_str, append_str};
use crate::json::write_digits;

verus! {

/// The status codes that this crate reads and writes.
#[derive(Clone, Copy, Debug, PartialEq, Eq, Structural)]
pub enum HttpResponseStatusCode {
    OK,
    NotFound,
    BadRequest,
    Unauthorized,
    Found,
    UnsupportedMediaType,
    InternalServerError,
}

pub open spec fn status_number(c: HttpResponseStatusCode) -> u16 {
    match c {
        HttpResponseStatusCode::OK => 200,
        HttpResponseStatusCode::NotFound => 404,
        HttpResponseStatusCode::BadRequest => 400,
        HttpResponseStatusCode::Unauthorized => 401,
        HttpResponseStatusCode::Found => 302,
        HttpResponseStatusCode::UnsupportedMediaType => 415,
        HttpResponseStatusCode::InternalServerError => 500,
    }
}

/// The status code with number `n`, if it is one of the supported ones.
pub open spec fn status_of_number(n: nat) -> Option<HttpResponseStatusCode> {
    if n == 200 {
        Some(HttpResponseStatusCode::OK)
    } else if n == 404 {
        Some(HttpResponseStatusCode::NotFound)
    } else if n == 400 {
        Some(HttpResponseStatusCode::BadRequest)
    } else if n == 401 {
        Some(HttpResponseStatusCode::Unauthorized)
    } else if n == 302 {
        Some(HttpResponseStatusCode::Found)
    } else if n == 415 {
        Some(HttpResponseStatusCode::UnsupportedMediaType)
    } else if n == 500 {
        Some(HttpResponseStatusCode::InternalServerError)
    } else {
        None
    }
}

/// The name of a status code, as it stands in the enum.
pub open spec fn status_name(c: HttpResponseStatusCode) -> Seq<char> {
    match c {
        HttpResponseStatusCode::OK => seq!['O', 'K'],
        HttpResponseStatusCode::NotFound => seq!['N', 'o', 't', 'F', 'o', 'u', 'n', 'd'],
        HttpResponseStatusCode::BadRequest => seq!['B', 'a', 'd', 'R', 'e', 'q', 'u', 'e', 's', 't'],
        HttpResponseStatusCode::Unauthorized => seq![
            'U', 'n', 'a', 'u', 't', 'h', 'o', 'r', 'i', 'z', 'e', 'd',
        ],
        HttpResponseStatusCode::Found => seq!['F', 'o', 'u', 'n', 'd'],
        HttpResponseStatusCode::UnsupportedMediaType => seq![
            'U', 'n', 's', 'u', 'p', 'p', 'o', 'r', 't', 'e', 'd', 'M', 'e', 'd', 'i', 'a', 'T', 'y', 'p', 'e',
        ],
        HttpResponseStatusCode::InternalServerError => seq![
            'I', 'n', 't', 'e', 'r', 'n', 'a', 'l', 'S', 'e', 'r', 'v', 'e', 'r', 'E', 'r', 'r', 'o', 'r',
        ],
    }
}

/// What a status-code field reads as.
pub open spec fn status_of_text(t: Seq<char>) -> Result<HttpResponseStatusCode, ErrorKind> {
    match decimal_value(t) {
        Some(n) => if n <= u16::MAX {
            match status_of_number(n) {
                Some(c) => Ok(c),
                None => Err(ErrorKind::UnknownStatusCode),
            }
        } else {
            Err(ErrorKind::InvalidStatusCode)
        },
        None => Err(ErrorKind::InvalidStatusCode),
    }
}

impl HttpResponseStatusCode {
    /// The number of the code.
    pub fn code(&self) -> (r: u16)
        ensures
            r == status_number(*self),
    {
        match self {
            HttpResponseStatusCode::OK => 200,
            HttpResponseStatusCode::NotFound => 404,
            HttpResponseStatusCode::BadRequest => 400,
            HttpResponseStatusCode::Unauthorized => 401,
            HttpResponseStatusCode::Found => 302,
            HttpResponseStatusCode::UnsupportedMediaType => 415,
            HttpResponseStatusCode::InternalServerError => 500,
        }
    }

    /// The code with number `n`, if it is one of the supported ones.
    pub fn from_code(n: u16) -> (r: Option<HttpResponseStatusCode>)
        ensures
            r == status_of_number(n as nat),
    {
        if n == 200 {
            Some(HttpResponseStatusCode::OK)
        } else if n == 404 {
            Some(HttpResponseStatusCode::NotFound)
        } else if n == 400 {
            Some(HttpResponseStatusCode::BadRequest)
        } else if n == 401 {
            Some(HttpResponseStatusCode::Unauthorized)
        } else if n == 302 {
            Some(HttpResponseStatusCode::Found)
        } else if n == 415 {
            Some(HttpResponseStatusCode::UnsupportedMediaType)
        } else if n == 500 {
            Some(HttpResponseStatusCode::InternalServerError)
        } else {
            None
        }
    }

    /// The name of the code, as it stands in the enum.
    pub fn name(&self) -> (r: String)
        ensures
            r@ == status_name(*self),
    {
        let cs: Vec<char> = match self {
            HttpResponseStatusCode::OK => vec!['O', 'K'],
            HttpResponseStatusCode::NotFound => vec!['N', 'o', 't', 'F', 'o', 'u', 'n', 'd'],
            HttpResponseStatusCode::BadRequest => vec!['B', 'a', 'd', 'R', 'e', 'q', 'u', 'e', 's', 't'],
            HttpResponseStatusCode::Unauthorized => vec![
                'U', 'n', 'a', 'u', 't', 'h', 'o', 'r', 'i', 'z', 'e', 'd',
            ],
            HttpResponseStatusCode::Found => vec!['F', 'o', 'u', 'n', 'd'],
            HttpResponseStatusCode::UnsupportedMediaType => vec![
                'U', 'n', 's', 'u', 'p', 'p', 'o', 'r', 't', 'e', 'd', 'M', 'e', 'd', 'i', 'a', 'T', 'y', 'p', 'e',
            ],
            HttpResponseStatusCode::InternalServerError => vec![
                'I', 'n', 't', 'e', 'r', 'n', 'a', 'l', 'S', 'e', 'r', 'v', 'e', 'r', 'E', 'r', 'r', 'o', 'r',
            ],
        };
        string_from(cs.as_slice())
    }
}

/// Reads a status-code field.
fn status_from_text(t: &String) -> (r: Result<HttpResponseStatusCode, ErrorKind>)
    ensures
        r == status_of_text(t@),
{
    match parse_decimal(t.as_str()) {
        None => Err(ErrorKind::InvalidStatusCode),
        Some(n) => {
            if n > 65535 {
                Err(ErrorKind::InvalidStatusCode)
            } else {
                match HttpResponseStatusCode::from_code(n as u16) {
                    Some(c) => Ok(c),
                    None => Err(ErrorKind::UnknownStatusCode),
                }
            }
        },
    }
}

/// The value of an HTTP response.
pub struct ResponseView {
    pub version: Seq<char>,
    pub status_code: HttpResponseStatusCode,
    pub status_desc: Seq<char>,
    /// Header names are lower case.
    pub headers: Seq<(Seq<char>, Seq<char>)>,
    pub body: Seq<u8>,
}

/// `HTTP/1.1`.
pub open spec fn http_1_1() -> Seq<char> {
    seq!['H', 'T', 'T', 'P', '/', '1', '.', '1']
}

/// `content-type`.
pub open spec fn content_type_name() -> Seq<char> {
    seq!['c', 'o', 'n', 't', 'e', 'n', 't', '-', 't', 'y', 'p', 'e']
}

/// `application/json; charset=utf-8`.
pub open spec fn json_content_type() -> Seq<char> {
    seq![
        'a', 'p', 'p', 'l', 'i', 'c', 'a', 't', 'i', 'o', 'n', '/', 'j', 's', 'o', 'n', ';', ' ',
        'c', 'h', 'a', 'r', 's', 'e', 't', '=', 'u', 't', 'f', '-', '8',
    ]
}

/// `resp` after setting its body to `b`, with `content-length` to match.
pub open spec fn with_response_body(resp: ResponseView, b: Seq<u8>) -> ResponseView {
    ResponseView {
        body: b,
        headers: put_header(resp.headers, content_length_name(), digits_text(b.len())),
        ..resp
    }
}

/// A fresh response: version `HTTP/1.1`, the code's name as description,
/// no headers, no body.
pub open spec fn fresh_response(code: HttpResponseStatusCode) -> ResponseView {
    ResponseView {
        version: http_1_1(),
        status_code: code,
        status_desc: status_name(code),
        headers: seq![],
        body: seq![],
    }
}

/// An HTTP response: version, status, headers and body.
#[derive(Debug)]
pub struct HttpResponse {
    version: String,
    status_code: HttpResponseStatusCode,
    status_desc: String,
    header: Vec<(String, String)>,
    body: Vec<u8>,
}

impl View for HttpResponse {
    type V = ResponseView;

    closed spec fn view(&self) -> ResponseView {
        ResponseView {
            version: self.version@,
            status_code: self.status_code,
            status_desc: self.status_desc@,
            headers: pairs_view(self.header@),
            body: self.body@,
        }
    }
}

pub(crate) fn content_type_key() -> (r: String)
    ensures
        r@ == content_type_name(),
{
    let cs = vec!['c', 'o', 'n', 't', 'e', 'n', 't', '-', 't', 'y', 'p', 'e'];
    string_from(cs.as_slice())
}

impl HttpResponse {
    /// Header names are distinct.
    pub open spec fn wf(&self) -> bool {
        names_distinct(self@.headers)
    }

    /// A response with status `code`, version `HTTP/1.1`, the code's name as
    /// description, and no headers or body.
    pub fn new(code: HttpResponseStatusCode) -> (r: Self)
        ensures
            r@ == fresh_response(code),
            r.wf(),
    {
        let v = vec!['H', 'T', 'T', 'P', '/', '1', '.', '1'];
        let r = HttpResponse {
            version: string_from(v.as_slice()),
            status_code: code,
            status_desc: code.name(),
            header: Vec::new(),
            body: Vec::new(),
        };
        assert(pairs_view(r.header@) =~= Seq::<(Seq<char>, Seq<char>)>::empty());
        r
    }

    /// A `200 OK` response whose body is the compact JSON text of `json_val`.
    pub fn json(json_val: Json) -> (r: Self)
        ensures
            r@ == (ResponseView {
                headers: put_header(
                    with_response_body(fresh_response(HttpResponseStatusCode::OK), encode_utf8(ser(json_val@))).headers,
                    content_type_name(),
                    json_content_type(),
                ),
                ..with_response_body(fresh_response(HttpResponseStatusCode::OK), encode_utf8(ser(json_val@)))
            }),
            r.wf(),
    {
        let text = json_val.to_string();
        let bytes = text.as_str().as_bytes();
        let mut data: Vec<u8> = Vec::new();
        let mut i: usize = 0;
        while i < bytes.len()
            invariant
                i <= bytes@.len(),
                data@ == bytes@.take(i as int),
            decreases bytes@.len() - i,
        {
            data.push(bytes[i]);
            proof {
                assert(bytes@.take(i + 1) =~= bytes@.take(i as int).push(bytes@[i as int]));
            }
            i += 1;
        }
        proof {
            assert(bytes@.take(bytes@.len() as int) =~= bytes@);
        }
        let mut response = HttpResponse::new(HttpResponseStatusCode::OK);
        response.set_body(data);
        let ct = vec![
            'a', 'p', 'p', 'l', 'i', 'c', 'a', 't', 'i', 'o', 'n', '/', 'j', 's', 'o', 'n', ';', ' ',
            'c', 'h', 'a', 'r', 's', 'e', 't', '=', 'u', 't', 'f', '-', '8',
        ];
        response.insert_lowered_header(content_type_key(), string_from(ct.as_slice()));
        response
    }

    pub fn set_status_code(&mut self, code: HttpResponseStatusCode)
        ensures
            final(self)@ == (ResponseView { status_code: code, ..old(self)@ }),
            old(self).wf() ==> final(self).wf(),
    {
        self.status_code = code;
    }

    pub fn get_status_code(&self) -> (r: HttpResponseStatusCode)
        ensures
            r == self@.status_code,
    {
        self.status_code
    }

    pub fn set_status_desc(&mut self, desc: &str)
        ensures
            final(self)@ == (ResponseView { status_desc: desc@, ..old(self)@ }),
            old(self).wf() ==> final(self).wf(),
    {
        self.status_desc = desc.to_owned();
    }

    pub fn get_status_desc(&self) -> (r: &String)
        ensures
            r@ == self@.status_desc,
    {
        &self.status_desc
    }

    /// Sets header `key`, a name already in lower case, to `val`.
    pub fn insert_lowered_header(&mut self, key: String, val: String)
        ensures
            final(self)@ == (ResponseView { headers: put_header(old(self)@.headers, key@, val@), ..old(self)@ }),
            old(self).wf() ==> final(self).wf(),
    {
        proof {
            if self.wf() {
                lemma_put_header_distinct(self@.headers, key@, val@);
            }
        }
        put_pair(&mut self.header, key, val);
    }

    /// Sets header `key` (compared in lower case) to `val`.
    pub fn insert_header(&mut self, key: &str, val: &str)
        ensures
            final(self)@ == (ResponseView {
                headers: put_header(old(self)@.headers, lower_of(key@), val@),
                ..old(self)@
            }),
            old(self).wf() ==> final(self).wf(),
    {
        let k = to_lowercase(key);
        self.insert_lowered_header(k, val.to_owned());
    }

    /// The headers, as (lower-case name, value) pairs.
    pub fn get_header(&self) -> (r: &Vec<(String, String)>)
        ensures
            pairs_view(r@) == self@.headers,
    {
        &self.header
    }

    /// Sets the body and sets `content-length` to its length.
    pub fn set_body(&mut self, body_byte: Vec<u8>)
        ensures
            final(self)@ == with_response_body(old(self)@, body_byte@),
            old(self).wf() ==> final(self).wf(),
    {
        let n = body_byte.len();
        self.body = body_byte;
        let v = decimal_string(n);
        let k = content_length_key();
        self.insert_lowered_header(k, v);
    }

    pub fn get_body(&self) -> (r: &Vec<u8>)
        ensures
            r@ == self@.body,
    {
        &self.body
    }

    pub fn set_version(&mut self, version: &str)
        ensures
            final(self)@ == (ResponseView { version: version@, ..old(self)@ }),
            old(self).wf() ==> final(self).wf(),
    {
        self.version = version.to_owned();
    }

    pub fn get_version(&self) -> (r: &str)
        ensures
            r@ == self@.version,
    {
        self.version.as_str()
    }
}

/// The head of a response as sent: the status line, the header lines and
/// an empty line. The reason phrase is the name of the status code; the
/// description field is not sent.
pub open spec fn response_head(resp: ResponseView) -> Seq<char> {
    resp.version + " "@ + digits_text(status_number(resp.status_code) as nat) + " "@ + status_name(
        resp.status_code,
    ) + "\r\n"@ + headers_text(resp.headers) + "\r\n"@
}

impl HttpResponse {
    /// The head of this response as it is sent.
    pub fn head_string(&self) -> (r: String)
        ensures
            r@ == response_head(self@),
    {
        let mut out: Vec<char> = Vec::new();
        append_str(&mut out, self.version.as_str());
        append_str(&mut out, " ");
        write_digits(self.status_code.code() as u64, &mut out);
        append_str(&mut out, " ");
        let name = self.status_code.name();
        append_str(&mut out, name.as_str());
        append_str(&mut out, "\r\n");
        write_headers(&mut out, &self.header);
        append_str(&mut out, "\r\n");
        assert(out@ =~= response_head(self@));
        string_from(out.as_slice())
    }
}

/// Relies on flate2's `GzEncoder` at `Compression::best()`: the gzip stream
/// it writes depends on the input bytes alone.
pub uninterp spec fn gzip_of(b: Seq<u8>) -> Seq<u8>;

/// Relies on flate2's `GzEncoder::new`, `write_all` and `finish` over a
/// `Vec<u8>` at `Compression::best()`: what it finishes with is the gzip
/// stream of `b`.
#[verifier::external_body]
fn gzip_best(b: &[u8]) -> (r: Option<Vec<u8>>)
    ensures
        r matches Some(z) ==> z@ == gzip_of(b@),
{
    let mut encoder = flate2::write::GzEncoder::new(Vec::new(), flate2::Compression::best());
    match std::io::Write::write_all(&mut encoder, b) {
        Ok(()) => encoder.finish().ok(),
        Err(_) => None,
    }
}

/// `resp` with body `packed`, marked as gzip-encoded.
pub open spec fn with_gzip_body(resp: ResponseView, packed: Seq<u8>) -> ResponseView {
    let r = with_response_body(resp, packed);
    ResponseView { headers: put_header(r.headers, "content-encoding"@, "gzip"@), ..r }
}

/// `resp` as it is sent: its body gzip-encoded where the client accepts
/// that, and `connection: close`.
pub open spec fn prepared(resp: ResponseView, gz: bool) -> ResponseView {
    let r = if gz {
        with_gzip_body(resp, gzip_of(resp.body))
    } else {
        resp
    };
    ResponseView { headers: put_header(r.headers, "connection"@, "close"@), ..r }
}

impl HttpResponse {
    /// Replaces the body with `packed`, a gzip stream, and says so in
    /// `content-encoding`.
    pub fn set_gzip_body(&mut self, packed: Vec<u8>)
        ensures
            final(self)@ == with_gzip_body(old(self)@, packed@),
            old(self).wf() ==> final(self).wf(),
    {
        self.set_body(packed);
        self.insert_lowered_header("content-encoding".to_owned(), "gzip".to_owned());
    }

    /// Makes the response ready to send in answer to `request`: the body is
    /// gzip-encoded where the client accepts that, and the connection is
    /// closed after it.
    pub fn prepare_for(&mut self, request: &HttpRequest) -> (r: Result<(), BacktraceError>)
        ensures
            match r {
                Ok(()) => final(self)@ == prepared(old(self)@, spec_accepts_gzip(request@)),
                Err(e) => e.kind == ErrorKind::CompressionFailed && spec_accepts_gzip(request@),
            },
            old(self).wf() ==> final(self).wf(),
    {
        if request.accepts_gzip() {
            match gzip_best(self.body.as_slice()) {
                Some(packed) => self.set_gzip_body(packed),
                None => {
                    return Err(BacktraceError::new(ErrorKind::CompressionFailed));
                },
            }
        }
        self.insert_lowered_header("connection".to_owned(), "close".to_owned());
        Ok(())
    }
}

/// What reading a file gave.
pub enum FileOutcome {
    /// The file's contents.
    Found(Vec<u8>),
    /// There is no such file.
    NotFound,
    /// The file could not be read.
    Failed,
}

/// The index of the last `.` in `path`, or -1.
pub open spec fn last_dot(path: Seq<char>) -> int
    decreases path.len(),
{
    if path.len() == 0 {
        -1
    } else if path.last() == '.' {
        path.len() - 1
    } else {
        last_dot(path.drop_last())
    }
}

/// What follows the last `.` of a path; the whole path where it has none.
pub open spec fn file_extension(path: Seq<char>) -> Seq<char> {
    let i = last_dot(path);
    if i >= 0 {
        path.subrange(i + 1, path.len() as int)
    } else {
        path
    }
}

/// The content type served for a file extension.
pub open spec fn content_type_for(ext: Seq<char>) -> Seq<char> {
    if ext == "html"@ {
        "text/html; charset=utf-8"@
    } else if ext == "js"@ {
        "text/javascript"@
    } else if ext == "css"@ {
        "text/css"@
    } else if ext == "ico"@ {
        "image/x-icon"@
    } else {
        "charset=utf-8"@
    }
}

/// `404 not found`.
pub open spec fn not_found_body() -> Seq<u8> {
    seq![52u8, 48u8, 52u8, 32u8, 110u8, 111u8, 116u8, 32u8, 102u8, 111u8, 117u8, 110u8, 100u8]
}

/// The response that serves the file at `path`, given what reading it gave.
pub open spec fn file_response(path: Seq<char>, outcome: FileOutcome) -> ResponseView {
    match outcome {
        FileOutcome::Found(b) => with_response_body(
            ResponseView {
                headers: put_header(seq![], content_type_name(), content_type_for(file_extension(path))),
                ..fresh_response(HttpResponseStatusCode::OK)
            },
            b@,
        ),
        FileOutcome::NotFound => with_response_body(
            fresh_response(HttpResponseStatusCode::NotFound),
            not_found_body(),
        ),
        FileOutcome::Failed => fresh_response(HttpResponseStatusCode::InternalServerError),
    }
}

fn extension_of(path: &Vec<char>) -> (r: Vec<char>)
    ensures
        r@ == file_extension(path@),
{
    let mut j: usize = path.len();
    proof {
        assert(path@.take(path@.len() as int) =~= path@);
    }
    while j > 0
        invariant
            j <= path@.len(),
            last_dot(path@) == last_dot(path@.take(j as int)),
        decreases j,
    {
        proof {
            assert(path@.take(j as int).drop_last() =~= path@.take(j - 1));
        }
        if path[j - 1] == '.' {
            return crate::form::sub_chars(path, j, path.len());
        }
        j -= 1;
    }
    crate::form::sub_chars(path, 0, path.len())
}

fn content_type_of(ext: &Vec<char>) -> (r: String)
    ensures
        r@ == content_type_for(ext@),
{
    let e = string_from(ext.as_slice());
    if e == "html".to_owned() {
        "text/html; charset=utf-8".to_owned()
    } else if e == "js".to_owned() {
        "text/javascript".to_owned()
    } else if e == "css".to_owned() {
        "text/css".to_owned()
    } else if e == "ico".to_owned() {
        "image/x-icon".to_owned()
    } else {
        "charset=utf-8".to_owned()
    }
}

impl HttpResponse {
    /// Where a view is stored: `views/` followed by `path`.
    pub fn view_path(path: &str) -> (r: String)
        ensures
            r@ == "views/"@ + path@,
    {
        concat_str("views/", path)
    }

    /// Where a static file is stored: `wwwroot` followed by `uri`.
    pub fn root_file_path(uri: &str) -> (r: String)
        ensures
            r@ == "wwwroot"@ + uri@,
    {
        concat_str("wwwroot", uri)
    }

    /// The response that serves the file at `path`: its contents with a
    /// content type chosen by extension, `404 Not Found` where there is no
    /// such file, `500` where it could not be read.
    pub fn from_file(path: &str, outcome: FileOutcome) -> (r: HttpResponse)
        ensures
            r@ == file_response(path@, outcome),
            r.wf(),
    {
        match outcome {
            FileOutcome::Found(buffer) => {
                let mut response = HttpResponse::new(HttpResponseStatusCode::OK);
                let p = chars_of(path);
                let ext = extension_of(&p);
                response.insert_lowered_header(content_type_key(), content_type_of(&ext));
                response.set_body(buffer);
                response
            },
            FileOutcome::NotFound => {
                let mut response = HttpResponse::new(HttpResponseStatusCode::NotFound);
                let body: Vec<u8> = vec![52u8, 48u8, 52u8, 32u8, 110u8, 111u8, 116u8, 32u8, 102u8, 111u8, 117u8, 110u8, 100u8];
                response.set_body(body);
                response
            },
            FileOutcome::Failed => HttpResponse::new(HttpResponseStatusCode::InternalServerError),
        }
    }
}

/// Where a response reader stands: the part it waits for.
#[derive(Clone, Copy, Debug, PartialEq, Eq, Structural)]
pub enum ResponseReaderState {
    Version,
    StatusCode,
    StatusDesc,
    Header,
    Body,
    End,
}

/// The value of a response reader: its state, the response read so far and
/// the bytes not yet consumed.
pub struct ResponseReaderView {
    pub state: ResponseReaderState,
    pub response: ResponseView,
    pub cache: Seq<u8>,
}

pub open spec fn response_rank(s: ResponseReaderState) -> nat {
    match s {
        ResponseReaderState::Version => 5,
        ResponseReaderState::StatusCode => 4,
        ResponseReaderState::StatusDesc => 3,
        ResponseReaderState::Header => 2,
        ResponseReaderState::Body => 1,
        ResponseReaderState::End => 0,
    }
}

/// One header line (without its line end), or the empty line that ends
/// the headers.
pub open spec fn response_header_line(r: ResponseReaderView, line: Seq<u8>, rest: Seq<u8>) -> Step<ResponseReaderView> {
    if line.len() == 0 {
        Step::Progress(ResponseReaderView { state: ResponseReaderState::Body, cache: rest, ..r })
    } else {
        let colon = find_byte(line, 58u8, 0);
        if colon < 0 {
            Step::Fail(ErrorKind::InvalidHeader)
        } else {
            match (text_of(line.subrange(0, colon)), text_of(line.subrange(colon + 1, line.len() as int))) {
                (Some(k), Some(v)) => Step::Progress(
                    ResponseReaderView {
                        response: ResponseView {
                            headers: put_header(r.response.headers, lower_of(trimmed(k)), trimmed(v)),
                            ..r.response
                        },
                        cache: rest,
                        ..r
                    },
                ),
                _ => Step::Fail(ErrorKind::InvalidUtf8),
            }
        }
    }
}

/// One transition of a response reader on the bytes it holds.
pub open spec fn response_step(r: ResponseReaderView) -> Step<ResponseReaderView> {
    let c = r.cache;
    match r.state {
        ResponseReaderState::Version | ResponseReaderState::StatusCode => {
            let pos = find_byte(c, 32u8, 0);
            if pos < 0 {
                Step::Stuck
            } else {
                match text_of(c.subrange(0, pos)) {
                    None => Step::Fail(ErrorKind::InvalidUtf8),
                    Some(t) => {
                        let rest = c.subrange(pos + 1, c.len() as int);
                        if r.state == ResponseReaderState::Version {
                            Step::Progress(
                                ResponseReaderView {
                                    state: ResponseReaderState::StatusCode,
                                    response: ResponseView { version: t, ..r.response },
                                    cache: rest,
                                },
                            )
                        } else {
                            match status_of_text(t) {
                                Err(e) => Step::Fail(e),
                                Ok(code) => Step::Progress(
                                    ResponseReaderView {
                                        state: ResponseReaderState::StatusDesc,
                                        response: ResponseView { status_code: code, ..r.response },
                                        cache: rest,
                                    },
                                ),
                            }
                        }
                    },
                }
            }
        },
        ResponseReaderState::StatusDesc => {
            let pos = find_byte(c, 10u8, 0);
            if pos < 0 {
                Step::Stuck
            } else {
                match text_of(strip_cr(c.subrange(0, pos))) {
                    None => Step::Fail(ErrorKind::InvalidUtf8),
                    Some(t) => Step::Progress(
                        ResponseReaderView {
                            state: ResponseReaderState::Header,
                            response: ResponseView { status_desc: t, ..r.response },
                            cache: c.subrange(pos + 1, c.len() as int),
                        },
                    ),
                }
            }
        },
        ResponseReaderState::Header => {
            let pos = find_byte(c, 10u8, 0);
            if pos < 0 {
                Step::Stuck
            } else {
                response_header_line(r, strip_cr(c.subrange(0, pos)), c.subrange(pos + 1, c.len() as int))
            }
        },
        ResponseReaderState::Body => {
            if header_value(r.response.headers, content_length_name()) is None {
                Step::Fail(ErrorKind::MissingContentLength)
            } else {
                match content_length_of(r.response.headers) {
                    Err(e) => Step::Fail(e.kind),
                    Ok(n) => if c.len() == n {
                        Step::Progress(
                            ResponseReaderView {
                                state: ResponseReaderState::End,
                                response: with_response_body(r.response, c),
                                cache: seq![],
                            },
                        )
                    } else {
                        Step::Stuck
                    },
                }
            }
        },
        ResponseReaderState::End => Step::Stuck,
    }
}

pub proof fn lemma_response_step_progress(r: ResponseReaderView)
    ensures
        response_step(r) matches Step::Progress(r2) ==> (r2.cache.len() < r.cache.len() || (
        r2.cache.len() == r.cache.len() && response_rank(r2.state) < response_rank(r.state))),
{
    lemma_find_byte(r.cache, 32u8, 0);
    lemma_find_byte(r.cache, 10u8, 0);
}

/// Transitions taken until the reader waits for input or fails.
pub open spec fn response_process(r: ResponseReaderView) -> Result<ResponseReaderView, ErrorKind>
    decreases r.cache.len(), response_rank(r.state),
{
    match response_step(r) {
        Step::Fail(e) => Err(e),
        Step::Stuck => Ok(r),
        Step::Progress(r2) => {
            proof {
                lemma_response_step_progress(r);
            }
            response_process(r2)
        },
    }
}

/// A reader after it is handed one chunk; an empty chunk is an error, as
/// for requests.
pub open spec fn response_read(r: ResponseReaderView, chunk: Seq<u8>) -> Result<ResponseReaderView, ErrorKind> {
    if chunk.len() == 0 {
        Err(
            match r.state {
                ResponseReaderState::End => ErrorKind::AlreadyFinished,
                ResponseReaderState::Body => ErrorKind::NoProgress,
                _ => ErrorKind::ConnectionClosed,
            },
        )
    } else if r.state == ResponseReaderState::End {
        Err(ErrorKind::AlreadyFinished)
    } else {
        response_process(ResponseReaderView { cache: r.cache + chunk, ..r })
    }
}

/// A reader that assembles one response from byte chunks.
#[derive(Debug)]
pub struct HttpResponseReader {
    cur_state: ResponseReaderState,
    response: HttpResponse,
    cache: Vec<u8>,
}

impl View for HttpResponseReader {
    type V = ResponseReaderView;

    closed spec fn view(&self) -> ResponseReaderView {
        ResponseReaderView { state: self.cur_state, response: self.response@, cache: self.cache@ }
    }
}

impl Default for HttpResponseReader {
    fn default() -> (r: Self)
        ensures
            r.wf(),
            r@.state == ResponseReaderState::Version,
            r@.response == fresh_response(HttpResponseStatusCode::OK),
            r@.cache.len() == 0,
    {
        HttpResponseReader::new()
    }
}

/// A transition keeps the response's header names distinct.
pub proof fn lemma_response_step_distinct(r: ResponseReaderView)
    requires
        names_distinct(r.response.headers),
    ensures
        response_step(r) matches Step::Progress(r2) ==> names_distinct(r2.response.headers),
{
    let c = r.cache;
    let pos = find_byte(c, 10u8, 0);
    if r.state == ResponseReaderState::Header && pos >= 0 {
        let line = strip_cr(c.subrange(0, pos));
        let colon = find_byte(line, 58u8, 0);
        if line.len() > 0 && colon >= 0 {
            match (text_of(line.subrange(0, colon)), text_of(line.subrange(colon + 1, line.len() as int))) {
                (Some(k), Some(v)) => {
                    lemma_put_header_distinct(r.response.headers, lower_of(trimmed(k)), trimmed(v));
                },
                _ => {},
            }
        }
    }
    if r.state == ResponseReaderState::Body {
        lemma_put_header_distinct(r.response.headers, content_length_name(), digits_text(c.len()));
    }
}

/// Reading keeps the response's header names distinct.
pub proof fn lemma_response_process_distinct(r: ResponseReaderView)
    requires
        names_distinct(r.response.headers),
    ensures
        response_process(r) matches Ok(r1) ==> names_distinct(r1.response.headers),
    decreases r.cache.len(), response_rank(r.state),
{
    lemma_response_step_progress(r);
    lemma_response_step_distinct(r);
    if let Step::Progress(r2) = response_step(r) {
        lemma_response_process_distinct(r2);
    }
}

impl HttpResponseReader {
    /// The header names read so far are distinct.
    pub open spec fn wf(&self) -> bool {
        names_distinct(self@.response.headers)
    }

    /// A reader that waits for the version.
    pub fn new() -> (r: Self)
        ensures
            r.wf(),
            r@.state == ResponseReaderState::Version,
            r@.response == fresh_response(HttpResponseStatusCode::OK),
            r@.cache.len() == 0,
    {
        HttpResponseReader {
            cur_state: ResponseReaderState::Version,
            response: HttpResponse::new(HttpResponseStatusCode::OK),
            cache: Vec::new(),
        }
    }

    fn header_line(&mut self, pos: usize) -> (r: Result<bool, ErrorKind>)
        requires
            old(self)@.state == ResponseReaderState::Header,
            pos < old(self)@.cache.len(),
        ensures
            match response_header_line(
                old(self)@,
                strip_cr(old(self)@.cache.subrange(0, pos as int)),
                old(self)@.cache.subrange(pos + 1, old(self)@.cache.len() as int),
            ) {
                Step::Fail(e) => r == Err::<bool, ErrorKind>(e),
                Step::Stuck => false,
                Step::Progress(r2) => r == Ok::<bool, ErrorKind>(true) && final(self)@ == r2,
            },
    {
        let mut line = take_line(&mut self.cache, pos);
        strip_cr_in(&mut line);
        if line.len() == 0 {
            self.cur_state = ResponseReaderState::Body;
            Ok(true)
        } else {
            proof {
                lemma_find_byte(line@, 58u8, 0);
            }
            match find_byte_in(&line, 58u8) {
                None => Err(ErrorKind::InvalidHeader),
                Some(colon) => {
                    let ghost whole = line@;
                    let value = line.split_off(colon + 1);
                    line.truncate(colon);
                    assert(line@ =~= whole.subrange(0, colon as int));
                    match (trimmed_text(&line), trimmed_text(&value)) {
                        (Some(k), Some(v)) => {
                            let lk = to_lowercase(k.as_str());
                            self.response.insert_lowered_header(lk, v);
                            Ok(true)
                        },
                        _ => Err(ErrorKind::InvalidUtf8),
                    }
                },
            }
        }
    }

    fn body_step(&mut self) -> (r: Result<bool, ErrorKind>)
        requires
            old(self)@.state == ResponseReaderState::Body,
        ensures
            match response_step(old(self)@) {
                Step::Fail(e) => r == Err::<bool, ErrorKind>(e),
                Step::Stuck => r == Ok::<bool, ErrorKind>(false) && final(self)@ == old(self)@,
                Step::Progress(r2) => r == Ok::<bool, ErrorKind>(true) && final(self)@ == r2,
            },
    {
        let k = content_length_key();
        proof {
            lemma_header_index(self@.response.headers, k@);
        }
        let v = match find_header(&self.response.header, &k) {
            None => {
                return Err(ErrorKind::MissingContentLength);
            },
            Some(i) => &self.response.header[i].1,
        };
        match parse_decimal(v.as_str()) {
            None => Err(ErrorKind::InvalidContentLength),
            Some(n) => {
                if self.cache.len() == n {
                    let mut body: Vec<u8> = Vec::new();
                    std::mem::swap(&mut self.cache, &mut body);
                    self.response.set_body(body);
                    self.cur_state = ResponseReaderState::End;
                    proof {
                        assert(self@.cache =~= Seq::<u8>::empty());
                    }
                    Ok(true)
                } else {
                    Ok(false)
                }
            },
        }
    }

    fn step(&mut self) -> (r: Result<bool, ErrorKind>)
        requires
            old(self)@.state != ResponseReaderState::End,
        ensures
            match response_step(old(self)@) {
                Step::Fail(e) => r == Err::<bool, ErrorKind>(e),
                Step::Stuck => r == Ok::<bool, ErrorKind>(false) && final(self)@ == old(self)@,
                Step::Progress(r2) => r == Ok::<bool, ErrorKind>(true) && final(self)@ == r2,
            },
    {
        proof {
            lemma_find_byte(self@.cache, 32u8, 0);
            lemma_find_byte(self@.cache, 10u8, 0);
        }
        match self.cur_state {
            ResponseReaderState::Version | ResponseReaderState::StatusCode => {
                match find_byte_in(&self.cache, 32u8) {
                    None => Ok(false),
                    Some(pos) => {
                        let head = take_line(&mut self.cache, pos);
                        match text_from(&head) {
                            None => Err(ErrorKind::InvalidUtf8),
                            Some(t) => {
                                if self.cur_state == ResponseReaderState::Version {
                                    self.response.set_version(t.as_str());
                                    self.cur_state = ResponseReaderState::StatusCode;
                                    Ok(true)
                                } else {
                                    match status_from_text(&t) {
                                        Err(e) => Err(e),
                                        Ok(code) => {
                                            self.response.set_status_code(code);
                                            self.cur_state = ResponseReaderState::StatusDesc;
                                            Ok(true)
                                        },
                                    }
                                }
                            },
                        }
                    },
                }
            },
            ResponseReaderState::StatusDesc => {
                match find_byte_in(&self.cache, 10u8) {
                    None => Ok(false),
                    Some(pos) => {
                        let mut head = take_line(&mut self.cache, pos);
                        strip_cr_in(&mut head);
                        match text_from(&head) {
                            None => Err(ErrorKind::InvalidUtf8),
                            Some(t) => {
                                self.response.set_status_desc(t.as_str());
                                self.cur_state = ResponseReaderState::Header;
                                Ok(true)
                            },
                        }
                    },
                }
            },
            ResponseReaderState::Header => {
                match find_byte_in(&self.cache, 10u8) {
                    None => Ok(false),
                    Some(pos) => self.header_line(pos),
                }
            },
            _ => self.body_step(),
        }
    }

    /// Takes one chunk of the response and reads as far as the bytes held
    /// allow. An empty chunk means that the peer closed the connection
    /// (`ConnectionClosed`), or, while the body is read, `NoProgress`. After
    /// an error the reader is to be dropped.
    pub fn read(&mut self, buf: Vec<u8>) -> (r: Result<&mut Self, BacktraceError>)
        ensures
            match response_read(old(self)@, buf@) {
                Ok(v) => r matches Ok(m) && (*m)@ == v && *final(self) == *final(m),
                Err(e) => r matches Err(x) && x.kind == e,
            },
            buf@.len() == 0 || old(self)@.state == ResponseReaderState::End ==> *final(self)
                == *old(self),
            old(self).wf() ==> (r matches Ok(m) ==> (*m).wf()),
    {
        if buf.len() == 0 {
            let k = match self.cur_state {
                ResponseReaderState::End => ErrorKind::AlreadyFinished,
                ResponseReaderState::Body => ErrorKind::NoProgress,
                _ => ErrorKind::ConnectionClosed,
            };
            return Err(BacktraceError::new(k));
        }
        if self.cur_state == ResponseReaderState::End {
            return Err(BacktraceError::new(ErrorKind::AlreadyFinished));
        }
        let ghost bv = buf@;
        let mut chunk = buf;
        self.cache.append(&mut chunk);
        let ghost start = self@;
        assert(start == ResponseReaderView { cache: old(self)@.cache + bv, ..old(self)@ });
        proof {
            if old(self).wf() {
                lemma_response_process_distinct(start);
            }
        }
        loop
            invariant
                response_read(old(self)@, bv) == response_process(start),
                bv == buf@,
                old(self).wf() ==> (response_process(start) matches Ok(x) ==> names_distinct(x.response.headers)),
                response_process(start) == response_process(self@),
                self@.state != ResponseReaderState::End || response_process(self@) == Ok::<ResponseReaderView, ErrorKind>(self@),
            decreases self@.cache.len(), response_rank(self@.state),
        {
            if self.cur_state == ResponseReaderState::End {
                return Ok(self);
            }
            proof {
                lemma_response_step_progress(self@);
            }
            match self.step() {
                Err(e) => {
                    return Err(BacktraceError::new(e));
                },
                Ok(false) => {
                    return Ok(self);
                },
                Ok(true) => {},
            }
        }
    }

    /// Whether the whole response has been read.
    pub fn is_finished(&self) -> (r: bool)
        ensures
            r == (self@.state == ResponseReaderState::End),
    {
        self.cur_state == ResponseReaderState::End
    }

    /// The response, once it has been read whole.
    pub fn get_response(self) -> (r: Result<HttpResponse, BacktraceError>)
        ensures
            self@.state == ResponseReaderState::End ==> (r matches Ok(q) && q@ == self@.response),
            self@.state != ResponseReaderState::End ==> (r matches Err(e) && e.kind == ErrorKind::NotFinished),
            self.wf() ==> (r matches Ok(q) ==> q.wf()),
    {
        if self.cur_state != ResponseReaderState::End {
            return Err(BacktraceError::new(ErrorKind::NotFinished));
        }
        Ok(self.response)
    }
}

} // verus!
