use vstd::prelude::*;
use vstd::utf8::{valid_utf8, decode_utf8};
use crate::error::{BacktraceError, ErrorKind};
use crate::form::{find_from, find_at, sub_chars, lemma_find_from};
use crate::text::append_str;
use crate::headers::{
    lower_of, to_lowercase, header_value, names_distinct, lemma_put_header_distinct, put_header, pairs_view, find_header,
    put_pair, trimmed, trim_chars, decimal_value, parse_decimal, decimal_string, lemma_header_index,
};
use crate::json_model::digits_text;
use crate::text::{chars_of, string_from};

verus! {

/// The value of an HTTP request.
pub struct RequestView {
    pub method: Seq<char>,
    pub uri: Seq<char>,
    pub query_string: Seq<char>,
    pub version: Seq<char>,
    /// Header names are lower case; a later value for a name replaces the
    /// earlier one in place.
    pub headers: Seq<(Seq<char>, Seq<char>)>,
    pub body: Seq<u8>,
}

/// `content-length`.
pub open spec fn content_length_name() -> Seq<char> {
    seq!['c', 'o', 'n', 't', 'e', 'n', 't', '-', 'l', 'e', 'n', 'g', 't', 'h']
}

/// An HTTP request: method, path, query string, version, headers and body.
#[derive(Debug, Default, Clone)]
pub struct HttpRequest {
    method: String,
    uri: String,
    query_string: String,
    version: String,
    header: Vec<(String, String)>,
    body: Vec<u8>,
}

impl View for HttpRequest {
    type V = RequestView;

    closed spec fn view(&self) -> RequestView {
        RequestView {
            method: self.method@,
            uri: self.uri@,
            query_string: self.query_string@,
            version: self.version@,
            headers: pairs_view(self.header@),
            body: self.body@,
        }
    }
}

pub(crate) fn content_length_key() -> (r: String)
    ensures
        r@ == content_length_name(),
{
    let cs = vec!['c', 'o', 'n', 't', 'e', 'n', 't', '-', 'l', 'e', 'n', 'g', 't', 'h'];
    string_from(cs.as_slice())
}

impl HttpRequest {
    /// Header names are distinct.
    pub open spec fn wf(&self) -> bool {
        names_distinct(self@.headers)
    }

    /// An empty request.
    pub fn new() -> (r: HttpRequest)
        ensures
            r.wf(),
            r@.method.len() == 0 && r@.uri.len() == 0 && r@.query_string.len() == 0,
            r@.version.len() == 0 && r@.headers.len() == 0 && r@.body.len() == 0,
    {
        let r = HttpRequest {
            method: String::new(),
            uri: String::new(),
            query_string: String::new(),
            version: String::new(),
            header: Vec::new(),
            body: Vec::new(),
        };
        assert(pairs_view(r.header@) =~= Seq::<(Seq<char>, Seq<char>)>::empty());
        r
    }

    pub fn set_method(&mut self, method: &str)
        ensures
            final(self)@ == (RequestView { method: method@, ..old(self)@ }),
            old(self).wf() ==> final(self).wf(),
    {
        self.method = method.to_owned();
    }

    pub fn get_method(&self) -> (r: &String)
        ensures
            r@ == self@.method,
    {
        &self.method
    }

    /// Sets the path and, where `uri` holds a `?`, the query string after it.
    pub fn set_uri(&mut self, uri: &str)
        ensures
            final(self)@ == with_uri(old(self)@, uri@),
            old(self).wf() ==> final(self).wf(),
    {
        let cs = chars_of(uri);
        let q = vec!['?'];
        assert(q@ == seq!['?']);
        match find_at(&cs, &q, 0) {
            Some(i) => {
                proof {
                    lemma_find_from(cs@, seq!['?'], 0);
                    assert(seq!['?'].len() == 1);
                    assert(i + 1 <= cs.len());
                }
                self.uri = string_from(sub_chars(&cs, 0, i).as_slice());
                self.query_string = string_from(sub_chars(&cs, i + 1, cs.len()).as_slice());
            },
            None => {
                self.uri = uri.to_owned();
            },
        }
    }

    pub fn get_uri(&self) -> (r: &String)
        ensures
            r@ == self@.uri,
    {
        &self.uri
    }

    pub fn get_query_string(&self) -> (r: &String)
        ensures
            r@ == self@.query_string,
    {
        &self.query_string
    }

    pub fn get_version(&self) -> (r: &String)
        ensures
            r@ == self@.version,
    {
        &self.version
    }

    pub fn set_version(&mut self, version: &str)
        ensures
            final(self)@ == (RequestView { version: version@, ..old(self)@ }),
            old(self).wf() ==> final(self).wf(),
    {
        self.version = version.to_owned();
    }

    /// Sets header `key`, a name already in lower case, to `val`.
    pub fn insert_lowered_header(&mut self, key: String, val: String)
        ensures
            final(self)@ == (RequestView { headers: put_header(old(self)@.headers, key@, val@), ..old(self)@ }),
            old(self).wf() ==> final(self).wf(),
    {
        proof {
            if self.wf() {
                lemma_put_header_distinct(self@.headers, key@, val@);
            }
        }
        put_pair(&mut self.header, key, val);
    }

    /// Sets header `key` (compared in lower case) to `val`.
    pub fn insert_header(&mut self, key: &str, val: &str)
        ensures
            final(self)@ == (RequestView {
                headers: put_header(old(self)@.headers, lower_of(key@), val@),
                ..old(self)@
            }),
            old(self).wf() ==> final(self).wf(),
    {
        let k = to_lowercase(key);
        self.insert_lowered_header(k, val.to_owned());
    }

    /// The value of header `key`, a name already in lower case.
    pub fn get_lowered_header(&self, key: &String) -> (r: Option<&String>)
        ensures
            match header_value(self@.headers, key@) {
                Some(v) => r matches Some(x) && x@ == v,
                None => r is None,
            },
    {
        proof {
            lemma_header_index(self@.headers, key@);
        }
        match find_header(&self.header, key) {
            Some(i) => Some(&self.header[i].1),
            None => None,
        }
    }

    /// The value of header `key`, compared in lower case.
    pub fn get_header(&self, key: &str) -> (r: Option<&String>)
        ensures
            match header_value(self@.headers, lower_of(key@)) {
                Some(v) => r matches Some(x) && x@ == v,
                None => r is None,
            },
    {
        let k = to_lowercase(key);
        self.get_lowered_header(&k)
    }

    /// The headers, as (lower-case name, value) pairs.
    pub fn headers(&self) -> (r: &Vec<(String, String)>)
        ensures
            pairs_view(r@) == self@.headers,
    {
        &self.header
    }

    /// The header names, in the order they were first set.
    pub fn get_header_keys(&self) -> (r: Vec<String>)
        ensures
            r@.len() == self@.headers.len(),
            forall|i: int| 0 <= i < r@.len() ==> #[trigger] r@[i]@ == self@.headers[i].0,
            self.wf() ==> forall|i: int, j: int| 0 <= i < j < r@.len() ==> r@[i]@ != r@[j]@,
    {
        let mut r: Vec<String> = Vec::new();
        let mut i: usize = 0;
        while i < self.header.len()
            invariant
                i <= self.header@.len(),
                r@.len() == i,
                forall|k: int| 0 <= k < i ==> #[trigger] r@[k]@ == self@.headers[k].0,
            decreases self.header@.len() - i,
        {
            r.push(self.header[i].0.clone());
            i += 1;
        }
        r
    }

    /// Sets the body and sets `content-length` to its length.
    pub fn set_body(&mut self, buffer: Vec<u8>)
        ensures
            final(self)@ == with_body(old(self)@, buffer@),
            old(self).wf() ==> final(self).wf(),
    {
        let n = buffer.len();
        self.body = buffer;
        let v = decimal_string(n);
        let k = content_length_key();
        self.insert_lowered_header(k, v);
    }

    pub fn get_body(&self) -> (r: &Vec<u8>)
        ensures
            r@ == self@.body,
    {
        &self.body
    }

    /// The body length that the `content-length` header announces; 0 where
    /// there is none.
    pub fn get_body_len(&self) -> (r: Result<usize, BacktraceError>)
        ensures
            r == content_length_of(self@.headers),
    {
        let k = content_length_key();
        match self.get_lowered_header(&k) {
            None => Ok(0),
            Some(v) => match parse_decimal(v.as_str()) {
                Some(n) => Ok(n),
                None => Err(BacktraceError::new(ErrorKind::InvalidContentLength)),
            },
        }
    }
}

/// Whether `item` is one of the `,`-separated entries of `v` from `p` on.
pub open spec fn has_entry(v: Seq<char>, p: int, item: Seq<char>) -> bool
    decreases v.len() - p,
{
    let c = find_from(v, seq![','], p);
    if p < 0 || p > v.len() {
        false
    } else if c < 0 {
        v.subrange(p, v.len() as int) == item
    } else {
        proof {
            lemma_find_from(v, seq![','], p);
        }
        v.subrange(p, c) == item || has_entry(v, c + 1, item)
    }
}

/// The client accepts a gzip body: `gzip` is one of the `,`-separated
/// entries of its `accept-encoding` header.
pub open spec fn spec_accepts_gzip(req: RequestView) -> bool {
    match header_value(req.headers, "accept-encoding"@) {
        Some(v) => has_entry(v, 0, "gzip"@),
        None => false,
    }
}

impl HttpRequest {
    /// Whether the client accepts a gzip body.
    pub fn accepts_gzip(&self) -> (r: bool)
        ensures
            r == spec_accepts_gzip(self@),
    {
        let k = "accept-encoding".to_owned();
        let v = match self.get_lowered_header(&k) {
            Some(v) => chars_of(v.as_str()),
            None => {
                return false;
            },
        };
        let gz = chars_of("gzip");
        let comma = vec![','];
        let mut p: usize = 0;
        loop
            invariant
                p <= v@.len(),
                gz@ == "gzip"@,
                comma@ == seq![','],
                spec_accepts_gzip(self@) == has_entry(v@, p as int, gz@),
            decreases v@.len() - p,
        {
            let found = find_at(&v, &comma, p);
            proof {
                lemma_find_from(v@, seq![','], p as int);
                assert(seq![','].len() == 1);
            }
            let end: usize = match found {
                Some(c) => c,
                None => v.len(),
            };
            let seg = sub_chars(&v, p, end);
            if seg.len() == gz.len() && seq_eq(&seg, &gz) {
                return true;
            }
            match found {
                None => {
                    return false;
                },
                Some(c) => {
                    assert(c + 1 <= v.len());
                    p = c + 1;
                },
            }
        }
    }
}

/// Whether `a` and `b` hold the same characters.
fn seq_eq(a: &Vec<char>, b: &Vec<char>) -> (r: bool)
    requires
        a@.len() == b@.len(),
    ensures
        r == (a@ == b@),
{
    let mut i: usize = 0;
    while i < a.len()
        invariant
            i <= a@.len(),
            a@.len() == b@.len(),
            forall|k: int| 0 <= k < i ==> a@[k] == b@[k],
        decreases a@.len() - i,
    {
        if a[i] != b[i] {
            return false;
        }
        i += 1;
    }
    assert(a@ =~= b@);
    true
}

/// `req` after setting its URI to `u`: the part before the first `?` is the
/// path and the part after it the query string; without a `?` the query
/// string is kept.
pub open spec fn with_uri(req: RequestView, u: Seq<char>) -> RequestView {
    let i = find_from(u, seq!['?'], 0);
    if i >= 0 {
        RequestView { uri: u.subrange(0, i), query_string: u.subrange(i + 1, u.len() as int), ..req }
    } else {
        RequestView { uri: u, ..req }
    }
}

/// `req` after setting its body to `b`, with `content-length` to match.
pub open spec fn with_body(req: RequestView, b: Seq<u8>) -> RequestView {
    RequestView {
        body: b,
        headers: put_header(req.headers, content_length_name(), digits_text(b.len())),
        ..req
    }
}

/// The body length that the headers announce: 0 without `content-length`,
/// an error where its value is not a decimal number that fits in a `usize`.
pub open spec fn content_length_of(hs: Seq<(Seq<char>, Seq<char>)>) -> Result<usize, BacktraceError> {
    match header_value(hs, content_length_name()) {
        None => Ok(0),
        Some(v) => match decimal_value(v) {
            Some(n) => if n <= usize::MAX {
                Ok(n as usize)
            } else {
                Err(BacktraceError { kind: ErrorKind::InvalidContentLength })
            },
            None => Err(BacktraceError { kind: ErrorKind::InvalidContentLength }),
        },
    }
}

/// Where a request reader stands: the part it waits for.
#[derive(Clone, Copy, Debug, PartialEq, Eq, Structural)]
pub enum RequestReaderState {
    Method,
    URI,
    Version,
    Header,
    Body,
    End,
}

/// The value of a request reader: its state, the request read so far, the
/// bytes not yet consumed, and the body length that the headers announced.
pub struct RequestReaderView {
    pub state: RequestReaderState,
    pub request: RequestView,
    pub cache: Seq<u8>,
    pub body_len: nat,
}

/// What one transition of a reader does.
pub enum Step<V> {
    /// It consumed input and moved on.
    Progress(V),
    /// It waits for more input.
    Stuck,
    /// The input is malformed.
    Fail(ErrorKind),
}

/// The first position at or after `i` that holds byte `d`, or -1.
pub open spec fn find_byte(c: Seq<u8>, d: u8, i: int) -> int
    decreases c.len() - i,
{
    if i < 0 || i >= c.len() {
        -1
    } else if c[i] == d {
        i
    } else {
        find_byte(c, d, i + 1)
    }
}

pub proof fn lemma_find_byte(c: Seq<u8>, d: u8, i: int)
    ensures
        find_byte(c, d, i) >= 0 ==> i <= find_byte(c, d, i) < c.len() && c[find_byte(c, d, i)] == d,
        find_byte(c, d, i) >= -1,
        0 <= i ==> find_byte(c, d, i) >= 0 ==> forall|k: int| i <= k < find_byte(c, d, i) ==> c[k] != d,
        0 <= i ==> find_byte(c, d, i) < 0 ==> forall|k: int| i <= k < c.len() ==> c[k] != d,
    decreases c.len() - i,
{
    if 0 <= i < c.len() && c[i] != d {
        lemma_find_byte(c, d, i + 1);
    }
}

/// The text that UTF-8 bytes encode, if they are UTF-8.
pub open spec fn text_of(b: Seq<u8>) -> Option<Seq<char>> {
    if valid_utf8(b) {
        Some(decode_utf8(b))
    } else {
        None
    }
}

/// A line without its final carriage return.
pub open spec fn strip_cr(line: Seq<u8>) -> Seq<u8> {
    if line.len() > 0 && line.last() == 13u8 {
        line.drop_last()
    } else {
        line
    }
}

pub open spec fn request_rank(s: RequestReaderState) -> nat {
    match s {
        RequestReaderState::Method => 5,
        RequestReaderState::URI => 4,
        RequestReaderState::Version => 3,
        RequestReaderState::Header => 2,
        RequestReaderState::Body => 1,
        RequestReaderState::End => 0,
    }
}

/// One header line (without its line end) applied to the request, or the
/// empty line that ends the headers.
pub open spec fn request_header_line(r: RequestReaderView, line: Seq<u8>, rest: Seq<u8>) -> Step<RequestReaderView> {
    if line.len() == 0 {
        match content_length_of(r.request.headers) {
            Err(e) => Step::Fail(e.kind),
            Ok(n) => Step::Progress(
                RequestReaderView {
                    state: if n > 0 {
                        RequestReaderState::Body
                    } else {
                        RequestReaderState::End
                    },
                    cache: rest,
                    body_len: n as nat,
                    ..r
                },
            ),
        }
    } else {
        let colon = find_byte(line, 58u8, 0);
        if colon < 0 {
            Step::Fail(ErrorKind::InvalidHeader)
        } else {
            match (text_of(line.subrange(0, colon)), text_of(line.subrange(colon + 1, line.len() as int))) {
                (Some(k), Some(v)) => Step::Progress(
                    RequestReaderView {
                        request: RequestView {
                            headers: put_header(r.request.headers, lower_of(trimmed(k)), trimmed(v)),
                            ..r.request
                        },
                        cache: rest,
                        ..r
                    },
                ),
                _ => Step::Fail(ErrorKind::InvalidUtf8),
            }
        }
    }
}

/// One transition of a request reader on the bytes it holds.
pub open spec fn request_step(r: RequestReaderView) -> Step<RequestReaderView> {
    let c = r.cache;
    match r.state {
        RequestReaderState::Method | RequestReaderState::URI => {
            let pos = find_byte(c, 32u8, 0);
            if pos < 0 {
                Step::Stuck
            } else {
                match text_of(c.subrange(0, pos)) {
                    None => Step::Fail(ErrorKind::InvalidUtf8),
                    Some(t) => Step::Progress(
                        RequestReaderView {
                            state: if r.state == RequestReaderState::Method {
                                RequestReaderState::URI
                            } else {
                                RequestReaderState::Version
                            },
                            request: if r.state == RequestReaderState::Method {
                                RequestView { method: t, ..r.request }
                            } else {
                                with_uri(r.request, t)
                            },
                            cache: c.subrange(pos + 1, c.len() as int),
                            ..r
                        },
                    ),
                }
            }
        },
        RequestReaderState::Version => {
            let pos = find_byte(c, 10u8, 0);
            if pos < 0 {
                Step::Stuck
            } else {
                match text_of(strip_cr(c.subrange(0, pos))) {
                    None => Step::Fail(ErrorKind::InvalidUtf8),
                    Some(t) => Step::Progress(
                        RequestReaderView {
                            state: RequestReaderState::Header,
                            request: RequestView { version: t, ..r.request },
                            cache: c.subrange(pos + 1, c.len() as int),
                            ..r
                        },
                    ),
                }
            }
        },
        RequestReaderState::Header => {
            let pos = find_byte(c, 10u8, 0);
            if pos < 0 {
                Step::Stuck
            } else {
                request_header_line(r, strip_cr(c.subrange(0, pos)), c.subrange(pos + 1, c.len() as int))
            }
        },
        RequestReaderState::Body => {
            if c.len() == r.body_len {
                Step::Progress(
                    RequestReaderView {
                        state: RequestReaderState::End,
                        request: with_body(r.request, c),
                        cache: seq![],
                        ..r
                    },
                )
            } else {
                Step::Stuck
            }
        },
        RequestReaderState::End => Step::Stuck,
    }
}

pub proof fn lemma_request_step_progress(r: RequestReaderView)
    ensures
        request_step(r) matches Step::Progress(r2) ==> (r2.cache.len() < r.cache.len() || (
        r2.cache.len() == r.cache.len() && request_rank(r2.state) < request_rank(r.state))),
{
    lemma_find_byte(r.cache, 32u8, 0);
    lemma_find_byte(r.cache, 10u8, 0);
}

/// Transitions taken until the reader waits for input or fails.
pub open spec fn request_process(r: RequestReaderView) -> Result<RequestReaderView, ErrorKind>
    decreases r.cache.len(), request_rank(r.state),
{
    match request_step(r) {
        Step::Fail(e) => Err(e),
        Step::Stuck => Ok(r),
        Step::Progress(r2) => {
            proof {
                lemma_request_step_progress(r);
            }
            request_process(r2)
        },
    }
}

/// The error for an empty chunk: the peer closed the connection, except
/// while the body is read or after the end.
pub open spec fn empty_chunk_error(s: RequestReaderState) -> ErrorKind {
    match s {
        RequestReaderState::End => ErrorKind::AlreadyFinished,
        RequestReaderState::Body => ErrorKind::NoProgress,
        _ => ErrorKind::ConnectionClosed,
    }
}

/// A reader after it is handed one chunk.
pub open spec fn request_read(r: RequestReaderView, chunk: Seq<u8>) -> Result<RequestReaderView, ErrorKind> {
    if chunk.len() == 0 {
        Err(empty_chunk_error(r.state))
    } else if r.state == RequestReaderState::End {
        Err(ErrorKind::AlreadyFinished)
    } else {
        request_process(RequestReaderView { cache: r.cache + chunk, ..r })
    }
}

/// The first position of byte `d` in `c`.
pub fn find_byte_in(c: &Vec<u8>, d: u8) -> (r: Option<usize>)
    ensures
        match r {
            Some(i) => find_byte(c@, d, 0) == i as int,
            None => find_byte(c@, d, 0) == -1,
        },
{
    let mut i: usize = 0;
    while i < c.len()
        invariant
            i <= c@.len(),
            find_byte(c@, d, 0) == find_byte(c@, d, i as int),
        decreases c@.len() - i,
    {
        if c[i] == d {
            return Some(i);
        }
        i += 1;
    }
    None
}

/// Removes the bytes before `pos` and the byte at `pos` from `cache`, and
/// returns the bytes before `pos`.
pub fn take_line(cache: &mut Vec<u8>, pos: usize) -> (head: Vec<u8>)
    requires
        pos < old(cache)@.len(),
    ensures
        head@ == old(cache)@.subrange(0, pos as int),
        final(cache)@ == old(cache)@.subrange(pos + 1, old(cache)@.len() as int),
{
    assert(pos < cache.len());
    let mut tail = cache.split_off(pos + 1);
    std::mem::swap(cache, &mut tail);
    tail.truncate(pos);
    tail
}

/// Drops a final carriage return.
pub fn strip_cr_in(line: &mut Vec<u8>)
    ensures
        final(line)@ == strip_cr(old(line)@),
{
    if line.len() > 0 && line[line.len() - 1] == 13u8 {
        line.pop();
    }
}

/// The text that `b` encodes as UTF-8.
pub fn text_from(b: &Vec<u8>) -> (r: Option<String>)
    ensures
        match text_of(b@) {
            Some(t) => r matches Some(s) && s@ == t,
            None => r is None,
        },
{
    match crate::text::decode_bytes(b.as_slice()) {
        Some(cs) => Some(string_from(cs.as_slice())),
        None => None,
    }
}

/// The text that `b` encodes as UTF-8, without surrounding whitespace.
pub(crate) fn trimmed_text(b: &Vec<u8>) -> (r: Option<String>)
    ensures
        match text_of(b@) {
            Some(t) => r matches Some(s) && s@ == trimmed(t),
            None => r is None,
        },
{
    match crate::text::decode_bytes(b.as_slice()) {
        Some(cs) => Some(string_from(trim_chars(&cs).as_slice())),
        None => None,
    }
}

/// A transition keeps the request's header names distinct.
pub proof fn lemma_request_step_distinct(r: RequestReaderView)
    requires
        names_distinct(r.request.headers),
    ensures
        request_step(r) matches Step::Progress(r2) ==> names_distinct(r2.request.headers),
{
    let c = r.cache;
    let pos = find_byte(c, 10u8, 0);
    if r.state == RequestReaderState::Header && pos >= 0 {
        let line = strip_cr(c.subrange(0, pos));
        let colon = find_byte(line, 58u8, 0);
        if line.len() > 0 && colon >= 0 {
            match (text_of(line.subrange(0, colon)), text_of(line.subrange(colon + 1, line.len() as int))) {
                (Some(k), Some(v)) => {
                    lemma_put_header_distinct(r.request.headers, lower_of(trimmed(k)), trimmed(v));
                },
                _ => {},
            }
        }
    }
    if r.state == RequestReaderState::Body {
        lemma_put_header_distinct(r.request.headers, content_length_name(), digits_text(c.len()));
    }
}

/// Reading keeps the request's header names distinct.
pub proof fn lemma_request_process_distinct(r: RequestReaderView)
    requires
        names_distinct(r.request.headers),
    ensures
        request_process(r) matches Ok(r1) ==> names_distinct(r1.request.headers),
    decreases r.cache.len(), request_rank(r.state),
{
    lemma_request_step_progress(r);
    lemma_request_step_distinct(r);
    if let Step::Progress(r2) = request_step(r) {
        lemma_request_process_distinct(r2);
    }
}

/// The reader with `b` appended to the bytes it holds.
pub open spec fn with_more(r: RequestReaderView, b: Seq<u8>) -> RequestReaderView {
    RequestReaderView { cache: r.cache + b, ..r }
}

/// A byte found in `c` is found at the same place in `c + b`.
pub proof fn lemma_find_byte_extend(c: Seq<u8>, b: Seq<u8>, d: u8, i: int)
    requires
        0 <= i,
        find_byte(c, d, i) >= 0,
    ensures
        find_byte(c + b, d, i) == find_byte(c, d, i),
    decreases c.len() - i,
{
    if i < c.len() && c[i] != d {
        lemma_find_byte_extend(c, b, d, i + 1);
    }
}

/// A transition that does not finish the request takes the same course
/// with more bytes behind it.
pub proof fn lemma_request_step_extend(r: RequestReaderView, b: Seq<u8>)
    requires
        request_step(r) matches Step::Progress(r2) && r2.state != RequestReaderState::End,
    ensures
        request_step(with_more(r, b)) == (match request_step(r) {
            Step::Progress(r2) => Step::Progress(with_more(r2, b)),
            other => other,
        }),
{
    let c = r.cache;
    let d: u8 = if r.state == RequestReaderState::Method || r.state == RequestReaderState::URI {
        32u8
    } else {
        10u8
    };
    lemma_find_byte(c, d, 0);
    lemma_find_byte_extend(c, b, d, 0);
    let pos = find_byte(c, d, 0);
    assert((c + b).subrange(0, pos) =~= c.subrange(0, pos));
    assert((c + b).subrange(pos + 1, (c + b).len() as int) =~= c.subrange(pos + 1, c.len() as int) + b);
}

/// Taking transitions on more bytes gets where taking them on fewer bytes
/// gets, with the extra bytes then appended, unless the fewer bytes already
/// finish the request.
pub proof fn lemma_request_process_extend(r: RequestReaderView, b: Seq<u8>)
    requires
        request_process(r) matches Ok(r1) && r1.state != RequestReaderState::End,
    ensures
        request_process(with_more(r, b)) == request_process(with_more(request_process(r)->Ok_0, b)),
    decreases r.cache.len(), request_rank(r.state),
{
    match request_step(r) {
        Step::Progress(r2) => {
            lemma_request_step_progress(r);
            if r2.state == RequestReaderState::End {
                assert(request_step(r2) is Stuck);
            } else {
                lemma_request_step_extend(r, b);
                lemma_request_process_extend(r2, b);
            }
        },
        _ => {},
    }
}

/// Handing a reader two chunks one after the other leaves it where handing
/// it their concatenation does, provided the first chunk does not finish
/// the request.
pub proof fn lemma_read_split(r: RequestReaderView, a: Seq<u8>, b: Seq<u8>)
    requires
        a.len() > 0,
        b.len() > 0,
        request_read(r, a) matches Ok(r1) && r1.state != RequestReaderState::End,
    ensures
        request_read(request_read(r, a)->Ok_0, b) == request_read(r, a + b),
{
    let r0 = with_more(r, a);
    lemma_request_process_extend(r0, b);
    assert(with_more(r0, b) =~= with_more(r, a + b)) by {
        assert(r.cache + a + b =~= r.cache + (a + b));
    }
    assert((a + b).len() > 0);
}

/// A reader after it is handed each of `chunks` in order.
pub open spec fn request_feed(r: RequestReaderView, chunks: Seq<Seq<u8>>) -> Result<RequestReaderView, ErrorKind>
    decreases chunks.len(),
{
    if chunks.len() == 0 {
        Ok(r)
    } else {
        match request_read(r, chunks[0]) {
            Err(e) => Err(e),
            Ok(r1) => request_feed(r1, chunks.drop_first()),
        }
    }
}

/// Chunk invariance: where a stream is handed to a reader in non-empty
/// pieces and every piece is accepted, the reader ends where it would if it
/// were handed the whole stream at once.
pub proof fn lemma_chunk_invariance(r: RequestReaderView, chunks: Seq<Seq<u8>>)
    requires
        chunks.len() > 0,
        forall|i: int| 0 <= i < chunks.len() ==> (#[trigger] chunks[i]).len() > 0,
        request_feed(r, chunks) is Ok,
    ensures
        request_feed(r, chunks) == request_read(r, chunks.flatten()),
    decreases chunks.len(),
{
    let rest = chunks.drop_first();
    if chunks.len() == 1 {
        assert(rest.flatten() =~= Seq::<u8>::empty());
        assert(chunks.flatten() =~= chunks[0]);
        assert(request_feed(request_read(r, chunks[0])->Ok_0, rest) == request_read(r, chunks[0]));
    } else {
        let r1 = request_read(r, chunks[0])->Ok_0;
        assert(rest[0] == chunks[1]);
        assert(r1.state != RequestReaderState::End);
        lemma_chunk_invariance(r1, rest);
        lemma_flatten_nonempty(rest);
        lemma_read_split(r, chunks[0], rest.flatten());
    }
}

proof fn lemma_flatten_nonempty(chunks: Seq<Seq<u8>>)
    requires
        chunks.len() > 0,
        chunks[0].len() > 0,
    ensures
        chunks.flatten().len() > 0,
{
}

/// A failure on fewer bytes is the same failure with more bytes behind them.
pub proof fn lemma_request_process_extend_err(r: RequestReaderView, b: Seq<u8>)
    requires
        request_process(r) is Err,
    ensures
        request_process(with_more(r, b)) == request_process(r),
    decreases r.cache.len(), request_rank(r.state),
{
    lemma_request_step_progress(r);
    match request_step(r) {
        Step::Progress(r2) => {
            if r2.state == RequestReaderState::End {
                assert(request_step(r2) is Stuck);
            } else {
                lemma_request_step_extend(r, b);
                lemma_request_process_extend_err(r2, b);
            }
        },
        Step::Fail(e) => {
            let c = r.cache;
            let d: u8 = if r.state == RequestReaderState::Method || r.state == RequestReaderState::URI {
                32u8
            } else {
                10u8
            };
            lemma_find_byte(c, d, 0);
            lemma_find_byte_extend(c, b, d, 0);
            let pos = find_byte(c, d, 0);
            assert((c + b).subrange(0, pos) =~= c.subrange(0, pos));
        },
        Step::Stuck => {},
    }
}

/// A request finished by fewer bytes is not finished with nothing left over
/// once more bytes are behind them.
pub proof fn lemma_request_process_extend_end(r: RequestReaderView, b: Seq<u8>)
    requires
        b.len() > 0,
        request_process(r) matches Ok(r1) && r1.state == RequestReaderState::End,
        r.state != RequestReaderState::End,
    ensures
        !complete(request_process(with_more(r, b))),
    decreases r.cache.len(), request_rank(r.state),
{
    lemma_request_step_progress(r);
    match request_step(r) {
        Step::Progress(r2) => {
            if r2.state == RequestReaderState::End {
                if r.state == RequestReaderState::Body {
                    assert(request_step(with_more(r, b)) is Stuck);
                } else {
                    let c = r.cache;
                    lemma_find_byte(c, 10u8, 0);
                    lemma_find_byte_extend(c, b, 10u8, 0);
                    let pos = find_byte(c, 10u8, 0);
                    assert((c + b).subrange(0, pos) =~= c.subrange(0, pos));
                    assert((c + b).subrange(pos + 1, (c + b).len() as int) =~= c.subrange(pos + 1, c.len() as int) + b);
                    let r3 = request_step(with_more(r, b))->Progress_0;
                    assert(request_step(r3) is Stuck);
                }
            } else {
                lemma_request_step_extend(r, b);
                lemma_request_process_extend_end(r2, b);
            }
        },
        _ => {},
    }
}

/// The reader finished the request and holds no bytes beyond it.
pub open spec fn complete(v: Result<RequestReaderView, ErrorKind>) -> bool {
    v matches Ok(x) && x.state == RequestReaderState::End && x.cache.len() == 0
}

/// Where a stream reads whole to a finished request with nothing left over,
/// every non-empty piece of it is accepted in turn.
pub proof fn lemma_valid_stream_accepted(r: RequestReaderView, chunks: Seq<Seq<u8>>)
    requires
        chunks.len() > 0,
        forall|i: int| 0 <= i < chunks.len() ==> (#[trigger] chunks[i]).len() > 0,
        complete(request_read(r, chunks.flatten())),
    ensures
        request_feed(r, chunks) is Ok,
    decreases chunks.len(),
{
    let rest = chunks.drop_first();
    let a = chunks[0];
    if chunks.len() == 1 {
        assert(rest.flatten() =~= Seq::<u8>::empty());
        assert(chunks.flatten() =~= a);
        assert(request_feed(request_read(r, a)->Ok_0, rest) is Ok);
    } else {
        assert(rest[0] == chunks[1]);
        lemma_flatten_nonempty(rest);
        let b = rest.flatten();
        assert(chunks.flatten() == a + b);
        assert(r.state != RequestReaderState::End);
        let r0 = with_more(r, a);
        assert(with_more(r0, b) =~= with_more(r, a + b)) by {
            assert(r.cache + a + b =~= r.cache + (a + b));
        }
        assert(request_read(r, a) == request_process(r0));
        assert(request_read(r, a + b) == request_process(with_more(r0, b)));
        if request_process(r0) is Err {
            lemma_request_process_extend_err(r0, b);
        } else if request_process(r0)->Ok_0.state == RequestReaderState::End {
            lemma_request_process_extend_end(r0, b);
        } else {
            lemma_read_split(r, a, b);
            lemma_valid_stream_accepted(request_read(r, a)->Ok_0, rest);
        }
    }
}

/// Chunk invariance for valid streams: a stream that reads whole to a
/// finished request with nothing left over gives the same reader when it is
/// handed over in any non-empty pieces.
pub proof fn lemma_valid_stream_chunk_invariance(r: RequestReaderView, chunks: Seq<Seq<u8>>)
    requires
        chunks.len() > 0,
        forall|i: int| 0 <= i < chunks.len() ==> (#[trigger] chunks[i]).len() > 0,
        complete(request_read(r, chunks.flatten())),
    ensures
        request_feed(r, chunks) == request_read(r, chunks.flatten()),
{
    lemma_valid_stream_accepted(r, chunks);
    lemma_chunk_invariance(r, chunks);
}

/// A reader that assembles one request from byte chunks.
#[derive(Debug)]
pub struct HttpRequestReader {
    cur_state: RequestReaderState,
    http_request: HttpRequest,
    cache: Vec<u8>,
    body_len: usize,
}

impl View for HttpRequestReader {
    type V = RequestReaderView;

    closed spec fn view(&self) -> RequestReaderView {
        RequestReaderView {
            state: self.cur_state,
            request: self.http_request@,
            cache: self.cache@,
            body_len: self.body_len as nat,
        }
    }
}

impl HttpRequestReader {
    /// The header names read so far are distinct.
    pub open spec fn wf(&self) -> bool {
        names_distinct(self@.request.headers)
    }

    /// A reader that waits for the method.
    pub fn new() -> (r: Self)
        ensures
            r.wf(),
            r@.state == RequestReaderState::Method,
            r@.cache.len() == 0,
            r@.body_len == 0,
            r@.request.method.len() == 0 && r@.request.uri.len() == 0,
            r@.request.query_string.len() == 0 && r@.request.version.len() == 0,
            r@.request.headers.len() == 0 && r@.request.body.len() == 0,
    {
        HttpRequestReader {
            cur_state: RequestReaderState::Method,
            http_request: HttpRequest::new(),
            cache: Vec::new(),
            body_len: 0,
        }
    }

    /// Takes the header line before `pos` in the cache.
    fn header_line(&mut self, pos: usize) -> (r: Result<bool, ErrorKind>)
        requires
            old(self)@.state == RequestReaderState::Header,
            pos < old(self)@.cache.len(),
        ensures
            match request_header_line(
                old(self)@,
                strip_cr(old(self)@.cache.subrange(0, pos as int)),
                old(self)@.cache.subrange(pos + 1, old(self)@.cache.len() as int),
            ) {
                Step::Fail(e) => r == Err::<bool, ErrorKind>(e),
                Step::Stuck => false,
                Step::Progress(r2) => r == Ok::<bool, ErrorKind>(true) && final(self)@ == r2,
            },
    {
        let mut line = take_line(&mut self.cache, pos);
        strip_cr_in(&mut line);
        if line.len() == 0 {
            match self.http_request.get_body_len() {
                Err(e) => Err(e.kind),
                Ok(n) => {
                    self.body_len = n;
                    if n > 0 {
                        self.cur_state = RequestReaderState::Body;
                    } else {
                        self.cur_state = RequestReaderState::End;
                    }
                    Ok(true)
                },
            }
        } else {
            proof {
                lemma_find_byte(line@, 58u8, 0);
            }
            match find_byte_in(&line, 58u8) {
                None => Err(ErrorKind::InvalidHeader),
                Some(colon) => {
                    let ghost whole = line@;
                    let value = line.split_off(colon + 1);
                    line.truncate(colon);
                    assert(line@ =~= whole.subrange(0, colon as int));
                    match (trimmed_text(&line), trimmed_text(&value)) {
                        (Some(k), Some(v)) => {
                            let lk = to_lowercase(k.as_str());
                            self.http_request.insert_lowered_header(lk, v);
                            Ok(true)
                        },
                        _ => Err(ErrorKind::InvalidUtf8),
                    }
                },
            }
        }
    }

    /// One transition on the bytes held; `Ok(false)` where more input is due.
    fn step(&mut self) -> (r: Result<bool, ErrorKind>)
        requires
            old(self)@.state != RequestReaderState::End,
        ensures
            match request_step(old(self)@) {
                Step::Fail(e) => r == Err::<bool, ErrorKind>(e),
                Step::Stuck => r == Ok::<bool, ErrorKind>(false) && final(self)@ == old(self)@,
                Step::Progress(r2) => r == Ok::<bool, ErrorKind>(true) && final(self)@ == r2,
            },
    {
        proof {
            lemma_find_byte(self@.cache, 32u8, 0);
            lemma_find_byte(self@.cache, 10u8, 0);
        }
        match self.cur_state {
            RequestReaderState::Method | RequestReaderState::URI => {
                match find_byte_in(&self.cache, 32u8) {
                    None => Ok(false),
                    Some(pos) => {
                        let head = take_line(&mut self.cache, pos);
                        match text_from(&head) {
                            None => Err(ErrorKind::InvalidUtf8),
                            Some(t) => {
                                if self.cur_state == RequestReaderState::Method {
                                    self.http_request.set_method(t.as_str());
                                    self.cur_state = RequestReaderState::URI;
                                } else {
                                    self.http_request.set_uri(t.as_str());
                                    self.cur_state = RequestReaderState::Version;
                                }
                                Ok(true)
                            },
                        }
                    },
                }
            },
            RequestReaderState::Version => {
                match find_byte_in(&self.cache, 10u8) {
                    None => Ok(false),
                    Some(pos) => {
                        let mut head = take_line(&mut self.cache, pos);
                        strip_cr_in(&mut head);
                        match text_from(&head) {
                            None => Err(ErrorKind::InvalidUtf8),
                            Some(t) => {
                                self.http_request.set_version(t.as_str());
                                self.cur_state = RequestReaderState::Header;
                                Ok(true)
                            },
                        }
                    },
                }
            },
            RequestReaderState::Header => {
                match find_byte_in(&self.cache, 10u8) {
                    None => Ok(false),
                    Some(pos) => self.header_line(pos),
                }
            },
            _ => {
                if self.cache.len() == self.body_len {
                    let mut body: Vec<u8> = Vec::new();
                    std::mem::swap(&mut self.cache, &mut body);
                    self.http_request.set_body(body);
                    self.cur_state = RequestReaderState::End;
                    proof {
                        assert(self@.cache =~= Seq::<u8>::empty());
                    }
                    Ok(true)
                } else {
                    Ok(false)
                }
            },
        }
    }

    /// Takes one chunk of the request and reads as far as the bytes held
    /// allow. An empty chunk means that the peer closed the connection
    /// (`ConnectionClosed`), or, while the body is read, `NoProgress`. After
    /// an error the reader is to be dropped.
    pub fn read(&mut self, buf: Vec<u8>) -> (r: Result<&mut Self, BacktraceError>)
        ensures
            match request_read(old(self)@, buf@) {
                Ok(v) => r matches Ok(m) && (*m)@ == v && *final(self) == *final(m),
                Err(e) => r matches Err(x) && x.kind == e,
            },
            buf@.len() == 0 || old(self)@.state == RequestReaderState::End ==> *final(self)
                == *old(self),
            old(self).wf() ==> (r matches Ok(m) ==> (*m).wf()),
    {
        if buf.len() == 0 {
            let k = match self.cur_state {
                RequestReaderState::End => ErrorKind::AlreadyFinished,
                RequestReaderState::Body => ErrorKind::NoProgress,
                _ => ErrorKind::ConnectionClosed,
            };
            return Err(BacktraceError::new(k));
        }
        if self.cur_state == RequestReaderState::End {
            return Err(BacktraceError::new(ErrorKind::AlreadyFinished));
        }
        let ghost bv = buf@;
        let mut chunk = buf;
        self.cache.append(&mut chunk);
        let ghost start = self@;
        assert(start == RequestReaderView { cache: old(self)@.cache + bv, ..old(self)@ });
        assert(request_read(old(self)@, bv) == request_process(start));
        proof {
            if old(self).wf() {
                lemma_request_process_distinct(start);
            }
        }
        loop
            invariant
                request_read(old(self)@, bv) == request_process(start),
                bv == buf@,
                old(self).wf() ==> (request_process(start) matches Ok(x) ==> names_distinct(x.request.headers)),
                request_process(start) == request_process(self@),
                self@.state != RequestReaderState::End || request_process(self@) == Ok::<RequestReaderView, ErrorKind>(self@),
            decreases self@.cache.len(), request_rank(self@.state),
        {
            if self.cur_state == RequestReaderState::End {
                return Ok(self);
            }
            proof {
                lemma_request_step_progress(self@);
            }
            match self.step() {
                Err(e) => {
                    return Err(BacktraceError::new(e));
                },
                Ok(false) => {
                    return Ok(self);
                },
                Ok(true) => {},
            }
        }
    }

    /// Whether the whole request has been read.
    pub fn is_finished(&self) -> (r: bool)
        ensures
            r == (self@.state == RequestReaderState::End),
    {
        self.cur_state == RequestReaderState::End
    }

    /// The request, once it has been read whole.
    pub fn get_request(self) -> (r: Result<HttpRequest, BacktraceError>)
        ensures
            self@.state == RequestReaderState::End ==> (r matches Ok(q) && q@ == self@.request),
            self@.state != RequestReaderState::End ==> (r matches Err(e) && e.kind == ErrorKind::NotFinished),
            self.wf() ==> (r matches Ok(q) ==> q.wf()),
    {
        if self.cur_state != RequestReaderState::End {
            return Err(BacktraceError::new(ErrorKind::NotFinished));
        }
        Ok(self.http_request)
    }
}

} // verus!
