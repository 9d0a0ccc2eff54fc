use vstd::prelude::*;
use crate::error::{BacktraceError, ErrorKind};
use crate::form::{find_from, find_at, sub_chars, lemma_find_from};
use crate::headers::{pairs_view, headers_text, write_headers};
use crate::request::{HttpRequest, RequestView};
use crate::text::{chars_of, string_from, append_str};

verus! {

/// The head of a request as sent: the request line, the header lines and
/// an empty line. A query string follows the path after a `?`.
pub open spec fn request_head(req: RequestView) -> Seq<char> {
    req.method + " "@ + req.uri + (if req.query_string.len() > 0 {
        "?"@ + req.query_string
    } else {
        seq![]
    }) + " "@ + req.version + "\r\n"@ + headers_text(req.headers) + "\r\n"@
}

/// Where a request goes: the scheme, host, port and path of an address.
#[derive(Debug)]
pub struct ClientTarget {
    pub tls: bool,
    pub host: String,
    pub port: String,
    pub uri: String,
}

/// The target of an address `http://host[:port][/path]` or
/// `https://host[:port][/path]`: the port defaults to 80 or 443, the path to
/// `/`.
pub open spec fn spec_target(a: Seq<char>) -> Result<(bool, Seq<char>, Seq<char>, Seq<char>), ErrorKind> {
    let tls = a.len() >= 8 && a.subrange(0, 8) == "https://"@;
    let plain = a.len() >= 7 && a.subrange(0, 7) == "http://"@;
    if !tls && !plain {
        Err(ErrorKind::UnsupportedProtocol)
    } else {
        let rest = if tls {
            a.subrange(8, a.len() as int)
        } else {
            a.subrange(7, a.len() as int)
        };
        let slash = find_from(rest, "/"@, 0);
        let host_port = if slash >= 0 {
            rest.subrange(0, slash)
        } else {
            rest
        };
        let uri = if slash >= 0 {
            "/"@ + rest.subrange(slash + 1, rest.len() as int)
        } else {
            "/"@
        };
        let colon = find_from(host_port, ":"@, 0);
        let host = if colon >= 0 {
            host_port.subrange(0, colon)
        } else {
            host_port
        };
        let after = host_port.subrange(colon + 1, host_port.len() as int);
        let colon2 = find_from(after, ":"@, 0);
        let port = if colon < 0 {
            if tls {
                "443"@
            } else {
                "80"@
            }
        } else if colon2 >= 0 {
            after.subrange(0, colon2)
        } else {
            after
        };
        Ok((tls, host, port, uri))
    }
}

/// The maker of outgoing requests.
#[derive(Default)]
pub struct HttpClient {}

impl HttpClient {
    /// The head of `request` as it is sent.
    pub fn get_request_header_string(request: &HttpRequest) -> (r: String)
        ensures
            r@ == request_head(request@),
    {
        let mut out: Vec<char> = Vec::new();
        append_str(&mut out, request.get_method().as_str());
        append_str(&mut out, " ");
        append_str(&mut out, request.get_uri().as_str());
        let q = request.get_query_string();
        if !q.as_str().is_empty() {
            append_str(&mut out, "?");
            append_str(&mut out, q.as_str());
        }
        append_str(&mut out, " ");
        append_str(&mut out, request.get_version().as_str());
        append_str(&mut out, "\r\n");
        write_headers(&mut out, request.headers());
        append_str(&mut out, "\r\n");
        proof {
            assert(out@ =~= request_head(request@));
        }
        string_from(out.as_slice())
    }

    /// Splits an address into scheme, host, port and path.
    pub fn parse_address(address: &str) -> (r: Result<ClientTarget, BacktraceError>)
        ensures
            match spec_target(address@) {
                Ok((tls, host, port, uri)) => r matches Ok(t) && t.tls == tls && t.host@ == host
                    && t.port@ == port && t.uri@ == uri,
                Err(e) => r matches Err(x) && x.kind == e,
            },
    {
        let a = chars_of(address);
        let https = chars_of("https://");
        let http = chars_of("http://");
        proof {
            reveal_strlit("https://");
            reveal_strlit("http://");
        }
        let tls = a.len() >= 8 && starts_with(&a, &https);
        let plain = a.len() >= 7 && starts_with(&a, &http);
        if !tls && !plain {
            return Err(BacktraceError::new(ErrorKind::UnsupportedProtocol));
        }
        let rest = if tls {
            sub_chars(&a, 8, a.len())
        } else {
            sub_chars(&a, 7, a.len())
        };
        let slash_pat = chars_of("/");
        let colon_pat = chars_of(":");
        proof {
            lemma_find_from(rest@, "/"@, 0);
            reveal_strlit("/");
            reveal_strlit(":");
        }
        let slash = find_at(&rest, &slash_pat, 0);
        let host_port = match slash {
            Some(s) => sub_chars(&rest, 0, s),
            None => sub_chars(&rest, 0, rest.len()),
        };
        let uri = match slash {
            Some(s) => {
                let mut u = vec!['/'];
                let tail = sub_chars(&rest, s + 1, rest.len());
                let mut k: usize = 0;
                while k < tail.len()
                    invariant
                        k <= tail@.len(),
                        u@ == seq!['/'] + tail@.take(k as int),
                    decreases tail@.len() - k,
                {
                    u.push(tail[k]);
                    proof {
                        assert(tail@.take(k + 1) =~= tail@.take(k as int).push(tail@[k as int]));
                    }
                    k += 1;
                }
                proof {
                    assert(tail@.take(tail@.len() as int) =~= tail@);
                }
                string_from(u.as_slice())
            },
            None => "/".to_owned(),
        };
        proof {
            lemma_find_from(host_port@, ":"@, 0);
        }
        let colon = find_at(&host_port, &colon_pat, 0);
        let (host, port) = match colon {
            None => (
                string_from(host_port.as_slice()),
                if tls {
                    "443".to_owned()
                } else {
                    "80".to_owned()
                },
            ),
            Some(c) => {
                let after = sub_chars(&host_port, c + 1, host_port.len());
                proof {
                    lemma_find_from(after@, ":"@, 0);
                }
                let p = match find_at(&after, &colon_pat, 0) {
                    Some(c2) => sub_chars(&after, 0, c2),
                    None => sub_chars(&after, 0, after.len()),
                };
                (string_from(sub_chars(&host_port, 0, c).as_slice()), string_from(p.as_slice()))
            },
        };
        proof {
            assert(rest@.subrange(0, rest@.len() as int) =~= rest@);
            assert(host_port@.subrange(0, host_port@.len() as int) =~= host_port@);
        }
        Ok(ClientTarget { tls, host, port, uri })
    }
}

fn starts_with(a: &Vec<char>, p: &Vec<char>) -> (r: bool)
    ensures
        r == (a@.len() >= p@.len() && a@.subrange(0, p@.len() as int) == p@),
{
    if a.len() < p.len() {
        return false;
    }
    let mut k: usize = 0;
    while k < p.len()
        invariant
            k <= p@.len(),
            p@.len() <= a@.len(),
            forall|m: int| 0 <= m < k ==> a@[m] == p@[m],
        decreases p@.len() - k,
    {
        if a[k] != p[k] {
            assert(a@.subrange(0, p@.len() as int)[k as int] != p@[k as int]);
            return false;
        }
        k += 1;
    }
    assert(a@.subrange(0, p@.len() as int) =~= p@);
    true
}

} // verus!
