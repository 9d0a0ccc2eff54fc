use vstd::prelude::*;
use crate::error::{BacktraceError, ErrorKind};
use crate::form::{find_from, find_at, spec_form};
use crate::headers::header_value;
use crate::json::Json;
use crate::json_model::{JsonView, spec_parse};
use crate::request::{HttpRequest, RequestView, text_of, text_from};
use crate::response::{HttpResponse, content_type_name};
use crate::text::chars_of;

verus! {

/// The parameters of a request: a JSON body, a form body, or else the
/// query string, as the `content-type` header says.
pub open spec fn request_params(req: RequestView) -> Result<JsonView, ErrorKind> {
    let ct = match header_value(req.headers, content_type_name()) {
        Some(v) => v,
        None => seq![],
    };
    if find_from(ct, "application/json"@, 0) >= 0 {
        match text_of(req.body) {
            None => Err(ErrorKind::InvalidUtf8),
            Some(t) => spec_parse(t),
        }
    } else if find_from(ct, "application/x-www-form-urlencoded"@, 0) >= 0 {
        match text_of(req.body) {
            None => Err(ErrorKind::InvalidUtf8),
            Some(t) => match spec_form(t) {
                Ok(es) => Ok(JsonView::Object(es)),
                Err(e) => Err(e),
            },
        }
    } else {
        match spec_form(req.query_string) {
            Ok(es) => Ok(JsonView::Object(es)),
            Err(e) => Err(e),
        }
    }
}

fn contains(hay: &Vec<char>, needle: &str) -> (r: bool)
    ensures
        r == (find_from(hay@, needle@, 0) >= 0),
{
    let n = chars_of(needle);
    match find_at(hay, &n, 0) {
        Some(_) => true,
        None => false,
    }
}

impl HttpRequest {
    /// The parameters of this request: its body parsed as JSON where
    /// `content-type` names `application/json`, as form data where it names
    /// `application/x-www-form-urlencoded`, else the query string as form
    /// data.
    pub fn parse_params(&self) -> (r: Result<Json, BacktraceError>)
        ensures
            match request_params(self@) {
                Ok(v) => r matches Ok(j) && j@ == v,
                Err(e) => r matches Err(x) && x.kind == e,
            },
    {
        let k = crate::response::content_type_key();
        let ct: Vec<char> = match self.get_lowered_header(&k) {
            Some(v) => chars_of(v.as_str()),
            None => Vec::new(),
        };
        assert(ct@ == match header_value(self@.headers, content_type_name()) {
            Some(v) => v,
            None => Seq::<char>::empty(),
        });
        if contains(&ct, "application/json") {
            match text_from(self.get_body()) {
                None => Err(BacktraceError::new(ErrorKind::InvalidUtf8)),
                Some(t) => Json::parse(t.as_str()),
            }
        } else if contains(&ct, "application/x-www-form-urlencoded") {
            match text_from(self.get_body()) {
                None => Err(BacktraceError::new(ErrorKind::InvalidUtf8)),
                Some(t) => Json::parse_form_data(t.as_str()),
            }
        } else {
            Json::parse_form_data(self.get_query_string().as_str())
        }
    }
}

/// The index of the route for `method` and `url`, or -1.
pub open spec fn route_index(keys: Seq<(Seq<char>, Seq<char>)>, method: Seq<char>, url: Seq<char>) -> int
    decreases keys.len(),
{
    if keys.len() == 0 {
        -1
    } else if keys.last() == (method, url) {
        keys.len() - 1
    } else {
        route_index(keys.drop_last(), method, url)
    }
}

pub proof fn lemma_route_index(keys: Seq<(Seq<char>, Seq<char>)>, method: Seq<char>, url: Seq<char>)
    ensures
        -1 <= route_index(keys, method, url) < keys.len(),
        route_index(keys, method, url) >= 0 ==> keys[route_index(keys, method, url)] == (method, url),
    decreases keys.len(),
{
    if keys.len() > 0 && keys.last() != (method, url) {
        lemma_route_index(keys.drop_last(), method, url);
    }
}

/// A table of handlers, one per method and path.
pub struct Router<F> {
    routes: Vec<(String, String, F)>,
}

impl<F: Fn(Json) -> HttpResponse> Router<F> {
    /// The (method, path) of each route, in the order they were registered.
    pub closed spec fn route_keys(&self) -> Seq<(Seq<char>, Seq<char>)> {
        self.routes@.map_values(|r: (String, String, F)| (r.0@, r.1@))
    }

    /// The handler of route `i`.
    pub closed spec fn handler_at(&self, i: int) -> F {
        self.routes@[i].2
    }

    /// Every handler accepts every parameter value.
    pub closed spec fn handlers_total(&self) -> bool {
        forall|i: int, j: Json| 0 <= i < self.routes@.len() ==> #[trigger] self.routes@[i].2.requires((j,))
    }

    pub fn new() -> (r: Self)
        ensures
            r.route_keys().len() == 0,
            r.handlers_total(),
    {
        let r = Router { routes: Vec::new() };
        assert(r.route_keys() =~= Seq::<(Seq<char>, Seq<char>)>::empty());
        r
    }

    fn find_route(&self, method: &str, url: &str) -> (r: Option<usize>)
        ensures
            match r {
                Some(i) => route_index(self.route_keys(), method@, url@) == i as int && i < self.routes@.len(),
                None => route_index(self.route_keys(), method@, url@) == -1,
            },
    {
        let m = method.to_owned();
        let u = url.to_owned();
        let ghost keys = self.route_keys();
        let mut j: usize = self.routes.len();
        proof {
            assert(keys.take(keys.len() as int) =~= keys);
        }
        while j > 0
            invariant
                j <= self.routes@.len(),
                keys == self.route_keys(),
                keys.len() == self.routes@.len(),
                m@ == method@ && u@ == url@,
                route_index(keys, method@, url@) == route_index(keys.take(j as int), method@, url@),
            decreases j,
        {
            proof {
                assert(keys.take(j as int).drop_last() =~= keys.take(j - 1));
            }
            if self.routes[j - 1].0 == m && self.routes[j - 1].1 == u {
                return Some(j - 1);
            }
            j -= 1;
        }
        None
    }

    /// Registers `func` for `method` and `url`, replacing an earlier one.
    pub fn register_url(&mut self, method: &str, url: &str, func: F)
        requires
            old(self).handlers_total(),
            forall|j: Json| func.requires((j,)),
        ensures
            final(self).handlers_total(),
            ({
                let i = route_index(old(self).route_keys(), method@, url@);
                if i >= 0 {
                    final(self).route_keys() == old(self).route_keys() && final(self).handler_at(i) == func
                        && forall|k: int| 0 <= k < old(self).route_keys().len() && k != i ==> final(self).handler_at(k) == old(self).handler_at(k)
                } else {
                    final(self).route_keys() == old(self).route_keys().push((method@, url@))
                        && final(self).handler_at(old(self).route_keys().len() as int) == func
                        && forall|k: int| 0 <= k < old(self).route_keys().len() ==> final(self).handler_at(k) == old(self).handler_at(k)
                }
            }),
    {
        proof {
            lemma_route_index(self.route_keys(), method@, url@);
        }
        match self.find_route(method, url) {
            Some(i) => {
                let ghost pre = self.routes@;
                self.routes[i] = (method.to_owned(), url.to_owned(), func);
                proof {
                    assert(self.route_keys() =~= old(self).route_keys());
                }
            },
            None => {
                self.routes.push((method.to_owned(), url.to_owned(), func));
                proof {
                    assert(self.route_keys() =~= old(self).route_keys().push((method@, url@)));
                }
            },
        }
    }

    /// Whether a handler is registered for `method` and `url`.
    pub fn contains_url(&self, method: &str, url: &str) -> (r: bool)
        ensures
            r == (route_index(self.route_keys(), method@, url@) >= 0),
    {
        match self.find_route(method, url) {
            Some(_) => true,
            None => false,
        }
    }

    /// Runs the handler for `method` and `url` on the request's parameters.
    pub fn call(&self, method: &str, url: &str, request: &HttpRequest) -> (r: Result<HttpResponse, BacktraceError>)
        requires
            self.handlers_total(),
        ensures
            ({
                let i = route_index(self.route_keys(), method@, url@);
                if i < 0 {
                    r matches Err(e) && e.kind == ErrorKind::RouteNotFound
                } else {
                    match request_params(request@) {
                        Err(e) => r matches Err(x) && x.kind == e,
                        Ok(v) => r matches Ok(resp) && exists|j: Json| j@ == v && self.handler_at(i).ensures((j,), resp),
                    }
                }
            }),
    {
        match self.find_route(method, url) {
            None => Err(BacktraceError::new(ErrorKind::RouteNotFound)),
            Some(i) => {
                let json = match request.parse_params() {
                    Ok(j) => j,
                    Err(e) => {
                        return Err(e);
                    },
                };
                let ghost jv = json;
                let f = &self.routes[i].2;
                let resp = f(json);
                assert(self.handler_at(i as int).ensures((jv,), resp));
                Ok(resp)
            },
        }
    }
}

} // verus!
