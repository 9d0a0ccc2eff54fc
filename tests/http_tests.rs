use std::io::Read;

use rust_web::{
    ErrorCategory, ErrorKind, FileOutcome, HttpClient, HttpRequest, HttpRequestReader,
    HttpResponse, HttpResponseReader, HttpResponseStatusCode, Json, JsonType, Router,
};

#[test]
fn http_request() {
    let mut reader = HttpRequestReader::new();

    let content = "GET / HTTP/1.1\r\n\
    Accept: text/html,application/xhtml+xml,application/xml;q=0.9,image/avif,image/webp,image/apng,*/*;q=0.8,application/signed-exchange;v=b3;q=0.7\r\n\
    Accept-Encoding: gzip, deflate\r\n\
    Accept-Language: zh-CN,zh;q=0.9\r\n\
    Cache-Control: max-age=0\r\n\
    Connection: keep-alive\r\n\
    Host: 43.139.67.232:8888\r\n\
    Upgrade-Insecure-Requests: 1\r\n\
    User-Agent: Mozilla/5.0 (Windows NT 10.0; Win64; x64) AppleWebKit/537.36 (KHTML, like Gecko) Chrome/121.0.0.0 Safari/537.36\r\n\r\n";

    println!("{:?}", content);

    reader.read(content.as_bytes().to_vec()).unwrap();

    assert_eq!(true, reader.is_finished());
}

#[test]
fn framing_completeness() {
    let mut reader = HttpRequestReader::new();
    reader.read(b"GET /x?y=1 HTTP/1.1\r\nHost: h\r\n\r\n".to_vec()).unwrap();
    assert!(reader.is_finished());
    let request = reader.get_request().unwrap();
    assert_eq!(request.get_method(), "GET");
    assert_eq!(request.get_uri(), "/x");
    assert_eq!(request.get_query_string(), "y=1");
    assert_eq!(request.get_version(), "HTTP/1.1");
    assert_eq!(request.get_header("host").unwrap(), "h");
    assert!(request.get_body().is_empty());
}

fn summary(r: &HttpRequest) -> (String, String, String, String, Vec<(String, String)>, Vec<u8>) {
    (
        r.get_method().clone(),
        r.get_uri().clone(),
        r.get_query_string().clone(),
        r.get_version().clone(),
        r.headers().clone(),
        r.get_body().clone(),
    )
}

#[test]
fn chunk_invariance() {
    let stream: &[u8] = b"POST /submit?x=1 HTTP/1.1\r\nHost: example\r\nContent-Type: application/json\r\nContent-Length: 11\r\n\r\n{\"a\": 123}\n";
    let mut whole = HttpRequestReader::new();
    whole.read(stream.to_vec()).unwrap();
    assert!(whole.is_finished());
    let expected = summary(&whole.get_request().unwrap());
    for size in 1..stream.len() {
        let mut reader = HttpRequestReader::new();
        for piece in stream.chunks(size) {
            reader.read(piece.to_vec()).unwrap();
        }
        assert!(reader.is_finished());
        assert_eq!(summary(&reader.get_request().unwrap()), expected);
    }
    assert_eq!(expected.5, b"{\"a\": 123}\n".to_vec());
}

#[test]
fn peer_close_signal() {
    let mut reader = HttpRequestReader::new();
    reader.read(b"GET / HT".to_vec()).unwrap();
    let e = reader.read(Vec::new()).unwrap_err();
    assert_eq!(e.kind(), ErrorKind::ConnectionClosed);
    assert!(e.is_connection_closed());
    assert_eq!(e.category(), ErrorCategory::Framing);
    let mut fresh = HttpRequestReader::new();
    assert_eq!(fresh.read(Vec::new()).unwrap_err().kind(), ErrorKind::ConnectionClosed);
}

#[test]
fn reader_framing_errors() {
    let mut reader = HttpRequestReader::new();
    reader.read(b"POST / HTTP/1.1\r\ncontent-length: 3\r\n\r\nab".to_vec()).unwrap();
    assert!(!reader.is_finished());
    assert_eq!(reader.read(Vec::new()).unwrap_err().kind(), ErrorKind::NoProgress);
    reader.read(b"c".to_vec()).unwrap();
    assert!(reader.is_finished());
    assert_eq!(reader.read(b"x".to_vec()).unwrap_err().kind(), ErrorKind::AlreadyFinished);
    assert_eq!(reader.read(Vec::new()).unwrap_err().kind(), ErrorKind::AlreadyFinished);
    assert!(reader.is_finished());
    let request = reader.get_request().unwrap();
    assert_eq!(request.get_body(), &b"abc".to_vec());
    assert_eq!(request.get_header("Content-Length").unwrap(), "3");

    let unfinished = HttpRequestReader::new();
    assert_eq!(unfinished.get_request().unwrap_err().kind(), ErrorKind::NotFinished);

    let mut bad = HttpRequestReader::new();
    let e = bad.read(b"GET / HTTP/1.1\r\nno colon here\r\n".to_vec()).unwrap_err();
    assert_eq!(e.kind(), ErrorKind::InvalidHeader);

    let mut bad_len = HttpRequestReader::new();
    let e = bad_len.read(b"GET / HTTP/1.1\r\ncontent-length: x\r\n\r\n".to_vec()).unwrap_err();
    assert_eq!(e.kind(), ErrorKind::InvalidContentLength);

    let mut bad_utf8 = HttpRequestReader::new();
    let e = bad_utf8.read(vec![0xff, b' ']).unwrap_err();
    assert_eq!(e.kind(), ErrorKind::InvalidUtf8);
}

#[test]
fn request_fields() {
    let mut r = HttpRequest::default();
    r.set_method("POST");
    r.set_version("HTTP/1.1");
    r.set_uri("/a/b?c=d?e");
    assert_eq!(r.get_uri(), "/a/b");
    assert_eq!(r.get_query_string(), "c=d?e");
    r.set_uri("/plain");
    assert_eq!(r.get_uri(), "/plain");
    assert_eq!(r.get_query_string(), "c=d?e");
    r.insert_header("Content-Type", "text/plain");
    r.insert_header("X-ONE", "1");
    r.insert_header("x-one", "2");
    assert_eq!(r.get_header("CONTENT-TYPE").unwrap(), "text/plain");
    assert_eq!(r.get_header("x-One").unwrap(), "2");
    assert_eq!(r.get_header_keys(), vec!["content-type".to_string(), "x-one".to_string()]);
    assert!(r.get_header("missing").is_none());
    assert_eq!(r.get_body_len().unwrap(), 0);
    r.set_body(b"hello".to_vec());
    assert_eq!(r.get_header("content-length").unwrap(), "5");
    assert_eq!(r.get_body_len().unwrap(), 5);
    r.insert_header("content-length", "five");
    assert_eq!(r.get_body_len().unwrap_err().kind(), ErrorKind::InvalidContentLength);
}

#[test]
fn response_basics() {
    let mut response = HttpResponse::new(HttpResponseStatusCode::NotFound);
    assert_eq!(response.get_version(), "HTTP/1.1");
    assert_eq!(response.get_status_desc(), "NotFound");
    assert_eq!(response.get_status_code().code(), 404);
    response.set_status_code(HttpResponseStatusCode::Found);
    response.set_status_desc("Moved");
    response.set_version("HTTP/1.0");
    response.insert_header("Location", "/x");
    response.set_body(b"12345678901".to_vec());
    assert_eq!(response.get_status_code(), HttpResponseStatusCode::Found);
    assert_eq!(response.get_version(), "HTTP/1.0");
    assert_eq!(
        response.get_header().clone(),
        vec![
            ("location".to_string(), "/x".to_string()),
            ("content-length".to_string(), "11".to_string())
        ]
    );
    assert_eq!(response.get_body().len(), 11);
    assert_eq!(HttpResponseStatusCode::from_code(415), Some(HttpResponseStatusCode::UnsupportedMediaType));
    assert_eq!(HttpResponseStatusCode::from_code(418), None);
    assert_eq!(HttpResponseStatusCode::InternalServerError.name(), "InternalServerError");
}

#[test]
fn response_json() {
    let json = Json::parse("{\"a\": [1, \"中\"]}").unwrap();
    let response = HttpResponse::json(json);
    assert_eq!(response.get_body(), &"{\"a\": [1, \"中\"]}".as_bytes().to_vec());
    assert_eq!(
        response.get_header().clone(),
        vec![
            ("content-length".to_string(), "17".to_string()),
            ("content-type".to_string(), "application/json; charset=utf-8".to_string())
        ]
    );
}

#[test]
fn file_responses() {
    let ok = HttpResponse::from_file("wwwroot/app.min.js", FileOutcome::Found(b"x()".to_vec()));
    assert_eq!(ok.get_status_code(), HttpResponseStatusCode::OK);
    assert_eq!(ok.get_header()[0], ("content-type".to_string(), "text/javascript".to_string()));
    assert_eq!(ok.get_body(), &b"x()".to_vec());
    let other = HttpResponse::from_file("README", FileOutcome::Found(Vec::new()));
    assert_eq!(other.get_header()[0].1, "charset=utf-8");
    let missing = HttpResponse::from_file("views/a.html", FileOutcome::NotFound);
    assert_eq!(missing.get_status_code(), HttpResponseStatusCode::NotFound);
    assert_eq!(missing.get_body(), &b"404 not found".to_vec());
    let failed = HttpResponse::from_file("x", FileOutcome::Failed);
    assert_eq!(failed.get_status_code().code(), 500);
    assert_eq!(HttpResponse::view_path("index.html"), "views/index.html");
    assert_eq!(HttpResponse::root_file_path("/a.css"), "wwwroot/a.css");
}

#[test]
fn response_reader() {
    let stream: &[u8] = b"HTTP/1.1 200 OK\r\nContent-Type: text/plain\r\nContent-Length: 5\r\n\r\nhello";
    for size in 1..=stream.len() {
        let mut reader = HttpResponseReader::default();
        for piece in stream.chunks(size) {
            reader.read(piece.to_vec()).unwrap();
        }
        assert!(reader.is_finished());
        let response = reader.get_response().unwrap();
        assert_eq!(response.get_status_code(), HttpResponseStatusCode::OK);
        assert_eq!(response.get_status_desc(), "OK");
        assert_eq!(response.get_body(), &b"hello".to_vec());
    }
}

#[test]
fn response_reader_errors() {
    let mut r = HttpResponseReader::new();
    let e = r.read(b"HTTP/1.1 999 Odd\r\n".to_vec()).unwrap_err();
    assert_eq!(e.kind(), ErrorKind::UnknownStatusCode);
    let mut r = HttpResponseReader::new();
    let e = r.read(b"HTTP/1.1 abc Odd\r\n".to_vec()).unwrap_err();
    assert_eq!(e.kind(), ErrorKind::InvalidStatusCode);
    let mut r = HttpResponseReader::new();
    let e = r.read(b"HTTP/1.1 200 OK\r\n\r\n".to_vec()).unwrap_err();
    assert_eq!(e.kind(), ErrorKind::MissingContentLength);
    let mut r = HttpResponseReader::new();
    r.read(b"HTTP/1.1 404 Not Found\r\ncontent-length: 0\r\n\r\n".to_vec()).unwrap();
    assert!(r.is_finished());
    assert_eq!(r.get_response().unwrap().get_status_desc(), "Not Found");
    let r = HttpResponseReader::new();
    assert_eq!(r.get_response().unwrap_err().kind(), ErrorKind::NotFinished);
}

fn test_response(param: Json) -> HttpResponse {
    println!("test_response!!!param:{}", param.to_string());

    return HttpResponse::new(HttpResponseStatusCode::OK);
}

fn echo(param: Json) -> HttpResponse {
    HttpResponse::json(param)
}

#[test]
fn call_back_register() {
    let mut router = Router::new();

    router.register_url("GET", "asd", &test_response);

    let mut request = HttpRequest::default();
    request.set_body("{\"a\": 123123}".as_bytes().to_vec());
    request.insert_header("content-length", &request.get_body().len().to_string());

    router.call("GET", "asd", &request).unwrap();
}

#[test]
fn contains_uri() {
    let mut router = Router::new();

    router.register_url("POST", "/asd", &test_response);
    assert_eq!(true, router.contains_url("POST", "/asd"));
    assert_eq!(false, router.contains_url("GET", "/asd"));
    assert_eq!(false, router.contains_url("POST", "asd"));
}

#[test]
fn router_parameters() {
    let mut router: Router<fn(Json) -> HttpResponse> = Router::new();
    router.register_url("POST", "/e", echo);
    let mut request = HttpRequest::default();
    request.insert_header("Content-Type", "application/json");
    request.set_body(b"{\"a\": 1}".to_vec());
    let response = router.call("POST", "/e", &request).unwrap();
    assert_eq!(response.get_body(), &b"{\"a\": 1}".to_vec());

    let mut form = HttpRequest::default();
    form.insert_header("content-type", "application/x-www-form-urlencoded");
    form.set_body(b"k=v+w".to_vec());
    let response = router.call("POST", "/e", &form).unwrap();
    assert_eq!(response.get_body(), &b"{\"k\": \"v w\"}".to_vec());

    let mut query = HttpRequest::default();
    query.set_uri("/e?q=1");
    let response = router.call("POST", "/e", &query).unwrap();
    assert_eq!(response.get_body(), &b"{\"q\": \"1\"}".to_vec());

    let e = router.call("GET", "/e", &query).unwrap_err();
    assert_eq!(e.kind(), ErrorKind::RouteNotFound);
    let mut broken = HttpRequest::default();
    broken.insert_header("content-type", "application/json");
    broken.set_body(b"[1".to_vec());
    assert_eq!(router.call("POST", "/e", &broken).unwrap_err().kind(), ErrorKind::UnterminatedArray);
    assert_eq!(JsonType::Null, *Json::parse("null").unwrap().get());
}

#[test]
fn client_head_and_address() {
    let mut request = HttpRequest::default();
    request.set_method("POST");
    request.set_version("HTTP/1.1");
    request.set_uri("/pay?id=7");
    request.insert_header("Accept", "application/json");
    request.insert_header("host", "api.example");
    assert_eq!(
        HttpClient::get_request_header_string(&request),
        "POST /pay?id=7 HTTP/1.1\r\naccept: application/json\r\nhost: api.example\r\n\r\n"
    );
    let t = HttpClient::parse_address("https://api.mch.weixin.qq.com/v3/pay/transactions/h5").unwrap();
    assert!(t.tls);
    assert_eq!(t.host, "api.mch.weixin.qq.com");
    assert_eq!(t.port, "443");
    assert_eq!(t.uri, "/v3/pay/transactions/h5");
    let t = HttpClient::parse_address("http://www.baidu.com:80/").unwrap();
    assert!(!t.tls);
    assert_eq!(t.host, "www.baidu.com");
    assert_eq!(t.port, "80");
    assert_eq!(t.uri, "/");
    let t = HttpClient::parse_address("https://www.baidu.com:8443").unwrap();
    assert_eq!(t.port, "8443");
    assert_eq!(t.uri, "/");
    let e = HttpClient::parse_address("ftp://x").unwrap_err();
    assert_eq!(e.kind(), ErrorKind::UnsupportedProtocol);
}

#[test]
fn response_head_text() {
    let mut response = HttpResponse::new(HttpResponseStatusCode::NotFound);
    response.insert_header("Connection", "close");
    response.set_body(b"404 not found".to_vec());
    assert_eq!(
        response.head_string(),
        "HTTP/1.1 404 NotFound\r\nconnection: close\r\ncontent-length: 13\r\n\r\n"
    );
    let mut ok = HttpResponse::new(HttpResponseStatusCode::OK);
    ok.set_status_desc("X");
    assert_eq!(ok.head_string(), "HTTP/1.1 200 OK\r\n\r\n");
}

#[test]
fn gzip_acceptance() {
    let mut r = HttpRequest::default();
    assert!(!r.accepts_gzip());
    r.insert_header("Accept-Encoding", "gzip, deflate");
    assert!(r.accepts_gzip());
    r.insert_header("accept-encoding", "deflate,gzip");
    assert!(r.accepts_gzip());
    r.insert_header("accept-encoding", "deflate, gzip");
    assert!(!r.accepts_gzip());
    r.insert_header("accept-encoding", "gzipx");
    assert!(!r.accepts_gzip());
}

#[test]
fn prepare_for_sending() {
    let mut plain_request = HttpRequest::default();
    plain_request.insert_header("accept-encoding", "br");
    let mut plain = HttpResponse::new(HttpResponseStatusCode::OK);
    plain.set_body(b"hello hello hello".to_vec());
    plain.prepare_for(&plain_request).unwrap();
    assert_eq!(plain.get_body(), &b"hello hello hello".to_vec());
    assert_eq!(plain.get_header().last().unwrap(), &("connection".to_string(), "close".to_string()));

    let mut gz_request = HttpRequest::default();
    gz_request.insert_header("Accept-Encoding", "gzip, deflate");
    let mut packed = HttpResponse::new(HttpResponseStatusCode::OK);
    packed.set_body(b"hello hello hello".to_vec());
    packed.prepare_for(&gz_request).unwrap();
    let body = packed.get_body().clone();
    assert_eq!(&body[..2], &[0x1f, 0x8b]);
    let mut out = Vec::new();
    flate2::read::GzDecoder::new(&body[..]).read_to_end(&mut out).unwrap();
    assert_eq!(out, b"hello hello hello".to_vec());
    assert_eq!(
        packed.get_header().clone(),
        vec![
            ("content-length".to_string(), body.len().to_string()),
            ("content-encoding".to_string(), "gzip".to_string()),
            ("connection".to_string(), "close".to_string())
        ]
    );
}
