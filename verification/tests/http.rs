use rweb::http::header_end;
use rweb::http::HeaderMap;
use rweb::http::HeaderName;
use rweb::http::HttpError;
use rweb::http::Method;
use rweb::http::Request;
use rweb::http::Response;
use rweb::http::Scheme;
use rweb::http::StatusCode;
use rweb::http::Url;
use rweb::http::Version;

#[test]
fn normalizes_custom_header_names() {
    let name: HeaderName = "   X-Test-Header ".parse().unwrap();

    assert_eq!(name.to_string(), "x-test-header");
}

#[test]
fn preserves_repeated_header_values() {
    let name: HeaderName = "x-test".parse().unwrap();
    let mut headers = HeaderMap::new();

    headers.append(name.clone(), "one");
    headers.append(name.clone(), "two");

    assert_eq!(headers.get(&name), Some("one"));
    assert_eq!(headers.get_all(&name), vec!["one", "two"]);
}

#[test]
fn set_replaces_existing_values() {
    let name: HeaderName = "x-test".parse().unwrap();
    let mut headers = HeaderMap::new();

    headers.append(name.clone(), "one");
    headers.set(name.clone(), "two");

    assert_eq!(headers.get_all(&name), vec!["two"]);
}

#[test]
fn standard_header_names_are_recognized_in_any_case() {
    let name: HeaderName = " Content-Length".parse().unwrap();

    assert!(matches!(name, HeaderName::CONTENT_LENGTH));
    assert_eq!(name.to_string(), "content-length");
    assert!(name.same(&HeaderName::CONTENT_LENGTH));
    assert!(!name.same(&HeaderName::HOST));
}

#[test]
fn other_headers_are_untouched_by_append_and_set() {
    let a: HeaderName = "a".parse().unwrap();
    let b: HeaderName = "b".parse().unwrap();
    let mut headers = HeaderMap::new();

    headers.append(a.clone(), "1");
    headers.set(b.clone(), "2");
    headers.append(b.clone(), "3");

    assert_eq!(headers.get_all(&a), vec!["1"]);
    assert_eq!(headers.get_all(&b), vec!["2", "3"]);
    assert_eq!(headers.get(&HeaderName::HOST), None);
    assert_eq!(headers.to_string(), "a: 1\r\nb: 2\r\nb: 3\r\n");
}

#[test]
fn serializes_get_request() {
    let url: Url = "http://example.com/path".parse().unwrap();
    let request = Request::builder()
        .method(Method::GET)
        .version(Version::HTTP10)
        .url(url)
        .header(HeaderName::HOST, "example.com")
        .header(HeaderName::CONNECTION, "close")
        .build()
        .unwrap();

    let request = request.to_string();

    assert!(request.starts_with("GET /path HTTP/1.0\r\n"));
    assert!(request.contains("host: example.com\r\n"));
    assert!(request.contains("connection: close\r\n"));
    assert!(request.ends_with("\r\n\r\n"));
}

#[test]
fn request_bytes_are_its_text() {
    let url: Url = "http://example.com/".parse().unwrap();
    let request = Request::builder()
        .method(Method::GET)
        .version(Version::HTTP11)
        .url(url)
        .build()
        .unwrap();

    assert_eq!(request.as_bytes(), b"GET / HTTP/1.1\r\n\r\n".to_vec());
    assert_eq!(request.host(), "example.com");
    assert_eq!(request.port(), 80);
    assert_eq!(request.path(), "/");
    assert_eq!(request.scheme(), Scheme::Http);
}

#[test]
fn builder_reports_what_is_missing() {
    let url: Url = "http://example.com/".parse().unwrap();

    assert_eq!(
        Request::builder().build().err().unwrap(),
        HttpError::MissingMethod
    );
    assert_eq!(
        Request::builder().method(Method::GET).build().err().unwrap(),
        HttpError::MissingUrl
    );
    assert_eq!(
        Request::builder()
            .method(Method::GET)
            .url(url)
            .build()
            .err()
            .unwrap(),
        HttpError::MissingVersion
    );
}

#[test]
fn response_parses_headers_and_preserves_body_bytes() {
    let raw = b"HTTP/1.0 200 OK\r\nContent-Type: text/html\r\nX-Test: one\r\nX-Test: two\r\n\r\nhello\nworld";

    let response = Response::try_from(raw.as_slice()).unwrap();
    let content_type = "content-type".parse().unwrap();
    let x_test = "x-test".parse().unwrap();

    assert_eq!(response.headers().get(&content_type), Some("text/html"));
    assert_eq!(response.headers().get_all(&x_test), vec!["one", "two"]);
    assert_eq!(response.body(), b"hello\nworld");
}

#[test]
fn response_accepts_non_utf8_body() {
    let raw = b"HTTP/1.0 200 OK\r\nContent-Type: application/octet-stream\r\n\r\n\xff\x00";

    let response = Response::try_from(raw.as_slice()).unwrap();

    assert_eq!(response.body(), b"\xff\x00");
    assert!(response.body_as_str().is_err());
}

#[test]
fn response_head_fields() {
    let raw = b"HTTP/1.1 301 Moved\r\nContent-Length: 12\r\nConnection: close\r\nLocation: /next\r\n\r\n";

    let response = Response::try_from(raw.as_slice()).unwrap();
    let head = response.head();

    assert_eq!(response.status(), StatusCode(301));
    assert_eq!(response.version(), Version::HTTP11);
    assert!(head.status().is_redirect());
    assert!(!head.status().is_success());
    assert_eq!(head.content_length(), Some(12));
    assert!(head.is_connection_closed());
    assert_eq!(head.location(), Some("/next"));
    assert_eq!(head.transfer_encoding(), None);
    assert_eq!(head.content_encoding(), None);
    assert_eq!(response.body(), b"");
}

#[test]
fn response_errors() {
    assert_eq!(
        Response::try_from(b"HTTP/1.1 200 OK\r\n".as_slice()).err().unwrap(),
        HttpError::MissingSeparator
    );
    assert_eq!(
        Response::try_from(b"HTTP/2 200 OK\r\n\r\n".as_slice()).err().unwrap(),
        HttpError::InvalidVersion
    );
    assert_eq!(
        Response::try_from(b"HTTP/1.1\r\n\r\n".as_slice()).err().unwrap(),
        HttpError::MissingStatusCode
    );
    assert_eq!(
        Response::try_from(b"HTTP/1.1 abc\r\n\r\n".as_slice()).err().unwrap(),
        HttpError::InvalidStatusCode
    );
    assert_eq!(
        Response::try_from(b"\r\n\r\n".as_slice()).err().unwrap(),
        HttpError::MissingStatusLine
    );
    assert_eq!(
        Response::try_from(b"\xff\r\n\r\n".as_slice()).err().unwrap(),
        HttpError::InvalidHeaderEncoding
    );
}

#[test]
fn header_end_finds_first_blank_line() {
    assert_eq!(header_end(b"ab\r\n\r\ncd\r\n\r\n"), Some(2));
    assert_eq!(header_end(b"ab\r\ncd"), None);
}

#[test]
fn status_code_classes() {
    assert!(StatusCode(200).is_success());
    assert!(StatusCode(299).is_success());
    assert!(!StatusCode(300).is_success());
    for code in [301, 302, 303, 307, 308] {
        assert!(StatusCode(code).is_redirect());
    }
    assert!(!StatusCode(304).is_redirect());
    assert_eq!("+204".parse::<StatusCode>().unwrap(), StatusCode(204));
    assert!("70000".parse::<StatusCode>().is_err());
}

#[test]
fn versions_read_back_their_names() {
    assert_eq!(Version::HTTP10.to_string(), "HTTP/1.0");
    assert_eq!("HTTP/1.1".parse::<Version>().unwrap(), Version::HTTP11);
    assert!("HTTP/2".parse::<Version>().is_err());
    assert_eq!(Method::GET.to_string(), "GET");
}
