use std::path::PathBuf;

use rweb::http::Url as HttpUrl;
use rweb::loader::client::ConnectionPolicy;
use rweb::loader::client::LoadError;
use rweb::loader::client::Navigation;
use rweb::loader::file_client::FileUrlError;
use rweb::loader::http_client::body_length;
use rweb::loader::http_client::keeps_connection;
use rweb::loader::http_client::BodyError;
use rweb::loader::url::LoaderUrlError;
use rweb::loader::http_client::Attempts;
use rweb::loader::http_client::Retry;
use rweb::loader::data_client;
use rweb::loader::Client;
use rweb::loader::Response;
use rweb::loader::Url;
use rweb::mime::MediaType;

#[test]
fn parses_data_url_with_media_type() {
    let url: data_client::Url = "data:text/html,Hello world!".parse().unwrap();

    assert_eq!(url.media_type(), &MediaType::TextHtml);
    assert_eq!(url.body(), b"Hello world!");
}

#[test]
fn loads_data_request_body() {
    let url: data_client::Url = "data:text/html,Hello world!".parse().unwrap();
    let request = data_client::Request::builder().url(&url).build().unwrap();

    let response = data_client::load(request);

    assert_eq!(response.body_as_str().unwrap(), "Hello world!");
}

#[test]
fn defaults_to_text_plain() {
    let url: data_client::Url = "data:,Hello world!".parse().unwrap();

    assert_eq!(url.media_type(), &MediaType::TextPlain);
    assert_eq!(url.body(), b"Hello world!");
}

#[test]
fn parses_json_media_type() {
    let url: data_client::Url = "data:application/json,{\"ok\":true}".parse().unwrap();

    assert_eq!(url.media_type(), &MediaType::ApplicationJson);
}

#[test]
fn data_url_errors() {
    assert_eq!(
        "text/html,x".parse::<data_client::Url>().unwrap_err(),
        data_client::DataUrlError::MissingPrefix
    );
    assert_eq!(
        "data:text/html".parse::<data_client::Url>().unwrap_err(),
        data_client::DataUrlError::MissingComma
    );
    assert!("data:text/brainrot,x".parse::<data_client::Url>().is_err());
}

#[test]
fn data_url_body_is_utf8_of_the_text() {
    let url: data_client::Url = "data:,é".parse().unwrap();

    assert_eq!(url.body(), "é".as_bytes());
}

#[test]
fn parses_absolute_file_url() {
    let url: rweb::loader::file_client::Url = "file:///tmp/index.html".parse().unwrap();

    assert_eq!(PathBuf::from(url.path()), PathBuf::from("/tmp/index.html"));
}

#[test]
fn rejects_relative_file_url() {
    let result = "file://fixtures/index.html".parse::<rweb::loader::file_client::Url>();

    assert!(result.is_err());
}

#[test]
fn file_request_and_response() {
    let url: rweb::loader::file_client::Url = "file:///tmp/a.txt".parse().unwrap();
    let request = rweb::loader::file_client::Request::builder().url(&url).build().unwrap();
    let response = rweb::loader::file_client::Response::new(b"Talk is cheap.".to_vec());

    assert_eq!(request.url().path(), "/tmp/a.txt");
    assert_eq!(response.body_as_str().unwrap(), "Talk is cheap.");
    assert!(rweb::loader::file_client::Builder::new().build().is_err());
}

#[test]
fn dispatches_http_urls() {
    let url: Url = "https://example.com/".parse().unwrap();

    assert!(matches!(url, Url::Http(_)));
}

#[test]
fn dispatches_file_urls() {
    let url: Url = "file:///tmp/index.html".parse().unwrap();

    assert!(matches!(url, Url::File(_)));
}

#[test]
fn rejects_unknown_scheme() {
    let result: Result<Url, _> = "brainrot://example.com/".parse();

    assert!(result.is_err());
}

#[test]
fn dispatches_data_urls() {
    let url: Url = "data:,hi".parse().unwrap();

    assert!(matches!(url, Url::Data(_)));
}

#[test]
fn loader_response_body_as_str() {
    let url: data_client::Url = "data:,hi".parse().unwrap();
    let request = data_client::Request::builder().url(&url).build().unwrap();
    let response: Response = data_client::load(request).into();

    assert_eq!(response.body_as_str().unwrap(), "hi");

    let file: Response = rweb::loader::file_client::Response::new(vec![0xff]).into();
    assert!(file.body_as_str().is_err());
    assert!(matches!(file, Response::File(_)));
}

#[test]
fn builds_http_request_with_default_headers() {
    let url: HttpUrl = "http://localhost:8080/path".parse().unwrap();
    let client = Client::builder().user_agent("test-agent").build();

    let request = client.build_http_request(&url).unwrap().to_string();

    assert!(request.starts_with("GET /path HTTP/1.1\r\n"));
    assert!(request.contains("host: localhost:8080\r\n"));
    assert!(request.contains("connection: keep-alive\r\n"));
    assert!(request.contains("user-agent: test-agent\r\n"));
}

#[test]
fn builds_http_request_with_close_connection_policy() {
    let url: HttpUrl = "http://localhost/path".parse().unwrap();
    let client = Client::builder()
        .connection_policy(ConnectionPolicy::Close)
        .build();

    let request = client.build_http_request(&url).unwrap().to_string();

    assert!(request.contains("connection: close\r\n"));
}

fn head(raw: &[u8]) -> rweb::http::Head {
    rweb::http::Head::try_from(raw).unwrap()
}

#[test]
fn follows_redirect_to_location() {
    let url: HttpUrl = "http://example.com/start".parse().unwrap();
    let client = Client::builder().build();

    let step = client
        .next(&url, 0, &head(b"HTTP/1.1 302 Found\r\nLocation: /final"))
        .unwrap();

    match step {
        Navigation::Redirect { url, redirects } => {
            assert_eq!(url.path(), "/final");
            assert_eq!(url.host(), "example.com");
            assert_eq!(redirects, 1);
        }
        Navigation::Done => panic!("expected a redirect"),
    }
    assert!(matches!(
        client.next(&url, 0, &head(b"HTTP/1.1 200 OK")).unwrap(),
        Navigation::Done
    ));
}

#[test]
fn redirect_limits_and_errors() {
    let url: HttpUrl = "http://example.com/start".parse().unwrap();
    let zero = Client::builder().max_redirects(0).build();
    let one = Client::builder().max_redirects(1).build();
    let redirect = head(b"HTTP/1.1 302 Found\r\nLocation: /loop");

    assert_eq!(
        zero.next(&url, 0, &redirect).unwrap_err(),
        LoadError::TooManyRedirects
    );
    assert!(one.next(&url, 0, &redirect).is_ok());
    assert_eq!(
        one.next(&url, 1, &redirect).unwrap_err(),
        LoadError::TooManyRedirects
    );
    assert_eq!(
        one.next(&url, 0, &head(b"HTTP/1.1 302 Found")).unwrap_err(),
        LoadError::MissingLocation
    );
    assert!(matches!(
        one.next(&url, 0, &head(b"HTTP/1.1 302 Found\r\nLocation: data:text/html,Hello"))
            .unwrap_err(),
        LoadError::Url(_)
    ));
}

#[test]
fn pool_retries_a_failed_exchange_once() {
    let mut attempts = Attempts::new();
    assert_eq!(attempts.on_failure(), Retry::Reconnect);
    assert_eq!(attempts.on_failure(), Retry::Fail);
    assert_eq!(attempts.on_failure(), Retry::Fail);
}

#[test]
fn pool_keeps_connections_the_server_keeps_open() {
    assert!(!keeps_connection(&head(b"HTTP/1.1 200 OK\r\nConnection: close")));
    assert!(keeps_connection(&head(b"HTTP/1.1 200 OK\r\nConnection: keep-alive")));
    assert!(keeps_connection(&head(b"HTTP/1.1 200 OK")));
}

#[test]
fn relative_file_paths_are_refused_by_every_parser() {
    assert_eq!(
        rweb::loader::file_client::Url::parse("file://fixtures/index.html").unwrap_err(),
        FileUrlError::RelativePath
    );
    assert_eq!(
        rweb::loader::file_client::Url::parse("http://x/").unwrap_err(),
        FileUrlError::MissingPrefix
    );
    assert_eq!(
        rweb::loader::Url::parse("file://a.txt").unwrap_err(),
        LoaderUrlError::File(FileUrlError::RelativePath)
    );
    let url = rweb::loader::file_client::Url::parse("file:///srv/index.html").unwrap();
    assert_eq!(url.path(), "/srv/index.html");
}

#[test]
fn stops_after_max_redirects_with_one_more_request() {
    let start: HttpUrl = "http://example.com/start".parse().unwrap();
    let redirect = head(b"HTTP/1.1 302 Found\r\nLocation: http://example.com/next\r\nContent-Length: 0");
    for max in 0..4usize {
        let client = Client::builder().max_redirects(max).build();
        let mut url = start.clone();
        let mut redirects = 0;
        let mut requests = 0;
        let outcome = loop {
            requests += 1;
            match client.next(&url, redirects, &redirect) {
                Ok(Navigation::Redirect { url: next, redirects: count }) => {
                    url = next;
                    redirects = count;
                }
                other => break other,
            }
        };
        assert_eq!(outcome.unwrap_err(), LoadError::TooManyRedirects);
        assert_eq!(requests, max + 1);
    }
}

#[test]
fn body_length_needs_a_plain_content_length() {
    assert_eq!(body_length(&head(b"HTTP/1.1 200 OK\r\nContent-Length: 12")), Ok(12));
    assert_eq!(
        body_length(&head(b"HTTP/1.1 200 OK\r\nTransfer-Encoding: chunked\r\nContent-Length: 3")),
        Err(BodyError::TransferEncoding)
    );
    assert_eq!(
        body_length(&head(b"HTTP/1.1 200 OK\r\nContent-Encoding: gzip\r\nContent-Length: 3")),
        Err(BodyError::ContentEncoding)
    );
    assert_eq!(body_length(&head(b"HTTP/1.1 200 OK")), Err(BodyError::MissingContentLength));
    assert_eq!(
        body_length(&head(b"HTTP/1.1 200 OK\r\nContent-Length: many")),
        Err(BodyError::MissingContentLength)
    );
}
