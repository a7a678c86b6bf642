use rweb::http::Scheme;
use rweb::http::Url;
use rweb::http::UrlError;

#[test]
fn parses_http_url_with_defaults() {
    let url: Url = "http://example.com/foo".parse().unwrap();

    assert!(matches!(url.scheme(), Scheme::Http));
    assert_eq!(url.host(), "example.com");
    assert_eq!(url.port(), 80);
    assert_eq!(url.path(), "/foo");
}

#[test]
fn parses_https_url_with_default_port() {
    let url: Url = "https://example.com/".parse().unwrap();

    assert!(matches!(url.scheme(), Scheme::Https));
    assert_eq!(url.host(), "example.com");
    assert_eq!(url.port(), 443);
    assert_eq!(url.path(), "/");
}

#[test]
fn parses_explicit_port() {
    let url: Url = "http://localhost:8000/".parse().unwrap();

    assert_eq!(url.host(), "localhost");
    assert_eq!(url.port(), 8000);
    assert_eq!(url.path(), "/");
}

#[test]
fn host_header() {
    let http_default: Url = "http://localhost/".parse().unwrap();
    let http_explicit_default: Url = "http://localhost:80/".parse().unwrap();
    let http_non_default: Url = "http://localhost:8080/".parse().unwrap();
    let https_default: Url = "https://example.com/".parse().unwrap();
    let https_explicit_default: Url = "https://example.com:443/".parse().unwrap();
    let https_non_default: Url = "https://example.com:8443/".parse().unwrap();

    assert_eq!(http_default.host_header(), "localhost");
    assert_eq!(http_explicit_default.host_header(), "localhost");
    assert_eq!(http_non_default.host_header(), "localhost:8080");
    assert_eq!(https_default.host_header(), "example.com");
    assert_eq!(https_explicit_default.host_header(), "example.com");
    assert_eq!(https_non_default.host_header(), "example.com:8443");
}

#[test]
fn resolves_absolute_http_redirect_location() {
    let base: Url = "http://example.com/start".parse().unwrap();

    let resolved = base.resolve("http://other.example/final").unwrap();

    assert!(matches!(resolved.scheme(), Scheme::Http));
    assert_eq!(resolved.host(), "other.example");
    assert_eq!(resolved.port(), 80);
    assert_eq!(resolved.path(), "/final");
}

#[test]
fn resolves_absolute_https_redirect_location() {
    let base: Url = "http://example.com/start".parse().unwrap();

    let resolved = base.resolve("https://secure.example/final").unwrap();

    assert!(matches!(resolved.scheme(), Scheme::Https));
    assert_eq!(resolved.host(), "secure.example");
    assert_eq!(resolved.port(), 443);
    assert_eq!(resolved.path(), "/final");
}

#[test]
fn resolves_same_origin_absolute_path_redirect_location() {
    let base: Url = "https://example.com:8443/start".parse().unwrap();

    let resolved = base.resolve("/final").unwrap();

    assert!(matches!(resolved.scheme(), Scheme::Https));
    assert_eq!(resolved.host(), "example.com");
    assert_eq!(resolved.port(), 8443);
    assert_eq!(resolved.path(), "/final");
}

#[test]
fn rejects_unsupported_redirect_location_scheme() {
    let base: Url = "http://example.com/start".parse().unwrap();

    let result = base.resolve("data:text/html,Hello");

    assert!(result.is_err());
}

#[test]
fn url_errors() {
    assert_eq!("example.com".parse::<Url>().unwrap_err(), UrlError::InvalidUrl);
    assert_eq!(
        "ftp://example.com/".parse::<Url>().unwrap_err(),
        UrlError::InvalidScheme("ftp".to_string())
    );
    assert_eq!(
        "http://example.com:99999/".parse::<Url>().unwrap_err(),
        UrlError::InvalidPort
    );
    let base: Url = "http://example.com/".parse().unwrap();
    assert_eq!(
        base.resolve("data:text/html,Hello").unwrap_err(),
        UrlError::UnsupportedLocation("data:text/html,Hello".to_string())
    );
}

#[test]
fn url_without_path_gets_root_path() {
    let url: Url = "https://example.com:8443".parse().unwrap();

    assert_eq!(url.host(), "example.com");
    assert_eq!(url.port(), 8443);
    assert_eq!(url.path(), "/");
    assert_eq!(url.host_header(), "example.com:8443");
}

#[test]
fn scheme_names_read_back() {
    assert_eq!("http".parse::<Scheme>().unwrap(), Scheme::Http);
    assert_eq!("https".parse::<Scheme>().unwrap(), Scheme::Https);
    assert!("HTTP".parse::<Scheme>().is_err());
}
