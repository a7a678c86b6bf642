use rweb::mime::MediaType;

#[test]
fn parses_supported_media_types() {
    assert_eq!(
        "text/plain".parse::<MediaType>().unwrap(),
        MediaType::TextPlain
    );
    assert_eq!(
        "text/html".parse::<MediaType>().unwrap(),
        MediaType::TextHtml
    );
    assert_eq!("text/css".parse::<MediaType>().unwrap(), MediaType::TextCss);
    assert_eq!(
        "application/javascript".parse::<MediaType>().unwrap(),
        MediaType::ApplicationJavascript
    );
    assert_eq!(
        "application/json".parse::<MediaType>().unwrap(),
        MediaType::ApplicationJson
    );
    assert_eq!(
        "image/png".parse::<MediaType>().unwrap(),
        MediaType::ImagePng
    );
    assert_eq!(
        "image/jpeg".parse::<MediaType>().unwrap(),
        MediaType::ImageJpeg
    );
    assert_eq!(
        "image/gif".parse::<MediaType>().unwrap(),
        MediaType::ImageGif
    );
    assert_eq!(
        "image/svg+xml".parse::<MediaType>().unwrap(),
        MediaType::ImageSvgXml
    );
}

#[test]
fn rejects_unsupported_media_type() {
    let result = "application/brainrot".parse::<MediaType>();

    assert!(result.is_err());
}

#[test]
fn media_type_names_read_back() {
    for m in [
        MediaType::TextPlain,
        MediaType::TextHtml,
        MediaType::TextCss,
        MediaType::ApplicationJavascript,
        MediaType::ApplicationJson,
        MediaType::ImagePng,
        MediaType::ImageJpeg,
        MediaType::ImageGif,
        MediaType::ImageSvgXml,
    ] {
        assert_eq!(m.to_string().parse::<MediaType>().unwrap(), m);
    }
    assert_eq!(MediaType::default(), MediaType::TextPlain);
}
