//! HTTP/1.x messages: methods, versions, status codes, URLs, headers,
//! requests and responses.
pub mod error;
pub mod method;
pub mod scheme;
pub mod status;
pub mod url;
pub mod version;

pub use error::HttpError;
pub use method::Method;
pub use scheme::Scheme;
pub use status::StatusCode;
pub use url::Url;
pub use url::UrlError;
pub use version::Version;
pub mod header;
pub use header::HeaderMap;
pub use header::HeaderName;
pub mod request;
pub use request::Builder;
pub use request::Request;
pub mod response;
pub use response::header_end;
pub use response::Head;
pub use response::Response;
