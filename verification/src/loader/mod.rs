//! Loading resources: the URL schemes the browser understands and the
//! client's redirect policy.
pub mod client;
pub mod data_client;
pub mod file_client;
pub mod http_client;
pub mod request;
pub mod response;
pub mod url;

pub use client::Client;
pub use request::Request;
pub use response::Response;
pub use url::Url;
