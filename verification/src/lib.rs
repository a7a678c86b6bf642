//! A small web browser's engine: an HTML lexer and tree builder, HTTP/1.1
//! messages and URLs, and the URL schemes the page loader understands.
pub mod text;
pub mod html;
pub mod http;
pub mod mime;
pub mod loader;
pub mod browser;
