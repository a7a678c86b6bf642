//! The browser's own logic: a flat lexer for page text, the state of a
//! window's tabs, how a document becomes a tree of layout boxes, the rules
//! of inline text, and the values that pass between the loader and the
//! window.
pub mod display;
pub mod event;
pub mod html;
pub mod inline;
pub mod layout;
pub mod loader;
pub mod page;
pub mod window;

pub use display::FontSlant;
pub use display::FontWeight;
pub use event::BrowserEvent;
pub use page::LoadedPage;
pub use window::BrowserWindow;
