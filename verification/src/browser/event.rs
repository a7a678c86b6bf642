//! Events the loader sends to the window.
use vstd::prelude::*;

use crate::browser::page::LoadedPage;

verus! {

#[derive(Debug)]
pub enum BrowserEvent {
    /// A navigation finished: the page, or why it failed.
    PageLoaded(Result<LoadedPage, String>),
}

} // verus!
