//! A page as the loader hands it over.
use vstd::prelude::*;

use crate::loader::Url;

verus! {

/// The address a page came from and its source text.
#[derive(Debug)]
pub struct LoadedPage {
    pub url: Url,
    pub source: String,
}

} // verus!
