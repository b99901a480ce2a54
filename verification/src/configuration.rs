//! What an extraction is asked to do.

use vstd::prelude::*;

verus! {

/// Three independent switches; all are on by default. The language of a
/// page is always extracted.
pub struct Configuration {
    pub enable_text_extraction: bool,
    pub enable_embeddings_extraction: bool,
    pub enable_meta_extraction: bool,
}

impl Default for Configuration {
    fn default() -> (r: Self)
        ensures
            r.enable_text_extraction,
            r.enable_embeddings_extraction,
            r.enable_meta_extraction,
    {
        Configuration {
            enable_text_extraction: true,
            enable_embeddings_extraction: true,
            enable_meta_extraction: true,
        }
    }
}

} // verus!
