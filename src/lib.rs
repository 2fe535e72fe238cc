//! A compact word segmenter for Japanese, Chinese and Korean text.
//!
//! Segmentation is framed as a binary decision at every position between two
//! characters: does a new word start here? The decision is made by a boosted
//! linear model over sparse string features drawn from a window of
//! characters, character types and earlier decisions.
//!
//! The library holds the parts whose behaviour is exact: the character-type
//! rules, the feature schema, the corpus walker, the left-to-right inference
//! loop, the feature vocabulary and its index, the sparse instance store and
//! its confusion counts, the text formats of feature and model files, and
//! the model-location rules. The real-valued weights live with the caller.

use vstd::prelude::*;

pub mod features;
pub mod formats;
pub mod language;
pub mod segmenter;
pub mod store;
mod text;
pub mod util;
pub mod vocab;

verus! {

/// The release of this library.
pub const VERSION: &'static str = "0.1.0";

/// The release of this library.
pub fn version() -> (r: &'static str)
    ensures
        r@ == VERSION@,
        r@.len() > 0,
{
    proof {
        reveal_strlit("0.1.0");
    }
    VERSION
}

} // verus!
