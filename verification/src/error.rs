//! The error kinds the codec and the tree engine surface.

use vstd::prelude::*;

verus! {

/// The errors the page codec and the tree engine surface.
///
/// A search miss is not an error: lookups return `Option` instead.
#[derive(Debug, Clone)]
pub enum BPlusError {
    /// A node was asked to encode or decode in a shape it cannot have,
    /// or the backing store failed; the message says which.
    NodeError(String),
    /// An oversized value reached the encoder without a pre-allocated
    /// overflow chain: the caller must allocate overflow pages first.
    MissingExtraData,
    /// An encoded node body would exceed the fixed page capacity.
    PageMax,
    /// A page's bytes do not parse as any node: the page is not trusted.
    Corrupt,
}

impl BPlusError {
    /// A short description of the error, for callers that print it.
    pub fn describe(&self) -> (r: String)
        ensures
            self matches BPlusError::NodeError(m) ==> r@ == m@,
            self matches BPlusError::MissingExtraData ==> r@ == "missing extra data error"@,
            self matches BPlusError::PageMax ==> r@ == "page max error"@,
            self matches BPlusError::Corrupt ==> r@ == "corrupt page error"@,
    {
        match self {
            BPlusError::NodeError(m) => m.clone(),
            BPlusError::MissingExtraData => "missing extra data error".to_owned(),
            BPlusError::PageMax => "page max error".to_owned(),
            BPlusError::Corrupt => "corrupt page error".to_owned(),
        }
    }
}

} // verus!
