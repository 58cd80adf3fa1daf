//! The parsed form of one document that the language-intelligence layer
//! queries: its text, import statements, bindings, merged namespace and
//! the opcode vocabulary of its imported deployer.

use vstd::prelude::*;
use crate::ast::{AuthoringMeta, Binding, Namespace};
use crate::namespace::Import;

verus! {

/// A parsed document: built once by a single top-to-bottom parse and
/// treated as immutable thereafter.
#[derive(Debug, PartialEq)]
pub struct RainDocument {
    /// The raw source text.
    pub text: String,
    /// The import statements, in statement order.
    pub imports: Vec<Import>,
    /// The document's own bindings.
    pub bindings: Vec<Binding>,
    /// The fully merged namespace tree.
    pub namespace: Namespace,
    /// The opcode vocabulary of the imported deployer, when one is known.
    pub known_words: Option<AuthoringMeta>,
}

/// A read-only view of the content-addressed store's caches, as plain
/// values: the known documents by uri and content hash, and the hashes of
/// all cached meta items.
#[derive(Debug, PartialEq)]
pub struct MetaStoreView {
    /// Known documents: uri and content hash bytes.
    pub dotrain_cache: Vec<(String, Vec<u8>)>,
    /// Hashes of every cached meta item.
    pub meta_hashes: Vec<Vec<u8>>,
}

} // verus!
