//! Heuristic extraction of product-like text fragments and image candidates
//! from HTML documents.
//!
//! The similarity module decides whether an attribute string is approximately
//! related to a set of keywords (tokenization plus Levenshtein distance with a
//! keyword-length-proportional tolerance).  The extractor module walks a
//! parsed document tree, harvesting text from a fixed list of semantic tags,
//! from elements whose `class` attribute matches the keyword heuristic, and
//! the resolved URL of every image.

pub mod dom;
pub mod extractor;
pub mod laws;
pub mod prompt;
pub mod similarity;
pub mod text;

use vstd::prelude::*;

verus! {

/// A product as the downstream consumer describes it.
#[derive(Debug, Clone, PartialEq, Eq)]
pub struct Product {
    pub name: String,
    pub price: String,
    pub description: String,
    pub image_url: String,
}

/// Query parameters of the product-information endpoint: the page URL.
#[derive(Debug, Clone, PartialEq, Eq)]
pub struct QueryParameters {
    pub url: String,
}

} // verus!
