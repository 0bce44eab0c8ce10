//! Product recommendation from a sales `csv`: parse the purchases, index
//! them by client and product, compare clients by the products they share,
//! and select the products to recommend.
pub mod map;
pub mod parsing;
pub mod recommendation;
pub mod shopping;
pub mod similarity;
