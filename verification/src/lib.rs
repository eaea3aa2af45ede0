//! Locates SQL text embedded in string literals of Python source files.
//!
//! Syntax-tree pattern queries find the embedded strings; extraction
//! strategies turn the query results into ordered `SqlBlock` boundary pairs;
//! range mapping translates matches found inside a block's inner text back
//! into absolute file coordinates; finder strategies search, invert-match or
//! replace strictly within block boundaries; and the quote normalizer
//! rewrites block delimiters to a canonical triple-quote form.

pub mod block;
pub mod capture;
pub mod cli;
pub mod display;
pub mod edit;
pub mod extract;
pub mod finder;
pub mod mapping;
pub mod no_ts;
pub mod node;
pub mod quotes;
pub mod re;
pub mod rg_output;
pub mod ts;
