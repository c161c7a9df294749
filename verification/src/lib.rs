//! Word lists from patterns.
//!
//! A pattern, with a dictionary and a list of terms, is expanded into all
//! the words it denotes inside a length window; a word is multiplied into
//! its capitalization and substitution variants.
//!
//! - `pattern`: pattern trees and their shapes.
//! - `syntax`: pattern texts, read by regex-syntax.
//! - `words`: word lists as sequences: products, joins, length windows.
//! - `product`: the product iterator of itertools.
//! - `combine`: concatenation and repetition under a length bound.
//! - `expand`: the expansion of a pattern.
//! - `generate`: capitalization, substitution and the plain word list.
//! - `entries`: substitution rules and dictionary lines as they come in.
//! - `text`: strings from characters and bytes.
//! - `laws`: what holds of every expansion and every list of variants.

pub mod combine;
pub mod entries;
pub mod expand;
pub mod generate;
pub mod laws;
pub mod pattern;
pub mod product;
pub mod syntax;
pub mod text;
pub mod words;
