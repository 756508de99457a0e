//! Reconciles two string-resource formats for a localized application: an
//! XML-based source-of-truth string table (keyed by identifier) and
//! per-locale gettext translation catalogs (keyed by source text).
//!
//! The pipeline normalizes text on both sides, partitions the source entries
//! into regular strings and locale-specific URLs, matches each catalog entry
//! against the source table, rewrites URLs for the locale's website segment,
//! and serializes the matched entries back into the XML string format while
//! tracking which source strings remain untranslated.

pub mod android;
pub mod gettext;
pub mod locale;
pub mod text;
pub mod xref;
