//! Verification that a rebuilt package is reproducible: that it holds what
//! the officially distributed package holds, apart from the entries that are
//! expected to differ between builds.
//!
//! Two archives are compared in two steps. The names they list are compared
//! as sets (`names`), and the content of each entry of the first archive is
//! compared with the entry of its name in the second (`contents`). The
//! manifest is compared by the canonical text (`xml`) of the document that it
//! encodes (`decode`, `layout`); every other entry byte for byte. The entries
//! that the ignore policy (`ignore`) holds take no part in either step. What
//! diverges is collected in a report (`report`).

pub mod archive;
pub mod attributes;
pub mod contents;
pub mod decode;
pub mod ignore;
pub mod layout;
pub mod names;
pub mod report;
pub mod text;
pub mod unambiguous;
pub mod xml;
